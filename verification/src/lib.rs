//! Matrix storage schemes.

pub mod algebra;
pub mod element;
pub mod matrix;
pub mod position;
pub mod size;
pub mod storage;

pub use algebra::{MultiplyInto, MultiplySelf};
pub use element::{Element, Number};
pub use matrix::Matrix;
pub use position::Position;
pub use size::Size;
pub use storage::{Compressed, Conventional, Diagonal};
