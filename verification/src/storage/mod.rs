//! Storage schemes.

pub mod compressed;
pub mod conventional;
pub mod diagonal;
pub mod flat;

pub use compressed::{Compressed, Format};
pub use conventional::Conventional;
pub use diagonal::Diagonal;
