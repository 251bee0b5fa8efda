//! The diagonal storage.
//!
//! The storage is suitable for matrices whose elements off the main diagonal
//! are all zero.

use vstd::prelude::*;
use crate::element::Element;
use crate::size::Size;

verus! {

/// A diagonal matrix.
///
/// The value `values[i]` is the element of row `i` and column `i`. A
/// diagonal position without a value, and every position off the diagonal,
/// reads as zero.
#[derive(Clone, Debug, PartialEq)]
pub struct Diagonal<T: Element> {
    /// The number of rows.
    pub rows: usize,
    /// The number of columns.
    pub columns: usize,
    /// The values of the diagonal elements.
    pub values: Vec<T>,
}

impl<T: Element> Diagonal<T> {
    /// The invariant of the storage: no value lies outside the matrix.
    pub open spec fn is_valid(&self) -> bool {
        self.values@.len() <= self.rows && self.values@.len() <= self.columns
    }

    /// Check the invariant of the storage.
    pub fn validate(&self) -> (valid: bool)
        ensures
            valid == self.is_valid(),
    {
        self.values.len() <= self.rows && self.values.len() <= self.columns
    }

    /// Create a matrix from a vector.
    pub fn from_vec<S: Size>(size: S, values: Vec<T>) -> (matrix: Self)
        requires
            values@.len() <= size.dimensions_spec().0,
            values@.len() <= size.dimensions_spec().1,
        ensures
            matrix.is_valid(),
            matrix.rows == size.dimensions_spec().0,
            matrix.columns == size.dimensions_spec().1,
            matrix.values == values,
    {
        let (rows, columns) = size.dimensions();
        Diagonal { rows, columns, values }
    }
}

/// The size of a matrix is its number of rows and its number of columns.
impl<T: Element> Size for Diagonal<T> {
    open spec fn dimensions_spec(&self) -> (usize, usize) {
        (self.rows, self.columns)
    }

    #[inline]
    fn dimensions(&self) -> (shape: (usize, usize)) {
        (self.rows, self.columns)
    }
}

} // verus!
