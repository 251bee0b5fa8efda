//! Sizes of matrices.

use vstd::prelude::*;

verus! {

/// A size: a number of rows and a number of columns.
pub trait Size {
    /// The rows and the columns, in this order.
    spec fn dimensions_spec(&self) -> (usize, usize);

    /// Return the number of rows and the number of columns.
    fn dimensions(&self) -> (shape: (usize, usize))
        ensures
            shape == self.dimensions_spec(),
    ;
}

/// A pair gives the rows first and the columns second.
impl Size for (usize, usize) {
    open spec fn dimensions_spec(&self) -> (usize, usize) {
        *self
    }

    #[inline(always)]
    fn dimensions(&self) -> (shape: (usize, usize)) {
        *self
    }
}

/// A single number is the size of a square matrix.
impl Size for usize {
    open spec fn dimensions_spec(&self) -> (usize, usize) {
        (*self, *self)
    }

    #[inline(always)]
    fn dimensions(&self) -> (shape: (usize, usize)) {
        (*self, *self)
    }
}

} // verus!
