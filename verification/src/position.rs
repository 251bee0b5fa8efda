//! Positions in matrices.

use vstd::prelude::*;

verus! {

/// A position: a row and a column.
pub trait Position {
    /// The row and the column, in this order.
    spec fn coordinates_spec(&self) -> (usize, usize);

    /// Return the row and the column.
    fn coordinates(&self) -> (place: (usize, usize))
        ensures
            place == self.coordinates_spec(),
    ;
}

/// A pair gives the row first and the column second.
impl Position for (usize, usize) {
    open spec fn coordinates_spec(&self) -> (usize, usize) {
        *self
    }

    #[inline(always)]
    fn coordinates(&self) -> (place: (usize, usize)) {
        *self
    }
}

} // verus!
