//! The interface that every storage scheme offers.

use vstd::prelude::*;
use crate::element::Element;
use crate::size::Size;

verus! {

/// A matrix.
pub trait Matrix: Sized {
    /// The element type.
    type Element: Element;

    /// The number of rows and the number of columns.
    spec fn shape(&self) -> (usize, usize);

    /// Whether the storage satisfies the invariant of its scheme.
    spec fn well_formed(&self) -> bool;

    /// Whether the scheme can hold a matrix of the given shape on this
    /// machine.
    spec fn storable(rows: usize, columns: usize) -> bool;

    /// The element at the given row and column.
    spec fn element(&self, row: int, column: int) -> Self::Element;

    /// The number of stored values that do not count as zero.
    spec fn nonzero_count(&self) -> nat;

    /// Return the number of rows.
    fn rows(&self) -> (rows: usize)
        ensures
            rows == self.shape().0,
    ;

    /// Return the number of columns.
    fn columns(&self) -> (columns: usize)
        ensures
            columns == self.shape().1,
    ;

    /// Return the number of stored values that do not count as zero.
    fn nonzeros(&self) -> (count: usize)
        requires
            self.well_formed(),
        ensures
            count == self.nonzero_count(),
    ;

    /// Return the transpose.
    fn transpose(&self) -> (other: Self)
        requires
            self.well_formed(),
            Self::storable(self.shape().1, self.shape().0),
        ensures
            other.well_formed(),
            other.shape() == (self.shape().1, self.shape().0),
            forall|row: int, column: int|
                0 <= row < self.shape().0 && 0 <= column < self.shape().1
                    ==> #[trigger] other.element(column, row) == self.element(row, column),
    ;

    /// Return the zero matrix of the given size.
    fn zero<S: Size>(size: S) -> (matrix: Self)
        requires
            Self::storable(size.dimensions_spec().0, size.dimensions_spec().1),
        ensures
            matrix.well_formed(),
            matrix.shape() == size.dimensions_spec(),
            forall|row: int, column: int|
                0 <= row < matrix.shape().0 && 0 <= column < matrix.shape().1
                    ==> #[trigger] matrix.element(row, column)
                    == <Self::Element as Element>::zero_spec(),
    ;
}

} // verus!
