//! The conventional storage.
//!
//! The storage is suitable for dense matrices.

use vstd::prelude::*;
use vstd::slice::slice_to_vec;
use std::ops::{Deref, DerefMut, Index};
use crate::element::{count_nonzero, Element};
use crate::matrix::Matrix;
use crate::position::Position;
use crate::size::Size;
use crate::storage::flat::{flat_index, lemma_flat_index_bounds, lemma_flat_index_once};

verus! {

/// A conventional matrix.
#[derive(Clone, Debug, PartialEq)]
pub struct Conventional<T: Element> {
    /// The number of rows.
    pub rows: usize,
    /// The number of columns.
    pub columns: usize,
    /// The values stored in the column-major order.
    pub values: Vec<T>,
}

/// The mathematical content of a conventional matrix: a shape and the
/// values in column-major order.
pub struct ConventionalView<T> {
    /// The number of rows.
    pub rows: int,
    /// The number of columns.
    pub columns: int,
    /// The values in the column-major order.
    pub values: Seq<T>,
}

impl<T: Element> ConventionalView<T> {
    /// Whether there is one value for each position.
    pub open spec fn is_valid(self) -> bool {
        &&& 0 <= self.rows
        &&& 0 <= self.columns
        &&& self.values.len() == self.rows * self.columns
    }

    /// The element at the position.
    pub open spec fn get(self, row: int, column: int) -> T {
        self.values[flat_index(row, column, self.rows)]
    }

    /// The matrix of the given shape whose elements are all zero.
    pub open spec fn zero(rows: int, columns: int) -> Self {
        ConventionalView {
            rows,
            columns,
            values: Seq::new((rows * columns) as nat, |k: int| T::zero_spec()),
        }
    }

    /// The transpose: the element of row `i` and column `j` is the element
    /// of row `j` and column `i` of `self`.
    pub open spec fn transpose(self) -> Self {
        ConventionalView {
            rows: self.columns,
            columns: self.rows,
            values: Seq::new(
                (self.rows * self.columns) as nat,
                |k: int| self.get(k / self.columns, k % self.columns),
            ),
        }
    }
}

impl<T: Element> View for Conventional<T> {
    type V = ConventionalView<T>;

    open spec fn view(&self) -> ConventionalView<T> {
        ConventionalView {
            rows: self.rows as int,
            columns: self.columns as int,
            values: self.values@,
        }
    }
}

impl<T: Element> Conventional<T> {
    /// The invariant of the storage: there is one value for each position.
    pub open spec fn is_valid(&self) -> bool {
        self@.is_valid()
    }

    /// Check the invariant of the storage.
    pub fn validate(&self) -> (valid: bool)
        ensures
            valid == self.is_valid(),
    {
        proof {
            assert(self.values.len() <= usize::MAX);
        }
        match self.rows.checked_mul(self.columns) {
            Some(length) => self.values.len() == length,
            None => false,
        }
    }

    /// Create a zero matrix.
    pub fn new<S: Size>(size: S) -> (matrix: Self)
        requires
            size.dimensions_spec().0 * size.dimensions_spec().1 <= usize::MAX,
        ensures
            matrix.is_valid(),
            matrix@ == ConventionalView::<T>::zero(
                size.dimensions_spec().0 as int,
                size.dimensions_spec().1 as int,
            ),
    {
        let (rows, columns) = size.dimensions();
        let length = rows * columns;
        let mut values: Vec<T> = Vec::with_capacity(length);
        let mut k: usize = 0;
        while k < length
            invariant
                k <= length,
                values@.len() == k,
                forall|a: int| 0 <= a < k ==> #[trigger] values@[a] == T::zero_spec(),
            decreases length - k,
        {
            values.push(T::zero());
            k += 1;
        }
        proof {
            assert(values@ =~= Seq::new((rows * columns) as nat, |k: int| T::zero_spec()));
        }
        Conventional { rows, columns, values }
    }

    /// Create a matrix from a slice.
    pub fn from_slice<S: Size>(size: S, values: &[T]) -> (matrix: Self)
        requires
            values@.len() == size.dimensions_spec().0 * size.dimensions_spec().1,
        ensures
            matrix.is_valid(),
            matrix.rows == size.dimensions_spec().0,
            matrix.columns == size.dimensions_spec().1,
            matrix.values@ == values@,
    {
        let (rows, columns) = size.dimensions();
        Conventional { rows, columns, values: slice_to_vec(values) }
    }

    /// Create a matrix from a vector.
    pub fn from_vec<S: Size>(size: S, values: Vec<T>) -> (matrix: Self)
        requires
            values@.len() == size.dimensions_spec().0 * size.dimensions_spec().1,
        ensures
            matrix.is_valid(),
            matrix.rows == size.dimensions_spec().0,
            matrix.columns == size.dimensions_spec().1,
            matrix.values == values,
    {
        let (rows, columns) = size.dimensions();
        Conventional { rows, columns, values }
    }

    /// Lend out an element for writing.
    #[inline]
    pub fn index_mut<P: Position>(&mut self, index: P) -> (element: &mut T)
        requires
            old(self).is_valid(),
            index.coordinates_spec().0 < old(self).rows,
            index.coordinates_spec().1 < old(self).columns,
        ensures
            *element == old(self)@.get(
                index.coordinates_spec().0 as int,
                index.coordinates_spec().1 as int,
            ),
            final(self).rows == old(self).rows,
            final(self).columns == old(self).columns,
            final(self).values@ == old(self).values@.update(
                flat_index(
                    index.coordinates_spec().0 as int,
                    index.coordinates_spec().1 as int,
                    old(self).rows as int,
                ),
                *final(element),
            ),
    {
        let (i, j) = index.coordinates();
        proof {
            lemma_flat_index_bounds(i as int, j as int, self.rows as int, self.columns as int);
            assert(self.values.len() == self.rows * self.columns);
        }
        &mut self.values[j * self.rows + i]
    }
}

/// The size of a matrix is its number of rows and its number of columns.
impl<T: Element> Size for Conventional<T> {
    open spec fn dimensions_spec(&self) -> (usize, usize) {
        (self.rows, self.columns)
    }

    #[inline]
    fn dimensions(&self) -> (shape: (usize, usize)) {
        (self.rows, self.columns)
    }
}

impl<T: Element> Matrix for Conventional<T> {
    type Element = T;

    open spec fn shape(&self) -> (usize, usize) {
        (self.rows, self.columns)
    }

    open spec fn well_formed(&self) -> bool {
        self.is_valid()
    }

    /// The values of a matrix must fit one vector.
    open spec fn storable(rows: usize, columns: usize) -> bool {
        rows * columns <= usize::MAX
    }

    open spec fn element(&self, row: int, column: int) -> T {
        self@.get(row, column)
    }

    open spec fn nonzero_count(&self) -> nat {
        count_nonzero(self.values@)
    }

    #[inline]
    fn rows(&self) -> (rows: usize) {
        self.rows
    }

    #[inline]
    fn columns(&self) -> (columns: usize) {
        self.columns
    }

    /// Count the values that do not count as zero.
    fn nonzeros(&self) -> (count: usize)
        ensures
            count == count_nonzero(self.values@),
            count <= self.values@.len(),
    {
        let mut count: usize = 0;
        let mut k: usize = 0;
        while k < self.values.len()
            invariant
                k <= self.values@.len(),
                count <= k,
                count == count_nonzero(self.values@.subrange(0, k as int)),
            decreases self.values@.len() - k,
        {
            proof {
                assert(self.values@.subrange(0, k + 1).drop_last() =~= self.values@.subrange(
                    0,
                    k as int,
                ));
            }
            if !self.values[k].is_zero() {
                count += 1;
            }
            k += 1;
        }
        proof {
            assert(self.values@.subrange(0, k as int) =~= self.values@);
        }
        count
    }

    /// Build the transpose row by row of `self`, which is column by column
    /// of the result.
    fn transpose(&self) -> (other: Self)
        ensures
            other@ == self@.transpose(),
    {
        let (rows, columns) = (self.rows, self.columns);
        let mut values: Vec<T> = Vec::with_capacity(self.values.len());
        let mut i: usize = 0;
        while i < rows
            invariant
                self.is_valid(),
                rows == self.rows,
                columns == self.columns,
                i <= rows,
                values@.len() == i * columns,
                forall|k: int|
                    0 <= k < values@.len() ==> #[trigger] values@[k] == self@.get(
                        k / (columns as int),
                        k % (columns as int),
                    ),
            decreases rows - i,
        {
            let mut j: usize = 0;
            while j < columns
                invariant
                    self.is_valid(),
                    rows == self.rows,
                    columns == self.columns,
                    i < rows,
                    j <= columns,
                    values@.len() == i * columns + j,
                    forall|k: int|
                        0 <= k < values@.len() ==> #[trigger] values@[k] == self@.get(
                            k / (columns as int),
                            k % (columns as int),
                        ),
                decreases columns - j,
            {
                proof {
                    lemma_flat_index_bounds(i as int, j as int, rows as int, columns as int);
                    crate::storage::flat::lemma_flat_index_split(
                        j as int,
                        i as int,
                        columns as int,
                    );
                    assert(self.values.len() == rows * columns);
                }
                values.push(self.values[j * rows + i]);
                j += 1;
            }
            proof {
                assert((i + 1) * columns == i * columns + columns) by (nonlinear_arith);
            }
            i += 1;
        }
        let other = Conventional { rows: columns, columns: rows, values };
        proof {
            assert(rows * columns == columns * rows) by (nonlinear_arith);
            assert(values@ =~= self@.transpose().values);
            assert forall|row: int, column: int|
                0 <= row < rows && 0 <= column < columns implies #[trigger] other@.get(column, row)
                == self@.get(row, column) by {
                lemma_flat_index_bounds(column, row, columns as int, rows as int);
                crate::storage::flat::lemma_flat_index_split(column, row, columns as int);
            }
        }
        other
    }

    #[inline]
    fn zero<S: Size>(size: S) -> (matrix: Self)
        ensures
            matrix@ == ConventionalView::<T>::zero(
                size.dimensions_spec().0 as int,
                size.dimensions_spec().1 as int,
            ),
    {
        let matrix = Conventional::new(size);
        proof {
            assert forall|row: int, column: int|
                0 <= row < matrix.rows && 0 <= column < matrix.columns implies #[trigger] matrix@.get(
                row,
                column,
            ) == T::zero_spec() by {
                lemma_flat_index_bounds(row, column, matrix.rows as int, matrix.columns as int);
            }
        }
        matrix
    }
}

impl<T: Element, P: Position> vstd::std_specs::core::IndexSpecImpl<P> for Conventional<T> {
    open spec fn index_req(&self, index: &P) -> bool {
        &&& self.is_valid()
        &&& index.coordinates_spec().0 < self.rows
        &&& index.coordinates_spec().1 < self.columns
    }
}

impl<T: Element, P: Position> Index<P> for Conventional<T> {
    type Output = T;

    #[inline]
    fn index(&self, index: P) -> (element: &T)
        ensures
            *element == self@.get(
                index.coordinates_spec().0 as int,
                index.coordinates_spec().1 as int,
            ),
    {
        let (i, j) = index.coordinates();
        proof {
            lemma_flat_index_bounds(i as int, j as int, self.rows as int, self.columns as int);
            assert(self.values.len() == self.rows * self.columns);
        }
        &self.values[j * self.rows + i]
    }
}

impl<T: Element> Deref for Conventional<T> {
    type Target = [T];

    #[inline]
    fn deref(&self) -> (values: &[T])
        ensures
            values@ == self.values@,
    {
        self.values.as_slice()
    }
}

impl<T: Element> DerefMut for Conventional<T> {
    #[inline]
    fn deref_mut(&mut self) -> (values: &mut [T])
        ensures
            values@ == old(self).values@,
            final(self).values@ == final(values)@,
            final(self).rows == old(self).rows,
            final(self).columns == old(self).columns,
    {
        self.values.as_mut_slice()
    }
}

} // verus!
