//! What a compressed matrix stands for: a shape, a format and a finite map
//! from positions to the values stored at them.

use vstd::prelude::*;
use crate::element::{Element, Number};
use crate::storage::compressed::Format;
use crate::storage::conventional::ConventionalView;
use crate::storage::flat::{flat_index, lemma_flat_index_bounds, lemma_flat_index_split};

verus! {

/// The mathematical content of a compressed matrix.
///
/// `entries` holds one value for each stored position, a zero that is stored
/// included. A position outside `entries` reads as the zero element.
pub struct CompressedView<T> {
    /// The number of rows.
    pub rows: int,
    /// The number of columns.
    pub columns: int,
    /// The storage format.
    pub format: Format,
    /// The stored values by row and column.
    pub entries: Map<(int, int), T>,
}

impl<T: Element> CompressedView<T> {
    /// Whether every stored position lies within the shape.
    pub open spec fn is_valid(self) -> bool {
        &&& 0 <= self.rows
        &&& 0 <= self.columns
        &&& forall|row: int, column: int| #[trigger]
            self.entries.contains_key((row, column)) ==> 0 <= row < self.rows && 0 <= column
                < self.columns
    }

    /// The matrix of the given shape that stores nothing.
    pub open spec fn zero(rows: int, columns: int, format: Format) -> Self {
        CompressedView { rows, columns, format, entries: Map::empty() }
    }

    /// The element at the position: the stored value, or zero where nothing
    /// is stored.
    pub open spec fn get(self, row: int, column: int) -> T {
        if self.entries.contains_key((row, column)) {
            self.entries[(row, column)]
        } else {
            T::zero_spec()
        }
    }

    /// The matrix with `value` stored at the position, whatever was there.
    pub open spec fn set(self, row: int, column: int, value: T) -> Self {
        CompressedView { entries: self.entries.insert((row, column), value), ..self }
    }

    /// The matrix with only those stored entries that `keep` accepts.
    pub open spec fn retain(self, keep: spec_fn(int, int, T) -> bool) -> Self {
        CompressedView {
            entries: Map::new(
                |p: (int, int)| self.entries.contains_key(p) && keep(p.0, p.1, self.entries[p]),
                |p: (int, int)| self.entries[p],
            ),
            ..self
        }
    }

    /// The matrix cut or extended to the given shape: the stored entries
    /// within the new shape stay, the others are dropped.
    pub open spec fn resize(self, rows: int, columns: int) -> Self {
        CompressedView {
            rows,
            columns,
            format: self.format,
            entries: Map::new(
                |p: (int, int)| self.entries.contains_key(p) && p.0 < rows && p.1 < columns,
                |p: (int, int)| self.entries[p],
            ),
        }
    }

    /// The dense matrix with the same elements: the stored value where one
    /// is stored, zero elsewhere.
    pub open spec fn to_dense(self) -> ConventionalView<T> {
        ConventionalView {
            rows: self.rows,
            columns: self.columns,
            values: Seq::new(
                (self.rows * self.columns) as nat,
                |k: int| self.get(k % self.rows, k / self.rows),
            ),
        }
    }

    /// The compressed-column matrix that stores every element of the dense
    /// matrix that does not count as zero, and nothing else.
    pub open spec fn from_dense(dense: ConventionalView<T>) -> Self {
        CompressedView {
            rows: dense.rows,
            columns: dense.columns,
            format: Format::Column,
            entries: Map::new(
                |p: (int, int)|
                    0 <= p.0 < dense.rows && 0 <= p.1 < dense.columns && !dense.get(
                        p.0,
                        p.1,
                    ).is_zero_spec(),
                |p: (int, int)| dense.get(p.0, p.1),
            ),
        }
    }

    /// The compressed-column matrix of the given shape that stores the
    /// given values along its diagonal, zeros included.
    pub open spec fn from_diagonal(rows: int, columns: int, values: Seq<T>) -> Self {
        CompressedView {
            rows,
            columns,
            format: Format::Column,
            entries: Map::new(
                |p: (int, int)| 0 <= p.0 < values.len() && p.0 == p.1,
                |p: (int, int)| values[p.0],
            ),
        }
    }

    /// The transpose: the shape and the coordinates of every stored entry
    /// are swapped, the format stays.
    pub open spec fn transpose(self) -> Self {
        CompressedView {
            rows: self.columns,
            columns: self.rows,
            format: self.format,
            entries: Map::new(
                |p: (int, int)| self.entries.contains_key((p.1, p.0)),
                |p: (int, int)| self.entries[(p.1, p.0)],
            ),
        }
    }
}

impl<T: Element> CompressedView<T> {
    /// An element that was set reads as the value it was set to, a zero
    /// included, and every other element reads as before.
    pub proof fn lemma_get_after_set(self, row: int, column: int, value: T)
        ensures
            self.set(row, column, value).get(row, column) == value,
            forall|r: int, c: int|
                (r, c) != (row, column) ==> #[trigger] self.set(row, column, value).get(r, c)
                    == self.get(r, c),
    {
    }

    /// The condition that accepts the entries within the given shape.
    pub open spec fn within(rows: int, columns: int) -> spec_fn(int, int, T) -> bool {
        |row: int, column: int, value: T| row < rows && column < columns
    }

    /// A matrix that holds of `self` exactly the entries that `keep`
    /// accepts, with their values, is `self.retain(keep)`.
    pub proof fn lemma_retain_decided(self, after: Self, keep: spec_fn(int, int, T) -> bool)
        requires
            after.rows == self.rows,
            after.columns == self.columns,
            after.format == self.format,
            after.entries.submap_of(self.entries),
            forall|row: int, column: int| #[trigger]
                self.entries.contains_key((row, column)) ==> (after.entries.contains_key(
                    (row, column),
                ) <==> keep(row, column, self.entries[(row, column)])),
        ensures
            after == self.retain(keep),
    {
        assert forall|p: (int, int)| #[trigger]
            after.entries.contains_key(p) <==> self.retain(keep).entries.contains_key(p) by {
            assert(p == (p.0, p.1));
            if after.entries.contains_key(p) {
                assert(after.entries.dom().contains(p));
                assert(self.entries.contains_key((p.0, p.1)));
            }
            if self.retain(keep).entries.contains_key(p) {
                assert(self.entries.contains_key((p.0, p.1)));
            }
        }
        assert forall|p: (int, int)| #[trigger] after.entries.contains_key(p) implies after.entries[p]
            == self.retain(keep).entries[p] by {
            assert(after.entries.dom().contains(p));
        }
        assert(after.entries =~= self.retain(keep).entries);
    }

    /// Resizing is retaining the entries within the new shape, and then
    /// taking the new shape.
    pub proof fn lemma_resize_is_retain(self, rows: int, columns: int)
        ensures
            self.resize(rows, columns) == (CompressedView {
                rows,
                columns,
                ..self.retain(Self::within(rows, columns))
            }),
    {
        assert(self.resize(rows, columns).entries =~= self.retain(
            Self::within(rows, columns),
        ).entries);
    }

    /// Resizing to a shape that is nowhere smaller removes no entry.
    pub proof fn lemma_resize_larger(self, rows: int, columns: int)
        requires
            self.is_valid(),
            self.rows <= rows,
            self.columns <= columns,
        ensures
            self.resize(rows, columns).entries == self.entries,
    {
        assert forall|p: (int, int)| self.entries.contains_key(p) implies p.0 < rows && p.1
            < columns by {
            assert(self.entries.contains_key((p.0, p.1)));
        }
        assert(self.resize(rows, columns).entries =~= self.entries);
    }

    /// The transpose of the transpose is the matrix itself: the same shape,
    /// the same format, and the same values at the same positions.
    pub proof fn lemma_transpose_twice(self)
        ensures
            self.transpose().transpose() == self,
    {
        assert forall|p: (int, int)| self.entries.contains_key(p) implies #[trigger]
            self.transpose().transpose().entries.contains_key(p)
            && self.transpose().transpose().entries[p] == self.entries[p] by {
            assert(p == (p.0, p.1));
        }
        assert forall|p: (int, int)|
            self.transpose().transpose().entries.contains_key(
                p,
            ) implies #[trigger] self.entries.contains_key(p) by {
            assert(p == (p.0, p.1));
        }
        assert(self.transpose().transpose().entries =~= self.entries);
    }

    /// A matrix that stores no zero comes back from the conversion to the
    /// dense storage and from there to the compressed one with the same
    /// entries, in the compressed-column format. A stored zero would be lost
    /// on the way.
    pub proof fn lemma_round_trip(self)
        requires
            self.is_valid(),
            forall|row: int, column: int| #[trigger]
                self.entries.contains_key((row, column)) ==> !self.entries[(
                    row,
                    column,
                )].is_zero_spec(),
        ensures
            Self::from_dense(self.to_dense()) == (CompressedView {
                format: Format::Column,
                ..self
            }),
    {
        T::lemma_zero_is_zero();
        let dense = self.to_dense();
        assert forall|row: int, column: int|
            0 <= row < self.rows && 0 <= column < self.columns implies #[trigger] dense.get(
            row,
            column,
        ) == self.get(row, column) by {
            lemma_flat_index_bounds(row, column, self.rows, self.columns);
            lemma_flat_index_split(row, column, self.rows);
        }
        assert forall|p: (int, int)| #[trigger] self.entries.contains_key(p) implies Self::from_dense(
            dense,
        ).entries.contains_key(p) && Self::from_dense(dense).entries[p] == self.entries[p] by {
            assert(self.entries.contains_key((p.0, p.1)));
            assert(dense.get(p.0, p.1) == self.get(p.0, p.1));
        }
        assert forall|p: (int, int)| #[trigger]
            Self::from_dense(dense).entries.contains_key(p) implies self.entries.contains_key(
            p,
        ) by {
            assert(dense.get(p.0, p.1) == self.get(p.0, p.1));
        }
        assert(Self::from_dense(dense).entries =~= self.entries);
    }
}

impl<T: Number> CompressedView<T> {
    /// The matrix cut or extended to `columns` columns, with every stored
    /// value of column `j` multiplied by `factors[j]`.
    pub open spec fn scale_columns(self, columns: int, factors: Seq<T>) -> Self {
        CompressedView {
            rows: self.rows,
            columns,
            format: self.format,
            entries: Map::new(
                |p: (int, int)| self.entries.contains_key(p) && p.1 < columns,
                |p: (int, int)| self.entries[p].product(factors[p.1]),
            ),
        }
    }

    /// What `start` becomes when the products of the stored elements of row
    /// `row` in the columns before `until` with the elements of column
    /// `column` of `right` are added to it, one by one in the order of the
    /// columns. `right` has as many rows as `self` has columns and is given
    /// in the column-major order.
    pub open spec fn accumulated(
        self,
        right: Seq<T>,
        start: T,
        row: int,
        column: int,
        until: int,
    ) -> T
        decreases until,
    {
        if until <= 0 {
            start
        } else {
            let j = until - 1;
            let before = self.accumulated(right, start, row, column, j);
            let factor = right[flat_index(j, column, self.columns)];
            if self.entries.contains_key((row, j)) {
                before.sum(self.entries[(row, j)].product(factor))
            } else {
                before
            }
        }
    }

    /// Whether every product and every sum that `accumulated` takes is
    /// defined.
    pub open spec fn can_accumulate(
        self,
        right: Seq<T>,
        start: T,
        row: int,
        column: int,
        until: int,
    ) -> bool
        decreases until,
    {
        until <= 0 || {
            let j = until - 1;
            let before = self.accumulated(right, start, row, column, j);
            let factor = right[flat_index(j, column, self.columns)];
            &&& self.can_accumulate(right, start, row, column, j)
            &&& self.entries.contains_key((row, j)) ==> {
                &&& self.entries[(row, j)].can_mul(factor)
                &&& before.can_add(self.entries[(row, j)].product(factor))
            }
        }
    }

    /// Where the whole accumulation is defined, so is every beginning of it.
    pub proof fn lemma_can_accumulate_shorter(
        self,
        right: Seq<T>,
        start: T,
        row: int,
        column: int,
        until: int,
        shorter: int,
    )
        requires
            self.can_accumulate(right, start, row, column, until),
            shorter <= until,
        ensures
            self.can_accumulate(right, start, row, column, shorter),
        decreases until - shorter,
    {
        if shorter < until && until > 0 {
            self.lemma_can_accumulate_shorter(right, start, row, column, until - 1, shorter);
        }
    }
}

} // verus!
