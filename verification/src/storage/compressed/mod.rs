//! The compressed storage.
//!
//! The storage is suitable for generic sparse matrices. Data are stored in one
//! of the following formats:
//!
//! * the compressed-column format or
//! * the compressed-row format.

use vstd::prelude::*;
use crate::element::{count_nonzero, Element};
use crate::matrix::Matrix;
use crate::position::Position;
use crate::size::Size;

pub mod algebra;
pub mod convert;
pub mod iterator;
pub mod layout;
pub mod lemmas;
pub mod view;

pub use iterator::{Iterator, IteratorMut};
pub use view::CompressedView;

use layout::{holds, layout_valid, lower_bound, offsets_shifted, slot, stores};

verus! {

/// A compressed matrix.
#[derive(Clone, Debug, PartialEq)]
pub struct Compressed<T: Element> {
    /// The number of rows.
    pub rows: usize,
    /// The number of columns.
    pub columns: usize,
    /// The number of stored elements, zeros that are stored included.
    pub nonzeros: usize,
    /// The storage format.
    pub format: Format,
    /// The values of the stored elements.
    pub values: Vec<T>,
    /// The indices of rows when `format = Column` or columns when `format =
    /// Row` of the stored elements.
    pub indices: Vec<usize>,
    /// The offsets of columns when `format = Column` or rows when `format =
    /// Row` such that the values and indices of the `i`th column when `format =
    /// Column` or the `i`th row when `format = Row` are stored starting from
    /// `values[j]` and `indices[j]`, respectively, where `j = offsets[i]`. The
    /// vector has one additional element, which is always equal to `nonzeros`.
    pub offsets: Vec<usize>,
}

/// A format of a compressed matrix.
#[derive(Clone, Copy, Debug, Eq, PartialEq)]
pub enum Format {
    /// The compressed-column format.
    Column,
    /// The compressed-row format.
    Row,
}

impl Format {
    /// Return the other format.
    #[inline]
    pub fn flip(&self) -> (other: Self)
        ensures
            other == match *self {
                Format::Column => Format::Row,
                Format::Row => Format::Column,
            },
    {
        match *self {
            Format::Column => Format::Row,
            Format::Row => Format::Column,
        }
    }
}

impl<T: Element> View for Compressed<T> {
    type V = CompressedView<T>;

    open spec fn view(&self) -> CompressedView<T> {
        CompressedView {
            rows: self.rows as int,
            columns: self.columns as int,
            format: self.format,
            entries: Map::new(
                |p: (int, int)| self.contains(p.0, p.1),
                |p: (int, int)| self.values@[self.slot_of(p.0, p.1)],
            ),
        }
    }
}

impl<T: Element> Compressed<T> {
    /// The number of major lines: columns when `format = Column`, rows when
    /// `format = Row`.
    pub open spec fn major_dimension(&self) -> int {
        match self.format {
            Format::Column => self.columns as int,
            Format::Row => self.rows as int,
        }
    }

    /// The length of a major line.
    pub open spec fn minor_dimension(&self) -> int {
        match self.format {
            Format::Column => self.rows as int,
            Format::Row => self.columns as int,
        }
    }

    /// The major line of a position.
    pub open spec fn major_index(&self, row: int, column: int) -> int {
        match self.format {
            Format::Column => column,
            Format::Row => row,
        }
    }

    /// The place of a position on its major line.
    pub open spec fn minor_index(&self, row: int, column: int) -> int {
        match self.format {
            Format::Column => row,
            Format::Row => column,
        }
    }

    /// The invariant of the storage: `values` and `indices` have `nonzeros`
    /// elements each, `offsets` starts at zero, never decreases and ends at
    /// `nonzeros`, with one element more than there are major lines, and the
    /// indices of each major line strictly increase and stay below the
    /// length of the line.
    pub open spec fn is_valid(&self) -> bool {
        &&& self.values@.len() == self.nonzeros
        &&& self.indices@.len() == self.nonzeros
        &&& layout_valid(
            self.indices@,
            self.offsets@,
            self.major_dimension(),
            self.minor_dimension(),
        )
    }

    /// Whether storage position `k` holds the element at the given row and
    /// column.
    pub open spec fn holds_at(&self, k: int, row: int, column: int) -> bool {
        holds(
            self.indices@,
            self.offsets@,
            k,
            self.major_index(row, column),
            self.minor_index(row, column),
        )
    }

    /// Whether an element is stored for the given row and column.
    pub open spec fn contains(&self, row: int, column: int) -> bool {
        stores(
            self.indices@,
            self.offsets@,
            self.major_index(row, column),
            self.minor_index(row, column),
        )
    }

    /// The storage position of the element at the given row and column,
    /// where one is stored.
    pub open spec fn slot_of(&self, row: int, column: int) -> int {
        slot(
            self.indices@,
            self.offsets@,
            self.major_index(row, column),
            self.minor_index(row, column),
        )
    }

    /// The storage position at which the element of the given row and
    /// column stands if it is stored, and at which it would be put if it is
    /// not: the first position of its major line whose index is not smaller.
    pub open spec fn place_of(&self, row: int, column: int) -> int {
        let major = self.major_index(row, column);
        lower_bound(
            self.indices@,
            self.offsets@[major] as int,
            self.offsets@[major + 1] as int,
            self.minor_index(row, column),
        )
    }

    /// Whether `after` has the shape and the format of `self`.
    pub open spec fn same_frame(&self, after: &Self) -> bool {
        &&& after.rows == self.rows
        &&& after.columns == self.columns
        &&& after.format == self.format
    }

    /// Whether `after` is `self` with the value at storage position `k`
    /// replaced by `value`: no index, no offset and no other value differs.
    pub open spec fn overwritten(&self, after: &Self, k: int, value: T) -> bool {
        &&& self.same_frame(after)
        &&& after.nonzeros == self.nonzeros
        &&& after.values@ == self.values@.update(k, value)
        &&& after.indices@ == self.indices@
        &&& after.offsets@ == self.offsets@
    }

    /// Whether `after` is `self` with one more element, stored at position
    /// `k` for the given row and column: the values and indices from `k` on
    /// stand one position later, and exactly the offsets behind the major
    /// line of the new element are greater by one.
    pub open spec fn inserted(
        &self,
        after: &Self,
        k: int,
        row: int,
        column: int,
        value: T,
    ) -> bool {
        &&& self.same_frame(after)
        &&& after.nonzeros == self.nonzeros + 1
        &&& after.values@ == self.values@.insert(k, value)
        &&& after.indices@ == self.indices@.insert(k, self.minor_index(row, column) as usize)
        &&& offsets_shifted(self.offsets@, after.offsets@, self.major_index(row, column), 1)
    }

    /// Whether `after` is `self` without the element at storage position `k`
    /// of major line `major`: the values and indices behind `k` stand one
    /// position earlier, and exactly the offsets behind `major` are smaller
    /// by one.
    pub open spec fn removed(&self, after: &Self, k: int, major: int) -> bool {
        &&& self.same_frame(after)
        &&& after.nonzeros == self.nonzeros - 1
        &&& after.values@ == self.values@.remove(k)
        &&& after.indices@ == self.indices@.remove(k)
        &&& offsets_shifted(self.offsets@, after.offsets@, major, -1)
    }

    /// Create a zero matrix.
    #[inline]
    pub fn new<S: Size>(size: S, format: Format) -> (matrix: Self)
        requires
            match format {
                Format::Column => size.dimensions_spec().1 < usize::MAX,
                Format::Row => size.dimensions_spec().0 < usize::MAX,
            },
        ensures
            matrix.is_valid(),
            matrix@ == CompressedView::<T>::zero(
                size.dimensions_spec().0 as int,
                size.dimensions_spec().1 as int,
                format,
            ),
            matrix.nonzeros == 0,
            matrix.offsets@ == Seq::new((matrix.major_dimension() + 1) as nat, |m: int| 0usize),
    {
        Compressed::with_capacity(size, format, 0)
    }

    /// Create a zero matrix with a specific capacity.
    pub fn with_capacity<S: Size>(size: S, format: Format, capacity: usize) -> (matrix: Self)
        requires
            match format {
                Format::Column => size.dimensions_spec().1 < usize::MAX,
                Format::Row => size.dimensions_spec().0 < usize::MAX,
            },
        ensures
            matrix.is_valid(),
            matrix@ == CompressedView::<T>::zero(
                size.dimensions_spec().0 as int,
                size.dimensions_spec().1 as int,
                format,
            ),
            matrix.nonzeros == 0,
            matrix.offsets@ == Seq::new((matrix.major_dimension() + 1) as nat, |m: int| 0usize),
    {
        let (rows, columns) = size.dimensions();
        let offsets = match format {
            Format::Column => vec![0; columns + 1],
            Format::Row => vec![0; rows + 1],
        };
        let matrix = Compressed {
            rows,
            columns,
            nonzeros: 0,
            format,
            values: Vec::with_capacity(capacity),
            indices: Vec::with_capacity(capacity),
            offsets,
        };
        proof {
            reveal(layout::non_decreasing);
            reveal(layout::slices_increasing);
            assert(matrix.offsets@ =~= Seq::new(
                (matrix.major_dimension() + 1) as nat,
                |m: int| 0usize,
            ));
            assert(matrix@.entries =~= Map::empty());
        }
        matrix
    }

    /// Read an element.
    pub fn get<P: Position>(&self, position: P) -> (value: T)
        requires
            self.is_valid(),
            position.coordinates_spec().0 < self.rows,
            position.coordinates_spec().1 < self.columns,
        ensures
            value == self@.get(
                position.coordinates_spec().0 as int,
                position.coordinates_spec().1 as int,
            ),
    {
        let (row, column) = position.coordinates();
        let (i, j) = match self.format {
            Format::Column => (row, column),
            Format::Row => (column, row),
        };
        let k = self.search(j, i);
        proof {
            self.lemma_found(row as int, column as int);
        }
        if k < self.offsets[j + 1] && self.indices[k] == i {
            proof {
                self.lemma_entry(k as int, row as int, column as int);
            }
            self.values[k]
        } else {
            T::zero()
        }
    }

    /// Assign a value to an element.
    ///
    /// Note that the function treats zero values as any other: a zero that
    /// is assigned is stored.
    pub fn set<P: Position>(&mut self, position: P, value: T)
        requires
            old(self).is_valid(),
            position.coordinates_spec().0 < old(self).rows,
            position.coordinates_spec().1 < old(self).columns,
            old(self).contains(
                position.coordinates_spec().0 as int,
                position.coordinates_spec().1 as int,
            ) || old(self).nonzeros < usize::MAX,
        ensures
            final(self).is_valid(),
            final(self)@ == old(self)@.set(
                position.coordinates_spec().0 as int,
                position.coordinates_spec().1 as int,
                value,
            ),
            ({
                let row = position.coordinates_spec().0 as int;
                let column = position.coordinates_spec().1 as int;
                let k = old(self).place_of(row, column);
                if old(self).contains(row, column) {
                    old(self).overwritten(final(self), k, value)
                } else {
                    old(self).inserted(final(self), k, row, column, value)
                }
            }),
    {
        let (row, column) = position.coordinates();
        let (i, j) = match self.format {
            Format::Column => (row, column),
            Format::Row => (column, row),
        };
        let k = self.search(j, i);
        proof {
            self.lemma_found(row as int, column as int);
        }
        if k < self.offsets[j + 1] && self.indices[k] == i {
            self.values[k] = value;
            proof {
                old(self).lemma_overwritten(self, k as int, row as int, column as int, value);
            }
            return ;
        }
        self.nonzeros += 1;
        self.values.insert(k, value);
        self.indices.insert(k, i);
        proof {
            assert forall|a: int| 0 <= a < self.offsets@.len() implies #[trigger] self.offsets@[a]
                < usize::MAX by {
                layout::lemma_offsets_ordered(self.offsets@, a, self.offsets@.len() - 1);
            }
        }
        raise_offsets(&mut self.offsets, j);
        proof {
            old(self).lemma_inserted(self, row as int, column as int, value);
        }
    }

    /// Resize the matrix.
    ///
    /// The stored elements outside the new shape are dropped, as `retain`
    /// drops them; the others stay as they are. Then the offsets are cut or
    /// extended to the new number of major lines, new lines being empty.
    pub fn resize<S: Size>(&mut self, size: S)
        requires
            old(self).is_valid(),
            match old(self).format {
                Format::Column => size.dimensions_spec().1 < usize::MAX,
                Format::Row => size.dimensions_spec().0 < usize::MAX,
            },
        ensures
            final(self).is_valid(),
            final(self)@ == old(self)@.resize(
                size.dimensions_spec().0 as int,
                size.dimensions_spec().1 as int,
            ),
            size.dimensions_spec().0 >= old(self).rows && size.dimensions_spec().1 >= old(
                self,
            ).columns ==> {
                &&& final(self).nonzeros == old(self).nonzeros
                &&& final(self).values@ == old(self).values@
                &&& final(self).indices@ == old(self).indices@
                &&& final(self).offsets@ == old(self).offsets@ + Seq::new(
                    (final(self).major_dimension() - old(self).major_dimension()) as nat,
                    |m: int| old(self).nonzeros,
                )
            },
    {
        let (rows, columns) = size.dimensions();
        if rows < self.rows || columns < self.columns {
            self.retain(
                |i: usize, j: usize, _value: &T| -> (keep: bool)
                    ensures
                        keep == inside(i, j, rows, columns)
                    { lies_inside(i, j, rows, columns) },
            );
        }
        let ghost kept = *self;
        proof {
            let wanted = old(self)@.resize(rows as int, columns as int);
            old(self).lemma_view_valid();
            if rows < old(self).rows || columns < old(self).columns {
                assert forall|row: int, column: int| #[trigger]
                    old(self)@.entries.contains_key((row, column)) implies (
                kept@.entries.contains_key((row, column)) <==> row < rows && column < columns) by {
                    assert(inside(row as usize, column as usize, rows, columns) == (row < rows
                        && column < columns));
                }
                old(self)@.lemma_retain_decided(
                    kept@,
                    CompressedView::<T>::within(rows as int, columns as int),
                );
                old(self)@.lemma_resize_is_retain(rows as int, columns as int);
            } else {
                old(self)@.lemma_resize_larger(rows as int, columns as int);
            }
            assert(kept@.entries == wanted.entries);
            assert forall|row: int, column: int| #[trigger]
                kept@.entries.contains_key((row, column)) implies row < rows && column
                < columns by {
                assert(wanted.entries.contains_key((row, column)));
            }
        }
        let (from, into) = match self.format {
            Format::Column => (self.columns, columns),
            Format::Row => (self.rows, rows),
        };
        if from > into {
            self.offsets.truncate(into + 1);
        } else {
            let mut m = from;
            while m < into
                invariant
                    from <= m <= into < usize::MAX,
                    self.nonzeros == kept.nonzeros,
                    self.format == kept.format,
                    self.values@ == kept.values@,
                    self.indices@ == kept.indices@,
                    self.offsets@ == kept.offsets@ + Seq::new(
                        (m - from) as nat,
                        |a: int| kept.nonzeros,
                    ),
                decreases into - m,
            {
                self.offsets.push(self.nonzeros);
                m += 1;
                proof {
                    assert(self.offsets@ =~= kept.offsets@ + Seq::new(
                        (m - from) as nat,
                        |a: int| kept.nonzeros,
                    ));
                }
            }
        }
        self.columns = columns;
        self.rows = rows;
        proof {
            kept.lemma_reframed(self);
        }
    }

    /// Retain the elements that satisfy a condition and discard the rest.
    ///
    /// The condition is given the row, the column and the value of each
    /// stored element. What it answers for an element decides whether the
    /// element stays; the elements that stay keep their values and their
    /// order.
    pub fn retain<F>(&mut self, mut condition: F) where F: FnMut(usize, usize, &T) -> bool
        requires
            old(self).is_valid(),
            forall|row: int, column: int| #[trigger]
                old(self)@.entries.contains_key((row, column)) ==> call_requires(
                    condition,
                    (row as usize, column as usize, &old(self)@.entries[(row, column)]),
                ),
        ensures
            final(self).is_valid(),
            old(self).same_frame(final(self)),
            final(self)@.entries.submap_of(old(self)@.entries),
            forall|row: int, column: int| #[trigger]
                old(self)@.entries.contains_key((row, column)) ==> call_ensures(
                    condition,
                    (row as usize, column as usize, &old(self)@.entries[(row, column)]),
                    final(self)@.entries.contains_key((row, column)),
                ),
    {
        let ghost given = condition;
        let mut k: usize = 0;
        let mut major: usize = 0;
        while k < self.indices.len()
            invariant
                condition == given,
                self.is_valid(),
                old(self).is_valid(),
                old(self).same_frame(self),
                k <= self.nonzeros,
                major <= self.major_dimension(),
                self.offsets@[major as int] <= k,
                forall|row: int, column: int| #[trigger]
                    self@.entries.contains_key((row, column)) ==> old(self)@.entries.contains_key(
                        (row, column),
                    ) && old(self)@.entries[(row, column)] == self@.entries[(row, column)],
                forall|row: int, column: int| #[trigger]
                    old(self)@.entries.contains_key((row, column)) ==> call_requires(
                        condition,
                        (row as usize, column as usize, &old(self)@.entries[(row, column)]),
                    ),
                forall|row: int, column: int| #[trigger]
                    old(self)@.entries.contains_key((row, column)) && !self@.entries.contains_key(
                        (row, column),
                    ) ==> call_ensures(
                        condition,
                        (row as usize, column as usize, &old(self)@.entries[(row, column)]),
                        false,
                    ),
                forall|x: int, row: int, column: int| #[trigger]
                    self.holds_at(x, row, column) && x < k ==> call_ensures(
                        condition,
                        (row as usize, column as usize, &self.values@[x]),
                        true,
                    ),
            decreases self.nonzeros - k,
        {
            while self.offsets[major + 1] <= k
                invariant
                    self.is_valid(),
                    k < self.nonzeros,
                    major <= self.major_dimension(),
                    self.offsets@[major as int] <= k,
                decreases self.major_dimension() - major,
            {
                major += 1;
            }
            let minor = self.indices[k];
            let (row, column) = match self.format {
                Format::Column => (minor, major),
                Format::Row => (major, minor),
            };
            proof {
                assert(self.holds_at(k as int, row as int, column as int));
                self.lemma_entry(k as int, row as int, column as int);
                assert(old(self)@.entries.contains_key((row as int, column as int)));
                assert(old(self)@.entries[(row as int, column as int)] == self.values@[k as int]);
            }
            let keep = condition(row, column, &self.values[k]);
            if keep {
                proof {
                    assert forall|x: int, r: int, c: int| #[trigger]
                        self.holds_at(x, r, c) && x < k + 1 implies call_ensures(
                        condition,
                        (r as usize, c as usize, &self.values@[x]),
                        true,
                    ) by {
                        if x == k {
                            self.lemma_position_once(k as int, row as int, column as int, r, c);
                        }
                    }
                }
                k += 1;
            } else {
                let ghost before = *self;
                self.nonzeros -= 1;
                self.values.remove(k);
                self.indices.remove(k);
                proof {
                    assert forall|a: int| major < a < self.offsets@.len() implies #[trigger]
                        self.offsets@[a] > 0 by {
                        layout::lemma_offsets_ordered(self.offsets@, major + 1, a);
                    }
                }
                lower_offsets(&mut self.offsets, major);
                proof {
                    before.lemma_removed(self, k as int, row as int, column as int);
                    assert forall|r: int, c: int| #[trigger]
                        self@.entries.contains_key((r, c)) implies old(self)@.entries.contains_key(
                        (r, c),
                    ) && old(self)@.entries[(r, c)] == self@.entries[(r, c)] by {
                        assert(before@.entries.contains_key((r, c)));
                    }
                    assert forall|r: int, c: int| #[trigger]
                        old(self)@.entries.contains_key((r, c)) && !self@.entries.contains_key(
                            (r, c),
                        ) implies call_ensures(
                        condition,
                        (r as usize, c as usize, &old(self)@.entries[(r, c)]),
                        false,
                    ) by {
                        if before@.entries.contains_key((r, c)) {
                            assert((r, c) == (row as int, column as int));
                        }
                    }
                    assert forall|x: int, r: int, c: int| #[trigger]
                        self.holds_at(x, r, c) && x < k implies call_ensures(
                        condition,
                        (r as usize, c as usize, &self.values@[x]),
                        true,
                    ) by {
                        assert(before.holds_at(x, r, c));
                    }
                }
            }
        }
        proof {
            assert forall|row: int, column: int| #[trigger]
                old(self)@.entries.contains_key((row, column)) implies call_ensures(
                condition,
                (row as usize, column as usize, &old(self)@.entries[(row, column)]),
                self@.entries.contains_key((row, column)),
            ) by {
                if self@.entries.contains_key((row, column)) {
                    self.lemma_slot(row, column);
                    let x = self.slot_of(row, column);
                    self.lemma_entry(x, row, column);
                    assert(self.holds_at(x, row, column) && x < k);
                }
            }
            assert(self@.entries.submap_of(old(self)@.entries)) by {
                assert forall|p: (int, int)| #[trigger]
                    self@.entries.dom().contains(p) implies old(self)@.entries.dom().contains(p)
                    && self@.entries[p] == old(self)@.entries[p] by {
                    assert(self@.entries.contains_key((p.0, p.1)));
                }
            }
        }
    }

    /// Check the invariant of the storage.
    ///
    /// The fields are public, so a matrix can be put together by hand; every
    /// other function takes a valid matrix for granted.
    pub fn validate(&self) -> (valid: bool)
        ensures
            valid == self.is_valid(),
    {
        let (major, minor) = match self.format {
            Format::Column => (self.columns, self.rows),
            Format::Row => (self.rows, self.columns),
        };
        if self.values.len() != self.nonzeros || self.indices.len() != self.nonzeros {
            return false;
        }
        if major == usize::MAX {
            proof {
                assert(self.offsets.len() <= usize::MAX);
            }
            return false;
        }
        if self.offsets.len() != major + 1 {
            return false;
        }
        if self.offsets[0] != 0 || self.offsets[major] != self.nonzeros {
            return false;
        }
        let mut m: usize = 0;
        while m < major
            invariant
                major == self.major_dimension(),
                minor == self.minor_dimension(),
                self.indices@.len() == self.nonzeros,
                self.offsets@.len() == major + 1,
                m <= major,
                forall|a: int|
                    0 <= a < m ==> #[trigger] self.offsets@[a] <= self.offsets@[a + 1]
                        <= self.nonzeros,
                forall|a: int, k: int|
                    #![trigger self.offsets@[a], self.indices@[k]]
                    0 <= a < m && self.offsets@[a] <= k < self.offsets@[a + 1]
                        ==> self.indices@[k] < minor,
                forall|a: int, k: int|
                    #![trigger self.offsets@[a], self.indices@[k]]
                    0 <= a < m && self.offsets@[a] <= k && k + 1 < self.offsets@[a + 1]
                        ==> self.indices@[k] < self.indices@[k + 1],
            decreases major - m,
        {
            let from = self.offsets[m];
            let until = self.offsets[m + 1];
            if from > until || until > self.nonzeros {
                proof {
                    if self.is_valid() {
                        layout::lemma_slice_bounds(
                            self.offsets@,
                            major as int,
                            self.nonzeros as int,
                            m as int,
                        );
                    }
                }
                return false;
            }
            let mut k = from;
            while k < until
                invariant
                    major == self.major_dimension(),
                    minor == self.minor_dimension(),
                    self.indices@.len() == self.nonzeros,
                    self.offsets@.len() == major + 1,
                    m < major,
                    from == self.offsets@[m as int],
                    until == self.offsets@[m + 1],
                    from <= k <= until <= self.nonzeros,
                    forall|x: int| from <= x < k ==> #[trigger] self.indices@[x] < minor,
                    forall|x: int|
                        from <= x < k && x + 1 < until ==> #[trigger] self.indices@[x]
                            < self.indices@[x + 1],
                decreases until - k,
            {
                if self.indices[k] >= minor {
                    return false;
                }
                if k + 1 < until && self.indices[k] >= self.indices[k + 1] {
                    proof {
                        if self.is_valid() {
                            layout::lemma_slice_increasing(
                                self.indices@,
                                self.offsets@,
                                m as int,
                                k as int,
                                k + 1,
                            );
                        }
                    }
                    return false;
                }
                k += 1;
            }
            m += 1;
        }
        proof {
            layout::lemma_non_decreasing_by_steps(self.offsets@);
            layout::lemma_slices_increasing_by_steps(self.indices@, self.offsets@);
            assert forall|k: int| 0 <= k < self.indices@.len() implies #[trigger] self.indices@[k]
                < minor by {
                layout::lemma_line_exists(self.offsets@, major as int, self.nonzeros as int, k);
                let a = choose|a: int|
                    0 <= a < major && #[trigger] self.offsets@[a] <= k < self.offsets@[a + 1];
                assert(self.offsets@[a] <= k < self.offsets@[a + 1]);
            }
        }
        true
    }

    /// Find where the entry with minor index `minor` stands, or would have
    /// to stand, in the slice of major line `major`.
    fn search(&self, major: usize, minor: usize) -> (k: usize)
        requires
            self.is_valid(),
            major < self.major_dimension(),
        ensures
            k == lower_bound(
                self.indices@,
                self.offsets@[major as int] as int,
                self.offsets@[major + 1] as int,
                minor as int,
            ),
            self.offsets@[major as int] <= k <= self.offsets@[major + 1] <= self.nonzeros,
    {
        let until = self.offsets[major + 1];
        let mut k = self.offsets[major];
        proof {
            layout::lemma_slice_bounds(
                self.offsets@,
                self.major_dimension(),
                self.nonzeros as int,
                major as int,
            );
        }
        while k < until && self.indices[k] < minor
            invariant
                self.indices@.len() == self.nonzeros,
                self.offsets@[major as int] <= k <= until <= self.nonzeros,
                lower_bound(self.indices@, k as int, until as int, minor as int) == lower_bound(
                    self.indices@,
                    self.offsets@[major as int] as int,
                    until as int,
                    minor as int,
                ),
            decreases until - k,
        {
            k += 1;
        }
        k
    }
}

/// The size of a matrix is its number of rows and its number of columns.
impl<T: Element> Size for Compressed<T> {
    open spec fn dimensions_spec(&self) -> (usize, usize) {
        (self.rows, self.columns)
    }

    #[inline]
    fn dimensions(&self) -> (shape: (usize, usize)) {
        (self.rows, self.columns)
    }
}

impl<T: Element> Matrix for Compressed<T> {
    type Element = T;

    open spec fn shape(&self) -> (usize, usize) {
        (self.rows, self.columns)
    }

    open spec fn well_formed(&self) -> bool {
        self.is_valid()
    }

    /// The offsets of a matrix and of its transpose must have room for one
    /// element more than there are rows or columns.
    open spec fn storable(rows: usize, columns: usize) -> bool {
        rows < usize::MAX && columns < usize::MAX
    }

    open spec fn element(&self, row: int, column: int) -> T {
        self@.get(row, column)
    }

    open spec fn nonzero_count(&self) -> nat {
        count_nonzero(self.values@)
    }

    #[inline]
    fn rows(&self) -> (rows: usize) {
        self.rows
    }

    #[inline]
    fn columns(&self) -> (columns: usize) {
        self.columns
    }

    /// Count the stored values that do not count as zero. The field
    /// `nonzeros` counts all stored values instead.
    fn nonzeros(&self) -> (count: usize)
        ensures
            count == count_nonzero(self.values@),
            count <= self.values@.len(),
    {
        let mut count: usize = 0;
        let mut k: usize = 0;
        while k < self.values.len()
            invariant
                k <= self.values@.len(),
                count <= k,
                count == count_nonzero(self.values@.subrange(0, k as int)),
            decreases self.values@.len() - k,
        {
            proof {
                assert(self.values@.subrange(0, k + 1).drop_last() =~= self.values@.subrange(
                    0,
                    k as int,
                ));
            }
            if !self.values[k].is_zero() {
                count += 1;
            }
            k += 1;
        }
        proof {
            assert(self.values@.subrange(0, k as int) =~= self.values@);
        }
        count
    }

    /// Build the transpose by assigning every stored element to the
    /// swapped position of a matrix with the swapped shape.
    fn transpose(&self) -> (other: Self)
        ensures
            other.is_valid(),
            other@ == self@.transpose(),
    {
        let mut matrix = Compressed::with_capacity(
            (self.columns, self.rows),
            self.format,
            self.nonzeros,
        );
        let mut iterator = self.iter();
        loop
            invariant_except_break
                iterator.matrix() == *self,
                0 <= iterator.taken() <= self.nonzeros,
            invariant
                self.is_valid(),
                matrix.is_valid(),
                matrix.rows == self.columns,
                matrix.columns == self.rows,
                matrix.format == self.format,
                matrix.nonzeros <= iterator.taken(),
                forall|x: int, row: int, column: int| #[trigger]
                    self.holds_at(x, row, column) && x < iterator.taken()
                        ==> matrix@.entries.contains_key((column, row)) && matrix@.entries[(
                        column,
                        row,
                    )] == self.values@[x],
                forall|row: int, column: int| #[trigger]
                    matrix@.entries.contains_key((column, row)) ==> self@.entries.contains_key(
                        (row, column),
                    ) && matrix@.entries[(column, row)] == self@.entries[(row, column)],
            ensures
                iterator.taken() == self.nonzeros,
            decreases self.nonzeros - iterator.taken(),
        {
            let ghost k = iterator.taken();
            let ghost before = matrix;
            match iterator.next() {
                Some((i, j, value)) => {
                    proof {
                        self.lemma_entry(k, i as int, j as int);
                    }
                    matrix.set((j, i), *value);
                    proof {
                        assert forall|x: int, row: int, column: int| #[trigger]
                            self.holds_at(x, row, column) && x < k
                                + 1 implies matrix@.entries.contains_key((column, row))
                            && matrix@.entries[(column, row)] == self.values@[x] by {
                            if x == k {
                                self.lemma_position_once(k, i as int, j as int, row, column);
                            } else {
                                assert(before@.entries.contains_key((column, row)));
                                if (column, row) == (j as int, i as int) {
                                    layout::lemma_held_once(
                                        self.indices@,
                                        self.offsets@,
                                        self.major_dimension(),
                                        self.minor_dimension(),
                                        x,
                                        k,
                                        self.major_index(row, column),
                                        self.minor_index(row, column),
                                    );
                                }
                            }
                        }
                    }
                },
                None => {
                    break ;
                },
            }
        }
        proof {
            assert forall|p: (int, int)| #[trigger]
                self@.transpose().entries.contains_key(p) implies matrix@.entries.contains_key(
                p,
            ) by {
                self.lemma_slot(p.1, p.0);
                let x = self.slot_of(p.1, p.0);
                self.lemma_entry(x, p.1, p.0);
                assert(self.holds_at(x, p.1, p.0) && x < iterator.taken());
            }
            assert forall|p: (int, int)| #[trigger]
                matrix@.entries.contains_key(p) implies self@.transpose().entries.contains_key(p)
                && matrix@.entries[p] == self@.transpose().entries[p] by {
                assert(matrix@.entries.contains_key((p.0, p.1)));
            }
            assert(matrix@.entries =~= self@.transpose().entries);
        }
        matrix
    }

    /// The zero matrix is stored in the compressed-column format.
    #[inline]
    fn zero<S: Size>(size: S) -> (matrix: Self)
        ensures
            matrix@ == CompressedView::<T>::zero(
                size.dimensions_spec().0 as int,
                size.dimensions_spec().1 as int,
                Format::Column,
            ),
    {
        Compressed::new(size, Format::Column)
    }
}

/// Whether the position lies within the shape.
pub open spec fn inside(row: usize, column: usize, rows: usize, columns: usize) -> bool {
    row < rows && column < columns
}

/// Tell whether the position lies within the shape.
fn lies_inside(row: usize, column: usize, rows: usize, columns: usize) -> (answer: bool)
    ensures
        answer == inside(row, column, rows, columns),
{
    row < rows && column < columns
}

/// Add one to every offset behind major line `major`.
fn raise_offsets(offsets: &mut Vec<usize>, major: usize)
    requires
        major < old(offsets)@.len(),
        forall|a: int| 0 <= a < old(offsets)@.len() ==> #[trigger] old(offsets)@[a] < usize::MAX,
    ensures
        offsets_shifted(old(offsets)@, final(offsets)@, major as int, 1),
{
    let length = offsets.len();
    let mut m: usize = major + 1;
    while m < length
        invariant
            major < m,
            length == offsets@.len(),
            offsets@.len() == old(offsets)@.len(),
            forall|a: int|
                0 <= a < old(offsets)@.len() ==> #[trigger] old(offsets)@[a] < usize::MAX,
            forall|a: int|
                0 <= a < m ==> #[trigger] offsets@[a] == old(offsets)@[a] + if a > major {
                    1int
                } else {
                    0int
                },
            forall|a: int| m <= a < offsets@.len() ==> #[trigger] offsets@[a] == old(offsets)@[a],
        decreases offsets@.len() - m,
    {
        offsets[m] += 1;
        m += 1;
    }
}

/// Take one from every offset behind major line `major`.
fn lower_offsets(offsets: &mut Vec<usize>, major: usize)
    requires
        major < old(offsets)@.len(),
        forall|a: int| major < a < old(offsets)@.len() ==> #[trigger] old(offsets)@[a] > 0,
    ensures
        offsets_shifted(old(offsets)@, final(offsets)@, major as int, -1),
{
    let length = offsets.len();
    let mut m: usize = major + 1;
    while m < length
        invariant
            major < m,
            length == offsets@.len(),
            offsets@.len() == old(offsets)@.len(),
            forall|a: int| major < a < old(offsets)@.len() ==> #[trigger] old(offsets)@[a] > 0,
            forall|a: int|
                0 <= a < m ==> #[trigger] offsets@[a] == old(offsets)@[a] + if a > major {
                    -1int
                } else {
                    0int
                },
            forall|a: int| m <= a < offsets@.len() ==> #[trigger] offsets@[a] == old(offsets)@[a],
        decreases offsets@.len() - m,
    {
        offsets[m] -= 1;
        m += 1;
    }
}

} // verus!
