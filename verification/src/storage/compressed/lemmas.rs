//! What holds of every valid compressed matrix, and what the changes of the
//! storage do to the view.

use vstd::prelude::*;
use crate::element::Element;
use crate::storage::compressed::layout;
use crate::storage::compressed::layout::{is_insertion, is_removal, lower_bound, stores};
use crate::storage::compressed::{Compressed, CompressedView, Format};

verus! {

impl<T: Element> Compressed<T> {
    /// What the invariant says of the layout, written out: the offsets
    /// start at zero, end at `nonzeros` and never decrease, and within the
    /// slice of each major line the indices strictly increase.
    pub proof fn lemma_layout(&self)
        requires
            self.is_valid(),
        ensures
            self.offsets@[0] == 0,
            self.offsets@[self.offsets@.len() - 1] == self.nonzeros,
            forall|a: int, b: int|
                0 <= a <= b < self.offsets@.len() ==> #[trigger] self.offsets@[a]
                    <= #[trigger] self.offsets@[b],
            forall|m: int, a: int, b: int|
                #![trigger self.offsets@[m], self.indices@[a], self.indices@[b]]
                0 <= m < self.offsets@.len() - 1 && self.offsets@[m] <= a < b < self.offsets@[m
                    + 1] ==> self.indices@[a] < self.indices@[b],
    {
        reveal(layout::non_decreasing);
        reveal(layout::slices_increasing);
    }

    /// Two valid matrices with the same view have the same storage: the
    /// view, which the contracts of this module speak of, leaves nothing of
    /// the three vectors open.
    pub proof fn lemma_storage_determined(&self, other: &Self)
        requires
            self.is_valid(),
            other.is_valid(),
            self@ == other@,
        ensures
            self.nonzeros == other.nonzeros,
            self.values@ == other.values@,
            self.indices@ == other.indices@,
            self.offsets@ == other.offsets@,
    {
        assert forall|m: int, i: int|
            #![trigger stores(self.indices@, self.offsets@, m, i)]
            #![trigger stores(other.indices@, other.offsets@, m, i)]
            stores(self.indices@, self.offsets@, m, i) <==> stores(
                other.indices@,
                other.offsets@,
                m,
                i,
            ) by {
            let (row, column) = match self.format {
                Format::Column => (i, m),
                Format::Row => (m, i),
            };
            assert(self.contains(row, column) == self@.entries.contains_key((row, column)));
            assert(other.contains(row, column) == other@.entries.contains_key((row, column)));
        }
        layout::lemma_same_layout(
            self.indices@,
            self.offsets@,
            other.indices@,
            other.offsets@,
            self.major_dimension(),
            self.minor_dimension(),
        );
        assert forall|k: int| 0 <= k < self.nonzeros implies self.values@[k]
            == other.values@[k] by {
            self.lemma_held_somewhere(k);
            let (row, column) = choose|row: int, column: int| #[trigger]
                self.holds_at(k, row, column);
            self.lemma_entry(k, row, column);
            assert(other.holds_at(k, row, column));
            other.lemma_entry(k, row, column);
        }
        assert(self.values@ =~= other.values@);
    }

    /// What is held at a storage position is an entry of the view.
    pub proof fn lemma_entry(&self, k: int, row: int, column: int)
        requires
            self.is_valid(),
            self.holds_at(k, row, column),
        ensures
            self@.entries.contains_key((row, column)),
            self@.entries[(row, column)] == self.values@[k],
            0 <= k < self.nonzeros,
            0 <= row < self.rows,
            0 <= column < self.columns,
    {
        let major = self.major_index(row, column);
        let minor = self.minor_index(row, column);
        layout::lemma_slice_bounds(
            self.offsets@,
            self.major_dimension(),
            self.nonzeros as int,
            major,
        );
        assert(self.contains(row, column));
        layout::lemma_held_once(
            self.indices@,
            self.offsets@,
            self.major_dimension(),
            self.minor_dimension(),
            k,
            self.slot_of(row, column),
            major,
            minor,
        );
    }

    /// Every entry of the view is held at the storage position that
    /// `slot_of` names.
    pub proof fn lemma_slot(&self, row: int, column: int)
        requires
            self.is_valid(),
            self@.entries.contains_key((row, column)),
        ensures
            self.holds_at(self.slot_of(row, column), row, column),
            self@.entries[(row, column)] == self.values@[self.slot_of(row, column)],
    {
    }

    /// The view of a valid matrix is valid.
    pub proof fn lemma_view_valid(&self)
        requires
            self.is_valid(),
        ensures
            self@.is_valid(),
    {
        assert forall|row: int, column: int| #[trigger]
            self@.entries.contains_key((row, column)) implies 0 <= row < self.rows && 0 <= column
            < self.columns by {
            self.lemma_slot(row, column);
            self.lemma_entry(self.slot_of(row, column), row, column);
        }
    }

    /// Every stored element lies in a row and a column of the matrix that
    /// it is held for.
    pub proof fn lemma_held_somewhere(&self, k: int)
        requires
            self.is_valid(),
            0 <= k < self.nonzeros,
        ensures
            exists|row: int, column: int| #[trigger] self.holds_at(k, row, column),
    {
        layout::lemma_line_exists(
            self.offsets@,
            self.major_dimension(),
            self.nonzeros as int,
            k,
        );
        let m = choose|m: int|
            0 <= m < self.major_dimension() && #[trigger] self.offsets@[m] <= k < self.offsets@[m
                + 1];
        let i = self.indices@[k] as int;
        match self.format {
            Format::Column => {
                assert(self.holds_at(k, i, m));
            },
            Format::Row => {
                assert(self.holds_at(k, m, i));
            },
        }
    }

    /// Each storage position holds the element of one row and column only.
    pub proof fn lemma_position_once(&self, k: int, row: int, column: int, r: int, c: int)
        requires
            self.is_valid(),
            self.holds_at(k, row, column),
            self.holds_at(k, r, c),
        ensures
            row == r,
            column == c,
    {
        layout::lemma_holds_once(
            self.indices@,
            self.offsets@,
            self.major_dimension(),
            self.minor_dimension(),
            k,
            self.major_index(row, column),
            self.minor_index(row, column),
            self.major_index(r, c),
            self.minor_index(r, c),
        );
    }

    /// The storage order: of two stored elements, the one on the earlier
    /// major line stands first, and of two on one line the one with the
    /// smaller index.
    pub proof fn lemma_storage_order(
        &self,
        k: int,
        row: int,
        column: int,
        later: int,
        later_row: int,
        later_column: int,
    )
        requires
            self.is_valid(),
            self.holds_at(k, row, column),
            self.holds_at(later, later_row, later_column),
            k < later,
        ensures
            self.major_index(row, column) < self.major_index(later_row, later_column) || (
            self.major_index(row, column) == self.major_index(later_row, later_column)
                && self.minor_index(row, column) < self.minor_index(later_row, later_column)),
    {
        layout::lemma_storage_order(
            self.indices@,
            self.offsets@,
            self.major_dimension(),
            self.minor_dimension(),
            k,
            self.major_index(row, column),
            self.minor_index(row, column),
            later,
            self.major_index(later_row, later_column),
            self.minor_index(later_row, later_column),
        );
    }

    /// Whether the slice of major line `major` has an entry with minor index
    /// `minor` is decided at the lower bound of `minor` in the slice.
    pub proof fn lemma_found(&self, row: int, column: int)
        requires
            self.is_valid(),
            0 <= row < self.rows,
            0 <= column < self.columns,
        ensures
            ({
                let major = self.major_index(row, column);
                let minor = self.minor_index(row, column);
                let from = self.offsets@[major] as int;
                let until = self.offsets@[major + 1] as int;
                let k = lower_bound(self.indices@, from, until, minor);
                &&& from <= k <= until <= self.nonzeros
                &&& self.contains(row, column) <==> k < until && self.indices@[k] == minor
                &&& self.contains(row, column) ==> self.slot_of(row, column) == k
            }),
    {
        let major = self.major_index(row, column);
        let minor = self.minor_index(row, column);
        let from = self.offsets@[major] as int;
        let until = self.offsets@[major + 1] as int;
        let k = lower_bound(self.indices@, from, until, minor);
        layout::lemma_slice_bounds(
            self.offsets@,
            self.major_dimension(),
            self.nonzeros as int,
            major,
        );
        layout::lemma_lower_bound(self.indices@, from, until, minor);
        if k < until && self.indices@[k] == minor {
            assert(self.holds_at(k, row, column));
        }
        if self.contains(row, column) {
            let held = self.slot_of(row, column);
            assert(self.holds_at(held, row, column));
            if held < k {
                assert(self.indices@[held] < minor);
            }
            if held > k {
                layout::lemma_slice_increasing(self.indices@, self.offsets@, major, k, held);
            }
        }
    }

    /// Overwriting the value at a storage position keeps the matrix valid
    /// and sets the element there.
    pub proof fn lemma_overwritten(&self, after: &Self, k: int, row: int, column: int, value: T)
        requires
            self.is_valid(),
            self.holds_at(k, row, column),
            self.overwritten(after, k, value),
        ensures
            after.is_valid(),
            after@ == self@.set(row, column, value),
    {
        self.lemma_entry(k, row, column);
        assert(after.holds_at(k, row, column));
        after.lemma_entry(k, row, column);
        assert forall|p: (int, int)| #[trigger]
            after@.entries.contains_key(p) && p != (row, column) implies after@.entries[p]
            == self@.entries[p] by {
            let x = after.slot_of(p.0, p.1);
            assert(self.holds_at(x, p.0, p.1));
            self.lemma_entry(x, p.0, p.1);
            if x == k {
                layout::lemma_holds_once(
                    self.indices@,
                    self.offsets@,
                    self.major_dimension(),
                    self.minor_dimension(),
                    k,
                    self.major_index(row, column),
                    self.minor_index(row, column),
                    self.major_index(p.0, p.1),
                    self.minor_index(p.0, p.1),
                );
            }
        }
        assert(after@.entries =~= self@.entries.insert((row, column), value));
    }

    /// Inserting an element at its place keeps the matrix valid and sets
    /// the element.
    pub proof fn lemma_inserted(&self, after: &Self, row: int, column: int, value: T)
        requires
            self.is_valid(),
            0 <= row < self.rows,
            0 <= column < self.columns,
            !self.contains(row, column),
            self.inserted(after, self.place_of(row, column), row, column, value),
        ensures
            after.is_valid(),
            after@ == self@.set(row, column, value),
    {
        let k = self.place_of(row, column);
        let major = self.major_index(row, column);
        let minor = self.minor_index(row, column);
        let major_dimension = self.major_dimension();
        let minor_dimension = self.minor_dimension();
        self.lemma_found(row, column);
        layout::lemma_lower_bound(
            self.indices@,
            self.offsets@[major] as int,
            self.offsets@[major + 1] as int,
            minor,
        );
        layout::lemma_slice_bounds(self.offsets@, major_dimension, self.nonzeros as int, major);
        assert(is_insertion(
            self.indices@,
            self.offsets@,
            after.indices@,
            after.offsets@,
            k,
            major,
            minor,
        ));
        layout::lemma_insertion_valid(
            self.indices@,
            self.offsets@,
            after.indices@,
            after.offsets@,
            major_dimension,
            minor_dimension,
            k,
            major,
            minor,
        );
        assert(after.holds_at(k, row, column));
        after.lemma_entry(k, row, column);
        assert forall|p: (int, int)| #[trigger] self@.entries.contains_key(p) implies p != (
            row,
            column,
        ) && after@.entries.contains_key(p) && after@.entries[p] == self@.entries[p] by {
            let x = self.slot_of(p.0, p.1);
            self.lemma_entry(x, p.0, p.1);
            layout::lemma_insertion_keeps(
                self.indices@,
                self.offsets@,
                after.indices@,
                after.offsets@,
                major_dimension,
                minor_dimension,
                k,
                major,
                minor,
                x,
                self.major_index(p.0, p.1),
                self.minor_index(p.0, p.1),
            );
            after.lemma_entry(if x < k { x } else { x + 1 }, p.0, p.1);
        }
        assert forall|p: (int, int)| #[trigger]
            after@.entries.contains_key(p) && p != (row, column) implies self@.entries.contains_key(
            p,
        ) by {
            let x = after.slot_of(p.0, p.1);
            layout::lemma_insertion_adds_one(
                self.indices@,
                self.offsets@,
                after.indices@,
                after.offsets@,
                major_dimension,
                minor_dimension,
                k,
                major,
                minor,
                x,
                self.major_index(p.0, p.1),
                self.minor_index(p.0, p.1),
            );
            if x < k {
                self.lemma_entry(x, p.0, p.1);
            } else if x > k {
                self.lemma_entry(x - 1, p.0, p.1);
            }
        }
        assert(after@.entries =~= self@.entries.insert((row, column), value));
    }

    /// Removing the element at a storage position keeps the matrix valid
    /// and drops that element from the view, and nothing else.
    pub proof fn lemma_removed(&self, after: &Self, k: int, row: int, column: int)
        requires
            self.is_valid(),
            self.holds_at(k, row, column),
            self.removed(after, k, self.major_index(row, column)),
        ensures
            after.is_valid(),
            after@ == (CompressedView { entries: self@.entries.remove((row, column)), ..self@ }),
            forall|x: int, r: int, c: int| #[trigger]
                self.holds_at(x, r, c) && x != k ==> after.holds_at(
                    if x < k {
                        x
                    } else {
                        x - 1
                    },
                    r,
                    c,
                ),
            forall|x: int, r: int, c: int| #[trigger]
                after.holds_at(x, r, c) ==> self.holds_at(
                    if x < k {
                        x
                    } else {
                        x + 1
                    },
                    r,
                    c,
                ),
    {
        let major = self.major_index(row, column);
        let major_dimension = self.major_dimension();
        let minor_dimension = self.minor_dimension();
        self.lemma_entry(k, row, column);
        layout::lemma_slice_bounds(self.offsets@, major_dimension, self.nonzeros as int, major);
        assert(is_removal(self.indices@, self.offsets@, after.indices@, after.offsets@, k, major));
        layout::lemma_removal_valid(
            self.indices@,
            self.offsets@,
            after.indices@,
            after.offsets@,
            major_dimension,
            minor_dimension,
            k,
            major,
        );
        assert forall|x: int, r: int, c: int| #[trigger]
            self.holds_at(x, r, c) && x != k implies after.holds_at(
            if x < k {
                x
            } else {
                x - 1
            },
            r,
            c,
        ) by {
            layout::lemma_removal_keeps(
                self.indices@,
                self.offsets@,
                after.indices@,
                after.offsets@,
                major_dimension,
                minor_dimension,
                k,
                major,
                x,
                self.major_index(r, c),
                self.minor_index(r, c),
            );
        }
        assert forall|x: int, r: int, c: int| #[trigger] after.holds_at(x, r, c) implies self.holds_at(
            if x < k {
                x
            } else {
                x + 1
            },
            r,
            c,
        ) by {
            layout::lemma_removal_adds_none(
                self.indices@,
                self.offsets@,
                after.indices@,
                after.offsets@,
                major_dimension,
                minor_dimension,
                k,
                major,
                x,
                self.major_index(r, c),
                self.minor_index(r, c),
            );
        }
        assert forall|p: (int, int)| #[trigger]
            self@.entries.contains_key(p) && p != (row, column) implies after@.entries.contains_key(
            p,
        ) && after@.entries[p] == self@.entries[p] by {
            let x = self.slot_of(p.0, p.1);
            self.lemma_entry(x, p.0, p.1);
            if x == k {
                layout::lemma_holds_once(
                    self.indices@,
                    self.offsets@,
                    major_dimension,
                    minor_dimension,
                    k,
                    major,
                    self.minor_index(row, column),
                    self.major_index(p.0, p.1),
                    self.minor_index(p.0, p.1),
                );
            }
            assert(self.holds_at(x, p.0, p.1));
            assert(x != k);
            assert(after.holds_at(if x < k { x } else { x - 1 }, p.0, p.1));
            after.lemma_entry(if x < k { x } else { x - 1 }, p.0, p.1);
        }
        assert forall|p: (int, int)| #[trigger] after@.entries.contains_key(p) implies p != (
            row,
            column,
        ) && self@.entries.contains_key(p) by {
            let x = after.slot_of(p.0, p.1);
            layout::lemma_removal_adds_none(
                self.indices@,
                self.offsets@,
                after.indices@,
                after.offsets@,
                major_dimension,
                minor_dimension,
                k,
                major,
                x,
                self.major_index(p.0, p.1),
                self.minor_index(p.0, p.1),
            );
            let y = if x < k { x } else { x + 1 };
            self.lemma_entry(y, p.0, p.1);
            if p == (row, column) {
                layout::lemma_held_once(
                    self.indices@,
                    self.offsets@,
                    major_dimension,
                    minor_dimension,
                    k,
                    y,
                    major,
                    self.minor_index(row, column),
                );
            }
        }
        assert(after@.entries =~= self@.entries.remove((row, column)));
    }

    /// Where every stored element lies before the major line `bound`, the
    /// storage ends where that line starts.
    pub proof fn lemma_nothing_behind(&self, bound: int)
        requires
            self.is_valid(),
            0 <= bound <= self.major_dimension(),
            forall|row: int, column: int| #[trigger]
                self@.entries.contains_key((row, column)) ==> self.major_index(row, column)
                    < bound,
        ensures
            self.offsets@[bound] == self.nonzeros,
    {
        layout::lemma_offsets_ordered(self.offsets@, bound, self.major_dimension());
        if self.offsets@[bound] < self.nonzeros {
            let k = self.offsets@[bound] as int;
            self.lemma_held_somewhere(k);
            let (row, column) = choose|row: int, column: int| #[trigger]
                self.holds_at(k, row, column);
            self.lemma_entry(k, row, column);
            let m = self.major_index(row, column);
            layout::lemma_offsets_ordered(self.offsets@, m + 1, bound);
        }
    }

    /// Where every stored element lies before place `bound` of its major
    /// line, every index is below `bound`.
    pub proof fn lemma_indices_below(&self, bound: int)
        requires
            self.is_valid(),
            forall|row: int, column: int| #[trigger]
                self@.entries.contains_key((row, column)) ==> self.minor_index(row, column)
                    < bound,
        ensures
            forall|k: int| 0 <= k < self.indices@.len() ==> #[trigger] self.indices@[k] < bound,
    {
        assert forall|k: int| 0 <= k < self.indices@.len() implies #[trigger] self.indices@[k]
            < bound by {
            self.lemma_held_somewhere(k);
            let (row, column) = choose|row: int, column: int| #[trigger]
                self.holds_at(k, row, column);
            self.lemma_entry(k, row, column);
        }
    }

    /// A matrix whose stored elements all lie within another shape holds
    /// the same elements after its offsets are cut or extended to that
    /// shape, new major lines being empty.
    pub proof fn lemma_reframed(&self, after: &Self)
        requires
            self.is_valid(),
            after.format == self.format,
            after.nonzeros == self.nonzeros,
            after.values@ == self.values@,
            after.indices@ == self.indices@,
            after.offsets@.len() == after.major_dimension() + 1,
            forall|m: int|
                0 <= m < self.offsets@.len() && m < after.offsets@.len()
                    ==> #[trigger] after.offsets@[m] == self.offsets@[m],
            forall|m: int|
                self.offsets@.len() <= m < after.offsets@.len() ==> #[trigger] after.offsets@[m]
                    == self.nonzeros,
            forall|row: int, column: int| #[trigger]
                self@.entries.contains_key((row, column)) ==> row < after.rows && column
                    < after.columns,
        ensures
            after.is_valid(),
            after@.entries == self@.entries,
    {
        let old_major = self.major_dimension();
        let old_minor = self.minor_dimension();
        let new_major = after.major_dimension();
        if new_major < old_major {
            self.lemma_nothing_behind(new_major);
        }
        self.lemma_indices_below(after.minor_dimension());
        assert(layout::is_reframing(
            self.offsets@,
            after.offsets@,
            new_major,
            self.indices@.len() as int,
        ));
        layout::lemma_reframing_valid(
            self.indices@,
            self.offsets@,
            after.offsets@,
            old_major,
            old_minor,
            new_major,
            after.minor_dimension(),
        );
        assert forall|p: (int, int)| #[trigger]
            self@.entries.contains_key(p) implies after@.entries.contains_key(p)
            && after@.entries[p] == self@.entries[p] by {
            self.lemma_slot(p.0, p.1);
            let x = self.slot_of(p.0, p.1);
            self.lemma_entry(x, p.0, p.1);
            assert(self@.entries.contains_key((p.0, p.1)));
            layout::lemma_reframing_holds(
                self.indices@,
                self.offsets@,
                after.offsets@,
                old_major,
                old_minor,
                new_major,
                x,
                self.major_index(p.0, p.1),
                self.minor_index(p.0, p.1),
            );
            after.lemma_entry(x, p.0, p.1);
        }
        assert forall|p: (int, int)| #[trigger]
            after@.entries.contains_key(p) implies self@.entries.contains_key(p) by {
            after.lemma_slot(p.0, p.1);
            let x = after.slot_of(p.0, p.1);
            layout::lemma_reframing_holds(
                self.indices@,
                self.offsets@,
                after.offsets@,
                old_major,
                old_minor,
                new_major,
                x,
                self.major_index(p.0, p.1),
                self.minor_index(p.0, p.1),
            );
            self.lemma_entry(x, p.0, p.1);
        }
        assert(after@.entries =~= self@.entries);
    }

    /// Resizing to a shape that is nowhere larger gives what `retain` gives
    /// for the condition that accepts the elements within the new shape,
    /// with the offsets cut to the new number of major lines.
    pub proof fn lemma_resize_smaller(&self, retained: &Self, resized: &Self)
        requires
            self.is_valid(),
            retained.is_valid(),
            resized.is_valid(),
            resized.rows <= self.rows,
            resized.columns <= self.columns,
            retained@ == self@.retain(
                CompressedView::<T>::within(resized.rows as int, resized.columns as int),
            ),
            resized@ == self@.resize(resized.rows as int, resized.columns as int),
        ensures
            resized.nonzeros == retained.nonzeros,
            resized.values@ == retained.values@,
            resized.indices@ == retained.indices@,
            resized.offsets@ == retained.offsets@.subrange(0, resized.major_dimension() + 1),
    {
        let major = retained.major_dimension();
        let minor = retained.minor_dimension();
        let new_major = resized.major_dimension();
        let new_minor = resized.minor_dimension();
        let cut = retained.offsets@.subrange(0, new_major + 1);
        self@.lemma_resize_is_retain(resized.rows as int, resized.columns as int);
        assert(retained@.entries == resized@.entries);
        assert forall|row: int, column: int| #[trigger]
            retained@.entries.contains_key((row, column)) implies row < resized.rows && column
            < resized.columns by {
            assert(self@.entries.contains_key((row, column)));
        }
        retained.lemma_nothing_behind(new_major);
        retained.lemma_indices_below(new_minor);
        assert(layout::is_reframing(
            retained.offsets@,
            cut,
            new_major,
            retained.indices@.len() as int,
        ));
        layout::lemma_reframing_valid(
            retained.indices@,
            retained.offsets@,
            cut,
            major,
            minor,
            new_major,
            new_minor,
        );
        assert forall|m: int, i: int|
            #![trigger stores(retained.indices@, cut, m, i)]
            #![trigger stores(resized.indices@, resized.offsets@, m, i)]
            stores(retained.indices@, cut, m, i) <==> stores(
                resized.indices@,
                resized.offsets@,
                m,
                i,
            ) by {
            let (row, column) = match self.format {
                Format::Column => (i, m),
                Format::Row => (m, i),
            };
            if stores(retained.indices@, cut, m, i) {
                let k = layout::slot(retained.indices@, cut, m, i);
                layout::lemma_reframing_holds(
                    retained.indices@,
                    retained.offsets@,
                    cut,
                    major,
                    minor,
                    new_major,
                    k,
                    m,
                    i,
                );
                retained.lemma_entry(k, row, column);
                assert(resized@.entries.contains_key((row, column)));
            }
            if stores(resized.indices@, resized.offsets@, m, i) {
                assert(resized.contains(row, column));
                assert(resized@.entries.contains_key((row, column)));
                assert(retained@.entries.contains_key((row, column)));
                retained.lemma_slot(row, column);
                let x = retained.slot_of(row, column);
                assert(layout::holds(
                    resized.indices@,
                    resized.offsets@,
                    layout::slot(resized.indices@, resized.offsets@, m, i),
                    m,
                    i,
                ));
                layout::lemma_reframing_holds(
                    retained.indices@,
                    retained.offsets@,
                    cut,
                    major,
                    minor,
                    new_major,
                    x,
                    m,
                    i,
                );
            }
        }
        layout::lemma_same_layout(
            retained.indices@,
            cut,
            resized.indices@,
            resized.offsets@,
            new_major,
            new_minor,
        );
        assert forall|k: int| 0 <= k < retained.nonzeros implies retained.values@[k]
            == resized.values@[k] by {
            retained.lemma_held_somewhere(k);
            let (row, column) = choose|row: int, column: int| #[trigger]
                retained.holds_at(k, row, column);
            retained.lemma_entry(k, row, column);
            layout::lemma_reframing_holds(
                retained.indices@,
                retained.offsets@,
                cut,
                major,
                minor,
                new_major,
                k,
                retained.major_index(row, column),
                retained.minor_index(row, column),
            );
            assert(resized.holds_at(k, row, column));
            resized.lemma_entry(k, row, column);
        }
        assert(resized.values@ =~= retained.values@);
    }

    /// The transpose of the transpose of a matrix has the storage of the
    /// matrix: the same values, indices and offsets.
    pub proof fn lemma_transposed_twice(&self, once: &Self, twice: &Self)
        requires
            self.is_valid(),
            once@ == self@.transpose(),
            twice.is_valid(),
            twice@ == once@.transpose(),
        ensures
            twice@ == self@,
            twice.nonzeros == self.nonzeros,
            twice.values@ == self.values@,
            twice.indices@ == self.indices@,
            twice.offsets@ == self.offsets@,
    {
        self@.lemma_transpose_twice();
        twice.lemma_storage_determined(self);
    }

    /// A matrix in the compressed-column format that stores no zero has the
    /// storage of the matrix that comes back from its conversion to the
    /// dense storage.
    pub proof fn lemma_round_trip_storage(&self, back: &Self)
        requires
            self.is_valid(),
            self.format == Format::Column,
            forall|k: int| 0 <= k < self.nonzeros ==> !(#[trigger] self.values@[k]).is_zero_spec(),
            back.is_valid(),
            back@ == CompressedView::from_dense(self@.to_dense()),
        ensures
            back.nonzeros == self.nonzeros,
            back.values@ == self.values@,
            back.indices@ == self.indices@,
            back.offsets@ == self.offsets@,
    {
        self.lemma_view_valid();
        assert forall|row: int, column: int| #[trigger]
            self@.entries.contains_key((row, column)) implies !self@.entries[(
            row,
            column,
        )].is_zero_spec() by {
            self.lemma_slot(row, column);
            self.lemma_entry(self.slot_of(row, column), row, column);
        }
        self@.lemma_round_trip();
        back.lemma_storage_determined(self);
    }
}

} // verus!
