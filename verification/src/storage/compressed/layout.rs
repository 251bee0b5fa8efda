//! The layout of the compressed storage: offsets of major lines and minor
//! indices of stored entries, as sequences.

use vstd::prelude::*;

verus! {

/// Whether the sequence never decreases.
#[verifier::opaque]
pub open spec fn non_decreasing(offsets: Seq<usize>) -> bool {
    forall|a: int, b: int|
        0 <= a <= b < offsets.len() ==> #[trigger] offsets[a] <= #[trigger] offsets[b]
}

/// Whether the minor indices of each slice that `offsets` delimits strictly
/// increase.
#[verifier::opaque]
pub open spec fn slices_increasing(indices: Seq<usize>, offsets: Seq<usize>) -> bool {
    forall|m: int, a: int, b: int|
        #![trigger offsets[m], indices[a], indices[b]]
        0 <= m < offsets.len() - 1 && offsets[m] <= a < b < offsets[m + 1] ==> indices[a]
            < indices[b]
}

/// Whether `offsets` delimits `major` consecutive slices of storage positions
/// that together cover `0..nonzeros`.
pub open spec fn offsets_valid(offsets: Seq<usize>, major: int, nonzeros: int) -> bool {
    &&& 0 <= major
    &&& offsets.len() == major + 1
    &&& offsets[0] == 0
    &&& offsets[major] == nonzeros
    &&& non_decreasing(offsets)
}

/// Whether every minor index is below `minor` and the minor indices of each
/// slice strictly increase.
pub open spec fn indices_valid(indices: Seq<usize>, offsets: Seq<usize>, minor: int) -> bool {
    &&& forall|k: int| 0 <= k < indices.len() ==> #[trigger] indices[k] < minor
    &&& slices_increasing(indices, offsets)
}

/// Whether the two sequences lay out the entries of a matrix with `major`
/// major lines of `minor` positions each.
pub open spec fn layout_valid(
    indices: Seq<usize>,
    offsets: Seq<usize>,
    major: int,
    minor: int,
) -> bool {
    &&& offsets_valid(offsets, major, indices.len() as int)
    &&& indices_valid(indices, offsets, minor)
}

/// Whether storage position `k` lies in the slice of major line `major` and
/// carries the minor index `minor`.
pub open spec fn holds(
    indices: Seq<usize>,
    offsets: Seq<usize>,
    k: int,
    major: int,
    minor: int,
) -> bool {
    &&& 0 <= major < offsets.len() - 1
    &&& offsets[major] <= k < offsets[major + 1]
    &&& indices[k] == minor
}

/// Whether some storage position holds the entry `(major, minor)`.
pub open spec fn stores(indices: Seq<usize>, offsets: Seq<usize>, major: int, minor: int) -> bool {
    exists|k: int| #[trigger] holds(indices, offsets, k, major, minor)
}

/// The storage position of the entry `(major, minor)`, where one holds it.
pub open spec fn slot(indices: Seq<usize>, offsets: Seq<usize>, major: int, minor: int) -> int {
    choose|k: int| #[trigger] holds(indices, offsets, k, major, minor)
}

/// The first position at or after `from` and before `until` whose minor index
/// is at least `minor`; `until` if there is none.
pub open spec fn lower_bound(indices: Seq<usize>, from: int, until: int, minor: int) -> int
    decreases until - from,
{
    if from >= until || indices[from] >= minor {
        from
    } else {
        lower_bound(indices, from + 1, until, minor)
    }
}

/// Whether `after` is `before` with every offset behind major line `major`
/// moved by `by`.
pub open spec fn offsets_shifted(
    before: Seq<usize>,
    after: Seq<usize>,
    major: int,
    by: int,
) -> bool {
    &&& after.len() == before.len()
    &&& forall|m: int|
        0 <= m < before.len() ==> #[trigger] after[m] == before[m] + if m > major {
            by
        } else {
            0
        }
}

/// Whether the second layout is the first with the entry `(major, minor)`
/// put in at storage position `k`, which is where the order of the slice
/// wants it.
pub open spec fn is_insertion(
    indices: Seq<usize>,
    offsets: Seq<usize>,
    new_indices: Seq<usize>,
    new_offsets: Seq<usize>,
    k: int,
    major: int,
    minor: int,
) -> bool {
    &&& 0 <= major < offsets.len() - 1
    &&& offsets[major] <= k <= offsets[major + 1]
    &&& forall|a: int| offsets[major] <= a < k ==> #[trigger] indices[a] < minor
    &&& k < offsets[major + 1] ==> minor < indices[k]
    &&& new_indices.len() == indices.len() + 1
    &&& new_indices[k] == minor
    &&& forall|a: int| 0 <= a < k ==> #[trigger] new_indices[a] == indices[a]
    &&& forall|a: int| k < a <= indices.len() ==> #[trigger] new_indices[a] == indices[a - 1]
    &&& offsets_shifted(offsets, new_offsets, major, 1)
}

/// Whether the second layout is the first without the entry at storage
/// position `k`, which lies in major line `major`.
pub open spec fn is_removal(
    indices: Seq<usize>,
    offsets: Seq<usize>,
    new_indices: Seq<usize>,
    new_offsets: Seq<usize>,
    k: int,
    major: int,
) -> bool {
    &&& 0 <= major < offsets.len() - 1
    &&& offsets[major] <= k < offsets[major + 1]
    &&& new_indices.len() == indices.len() - 1
    &&& forall|a: int| 0 <= a < k ==> #[trigger] new_indices[a] == indices[a]
    &&& forall|a: int| k <= a < indices.len() - 1 ==> #[trigger] new_indices[a] == indices[a + 1]
    &&& offsets_shifted(offsets, new_offsets, major, -1)
}

/// Offsets are ordered as their major lines are.
pub proof fn lemma_offsets_ordered(offsets: Seq<usize>, a: int, b: int)
    requires
        non_decreasing(offsets),
        0 <= a <= b < offsets.len(),
    ensures
        offsets[a] <= offsets[b],
{
    reveal(non_decreasing);
}

/// Every slice lies within the storage.
pub proof fn lemma_slice_bounds(offsets: Seq<usize>, major_dimension: int, nonzeros: int, m: int)
    requires
        offsets_valid(offsets, major_dimension, nonzeros),
        0 <= m < major_dimension,
    ensures
        0 <= offsets[m] <= offsets[m + 1] <= nonzeros,
{
    reveal(non_decreasing);
}

/// Within a slice, a later position carries a greater minor index.
pub proof fn lemma_slice_increasing(
    indices: Seq<usize>,
    offsets: Seq<usize>,
    m: int,
    a: int,
    b: int,
)
    requires
        slices_increasing(indices, offsets),
        0 <= m < offsets.len() - 1,
        offsets[m] <= a < b < offsets[m + 1],
    ensures
        indices[a] < indices[b],
{
    reveal(slices_increasing);
}

/// A storage position lies in the slice of one major line only, and carries
/// one minor index.
pub proof fn lemma_holds_once(
    indices: Seq<usize>,
    offsets: Seq<usize>,
    major_dimension: int,
    minor_dimension: int,
    k: int,
    major: int,
    minor: int,
    other_major: int,
    other_minor: int,
)
    requires
        layout_valid(indices, offsets, major_dimension, minor_dimension),
        holds(indices, offsets, k, major, minor),
        holds(indices, offsets, k, other_major, other_minor),
    ensures
        major == other_major,
        minor == other_minor,
{
    reveal(non_decreasing);
    reveal(slices_increasing);
    if major < other_major {
        assert(offsets[major + 1] <= offsets[other_major]);
    }
    if other_major < major {
        assert(offsets[other_major + 1] <= offsets[major]);
    }
}

/// An entry is held at one storage position only.
pub proof fn lemma_held_once(
    indices: Seq<usize>,
    offsets: Seq<usize>,
    major_dimension: int,
    minor_dimension: int,
    k: int,
    other: int,
    major: int,
    minor: int,
)
    requires
        layout_valid(indices, offsets, major_dimension, minor_dimension),
        holds(indices, offsets, k, major, minor),
        holds(indices, offsets, other, major, minor),
    ensures
        k == other,
{
    reveal(non_decreasing);
    reveal(slices_increasing);
    if k < other {
        assert(offsets[major] <= k < other < offsets[major + 1]);
        assert(indices[k] < indices[other]);
    }
    if other < k {
        assert(offsets[major] <= other < k < offsets[major + 1]);
        assert(indices[other] < indices[k]);
    }
}

/// Every storage position lies in the slice of some major line.
pub proof fn lemma_line_exists(offsets: Seq<usize>, major_dimension: int, nonzeros: int, k: int)
    requires
        offsets_valid(offsets, major_dimension, nonzeros),
        0 <= k < nonzeros,
    ensures
        exists|m: int| 0 <= m < major_dimension && #[trigger] offsets[m] <= k < offsets[m + 1],
{
    lemma_line_below(offsets, major_dimension, nonzeros, k, major_dimension);
}

/// Every storage position before the start of the major line `bound` lies
/// in the slice of some major line.
proof fn lemma_line_below(
    offsets: Seq<usize>,
    major_dimension: int,
    nonzeros: int,
    k: int,
    bound: int,
)
    requires
        offsets_valid(offsets, major_dimension, nonzeros),
        0 <= k < nonzeros,
        0 <= bound <= major_dimension,
        k < offsets[bound],
    ensures
        exists|m: int| 0 <= m < major_dimension && #[trigger] offsets[m] <= k < offsets[m + 1],
    decreases bound,
{
    reveal(non_decreasing);
    reveal(slices_increasing);
    if bound == 0 {
        assert(false);
    } else if offsets[bound - 1] <= k {
        assert(0 <= bound - 1 < major_dimension && offsets[bound - 1] <= k < offsets[bound - 1
            + 1]);
    } else {
        lemma_line_below(offsets, major_dimension, nonzeros, k, bound - 1);
    }
}

/// The lower bound lies within its range, everything before it is smaller
/// than `minor`, and what stands at it is not.
pub proof fn lemma_lower_bound(indices: Seq<usize>, from: int, until: int, minor: int)
    requires
        from <= until,
    ensures
        from <= lower_bound(indices, from, until, minor) <= until,
        forall|k: int|
            from <= k < lower_bound(indices, from, until, minor) ==> #[trigger] indices[k] < minor,
        lower_bound(indices, from, until, minor) < until ==> indices[lower_bound(
            indices,
            from,
            until,
            minor,
        )] >= minor,
    decreases until - from,
{
    if from >= until || indices[from] >= minor {
    } else {
        lemma_lower_bound(indices, from + 1, until, minor);
    }
}

/// A layout stays valid when an entry is put in at its place.
pub proof fn lemma_insertion_valid(
    indices: Seq<usize>,
    offsets: Seq<usize>,
    new_indices: Seq<usize>,
    new_offsets: Seq<usize>,
    major_dimension: int,
    minor_dimension: int,
    k: int,
    major: int,
    minor: int,
)
    requires
        layout_valid(indices, offsets, major_dimension, minor_dimension),
        is_insertion(indices, offsets, new_indices, new_offsets, k, major, minor),
        0 <= minor < minor_dimension,
    ensures
        layout_valid(new_indices, new_offsets, major_dimension, minor_dimension),
{
    reveal(non_decreasing);
    reveal(slices_increasing);
    assert forall|a: int, b: int| 0 <= a <= b < new_offsets.len() implies #[trigger] new_offsets[a]
        <= #[trigger] new_offsets[b] by {
        assert(offsets[a] <= offsets[b]);
    }
    assert(offsets[major + 1] <= offsets[major_dimension]);
    assert forall|x: int| 0 <= x < new_indices.len() implies #[trigger] new_indices[x]
        < minor_dimension by {
        if x < k {
            assert(indices[x] < minor_dimension);
        } else if x > k {
            assert(indices[x - 1] < minor_dimension);
        }
    }
    assert forall|m: int, a: int, b: int|
        #![trigger new_offsets[m], new_indices[a], new_indices[b]]
        0 <= m < new_offsets.len() - 1 && new_offsets[m] <= a < b < new_offsets[m + 1] implies
        new_indices[a] < new_indices[b] by {
        if m < major {
            assert(offsets[m + 1] <= offsets[major]);
            assert(offsets[m] <= a < b < offsets[m + 1]);
            assert(indices[a] < indices[b]);
        } else if m > major {
            assert(offsets[major + 1] <= offsets[m]);
            assert(offsets[m] <= a - 1 < b - 1 < offsets[m + 1]);
            assert(indices[a - 1] < indices[b - 1]);
        } else {
            if b < k {
                assert(offsets[m] <= a < b < offsets[m + 1]);
                assert(indices[a] < indices[b]);
            } else if b == k {
                assert(indices[a] < minor);
            } else if a == k {
                if b - 1 > k {
                    assert(offsets[m] <= k < b - 1 < offsets[m + 1]);
                    assert(indices[k] < indices[b - 1]);
                }
            } else if a < k {
                assert(indices[a] < minor);
                if b - 1 > k {
                    assert(offsets[m] <= k < b - 1 < offsets[m + 1]);
                    assert(indices[k] < indices[b - 1]);
                }
            } else {
                assert(offsets[m] <= a - 1 < b - 1 < offsets[m + 1]);
                assert(indices[a - 1] < indices[b - 1]);
            }
        }
    }
}

/// What the old layout holds, the layout after an insertion holds too, one
/// position later if it stood at or behind the new entry.
pub proof fn lemma_insertion_keeps(
    indices: Seq<usize>,
    offsets: Seq<usize>,
    new_indices: Seq<usize>,
    new_offsets: Seq<usize>,
    major_dimension: int,
    minor_dimension: int,
    k: int,
    major: int,
    minor: int,
    x: int,
    m: int,
    i: int,
)
    requires
        layout_valid(indices, offsets, major_dimension, minor_dimension),
        is_insertion(indices, offsets, new_indices, new_offsets, k, major, minor),
        holds(indices, offsets, x, m, i),
    ensures
        holds(new_indices, new_offsets, if x < k { x } else { x + 1 }, m, i),
{
    reveal(non_decreasing);
    reveal(slices_increasing);
    assert(offsets[m + 1] <= offsets[major_dimension]);
    if m < major {
        assert(offsets[m + 1] <= offsets[major]);
    } else if m > major {
        assert(offsets[major + 1] <= offsets[m]);
    }
}

/// What the layout after an insertion holds is the new entry or was held
/// before.
pub proof fn lemma_insertion_adds_one(
    indices: Seq<usize>,
    offsets: Seq<usize>,
    new_indices: Seq<usize>,
    new_offsets: Seq<usize>,
    major_dimension: int,
    minor_dimension: int,
    k: int,
    major: int,
    minor: int,
    x: int,
    m: int,
    i: int,
)
    requires
        layout_valid(indices, offsets, major_dimension, minor_dimension),
        is_insertion(indices, offsets, new_indices, new_offsets, k, major, minor),
        holds(new_indices, new_offsets, x, m, i),
    ensures
        x == k ==> m == major && i == minor,
        x < k ==> holds(indices, offsets, x, m, i),
        x > k ==> holds(indices, offsets, x - 1, m, i),
{
    reveal(non_decreasing);
    reveal(slices_increasing);
    assert(offsets[m + 1] <= offsets[major_dimension]);
    if m < major {
        assert(offsets[m + 1] <= offsets[major]);
    } else if m > major {
        assert(offsets[major + 1] <= offsets[m]);
    }
}

/// A layout stays valid when an entry is taken out.
pub proof fn lemma_removal_valid(
    indices: Seq<usize>,
    offsets: Seq<usize>,
    new_indices: Seq<usize>,
    new_offsets: Seq<usize>,
    major_dimension: int,
    minor_dimension: int,
    k: int,
    major: int,
)
    requires
        layout_valid(indices, offsets, major_dimension, minor_dimension),
        is_removal(indices, offsets, new_indices, new_offsets, k, major),
    ensures
        layout_valid(new_indices, new_offsets, major_dimension, minor_dimension),
{
    reveal(non_decreasing);
    reveal(slices_increasing);
    assert forall|a: int, b: int| 0 <= a <= b < new_offsets.len() implies #[trigger] new_offsets[a]
        <= #[trigger] new_offsets[b] by {
        assert(offsets[a] <= offsets[b]);
        if a <= major < b {
            assert(offsets[a] <= offsets[major]);
            assert(offsets[major + 1] <= offsets[b]);
        }
    }
    assert(offsets[major + 1] <= offsets[major_dimension]);
    assert forall|x: int| 0 <= x < new_indices.len() implies #[trigger] new_indices[x]
        < minor_dimension by {
        if x < k {
            assert(indices[x] < minor_dimension);
        } else {
            assert(indices[x + 1] < minor_dimension);
        }
    }
    assert forall|m: int, a: int, b: int|
        #![trigger new_offsets[m], new_indices[a], new_indices[b]]
        0 <= m < new_offsets.len() - 1 && new_offsets[m] <= a < b < new_offsets[m + 1] implies
        new_indices[a] < new_indices[b] by {
        if m < major {
            assert(offsets[m + 1] <= offsets[major]);
            assert(offsets[m] <= a < b < offsets[m + 1]);
            assert(indices[a] < indices[b]);
        } else if m > major {
            assert(offsets[major + 1] <= offsets[m]);
            assert(offsets[m] <= a + 1 < b + 1 < offsets[m + 1]);
            assert(indices[a + 1] < indices[b + 1]);
        } else {
            let old_a = if a < k { a } else { a + 1 };
            let old_b = if b < k { b } else { b + 1 };
            assert(offsets[m] <= old_a < old_b < offsets[m + 1]);
            assert(indices[old_a] < indices[old_b]);
        }
    }
}

/// What the old layout holds elsewhere than at the removed position, the
/// layout after the removal holds too, one position earlier if it stood
/// behind the removed entry.
pub proof fn lemma_removal_keeps(
    indices: Seq<usize>,
    offsets: Seq<usize>,
    new_indices: Seq<usize>,
    new_offsets: Seq<usize>,
    major_dimension: int,
    minor_dimension: int,
    k: int,
    major: int,
    x: int,
    m: int,
    i: int,
)
    requires
        layout_valid(indices, offsets, major_dimension, minor_dimension),
        is_removal(indices, offsets, new_indices, new_offsets, k, major),
        holds(indices, offsets, x, m, i),
        x != k,
    ensures
        holds(new_indices, new_offsets, if x < k { x } else { x - 1 }, m, i),
{
    reveal(non_decreasing);
    reveal(slices_increasing);
    assert(offsets[m + 1] <= offsets[major_dimension]);
    if m < major {
        assert(offsets[m + 1] <= offsets[major]);
    } else if m > major {
        assert(offsets[major + 1] <= offsets[m]);
    }
}

/// What the layout after a removal holds was held before, elsewhere than at
/// the removed position.
pub proof fn lemma_removal_adds_none(
    indices: Seq<usize>,
    offsets: Seq<usize>,
    new_indices: Seq<usize>,
    new_offsets: Seq<usize>,
    major_dimension: int,
    minor_dimension: int,
    k: int,
    major: int,
    x: int,
    m: int,
    i: int,
)
    requires
        layout_valid(indices, offsets, major_dimension, minor_dimension),
        is_removal(indices, offsets, new_indices, new_offsets, k, major),
        holds(new_indices, new_offsets, x, m, i),
    ensures
        holds(indices, offsets, if x < k { x } else { x + 1 }, m, i),
{
    reveal(non_decreasing);
    reveal(slices_increasing);
    assert(offsets[m + 1] <= offsets[major_dimension]);
    if m < major {
        assert(offsets[m + 1] <= offsets[major]);
    } else if m > major {
        assert(offsets[major + 1] <= offsets[m]);
    }
}

/// Whether `new_offsets` is `offsets` cut or extended to `new_major` major
/// lines, every new line being empty.
pub open spec fn is_reframing(
    offsets: Seq<usize>,
    new_offsets: Seq<usize>,
    new_major: int,
    nonzeros: int,
) -> bool {
    &&& 0 <= new_major
    &&& new_offsets.len() == new_major + 1
    &&& forall|m: int|
        0 <= m < offsets.len() && m < new_offsets.len() ==> #[trigger] new_offsets[m] == offsets[m]
    &&& forall|m: int|
        offsets.len() <= m < new_offsets.len() ==> #[trigger] new_offsets[m] == nonzeros
    &&& new_major + 1 < offsets.len() ==> offsets[new_major] == nonzeros
}

/// A layout stays valid when its offsets are cut behind the last major
/// line that stores something, or extended by empty lines.
pub proof fn lemma_reframing_valid(
    indices: Seq<usize>,
    offsets: Seq<usize>,
    new_offsets: Seq<usize>,
    major_dimension: int,
    minor_dimension: int,
    new_major: int,
    new_minor: int,
)
    requires
        layout_valid(indices, offsets, major_dimension, minor_dimension),
        is_reframing(offsets, new_offsets, new_major, indices.len() as int),
        forall|k: int| 0 <= k < indices.len() ==> #[trigger] indices[k] < new_minor,
    ensures
        layout_valid(indices, new_offsets, new_major, new_minor),
{
    reveal(non_decreasing);
    reveal(slices_increasing);
    assert forall|a: int, b: int| 0 <= a <= b < new_offsets.len() implies #[trigger] new_offsets[a]
        <= #[trigger] new_offsets[b] by {
        if b < offsets.len() {
            assert(offsets[a] <= offsets[b]);
        } else if a < offsets.len() {
            assert(offsets[a] <= offsets[major_dimension]);
        }
    }
    assert forall|m: int, a: int, b: int|
        #![trigger new_offsets[m], indices[a], indices[b]]
        0 <= m < new_offsets.len() - 1 && new_offsets[m] <= a < b < new_offsets[m + 1] implies
        indices[a] < indices[b] by {
        if m < major_dimension {
            assert(offsets[m] <= a < b < offsets[m + 1]);
        }
    }
}

/// Cutting or extending the offsets moves no entry.
pub proof fn lemma_reframing_holds(
    indices: Seq<usize>,
    offsets: Seq<usize>,
    new_offsets: Seq<usize>,
    major_dimension: int,
    minor_dimension: int,
    new_major: int,
    k: int,
    m: int,
    i: int,
)
    requires
        layout_valid(indices, offsets, major_dimension, minor_dimension),
        is_reframing(offsets, new_offsets, new_major, indices.len() as int),
    ensures
        holds(indices, new_offsets, k, m, i) <==> holds(indices, offsets, k, m, i) && m < new_major,
{
    reveal(non_decreasing);
    if holds(indices, offsets, k, m, i) && m < new_major {
        assert(new_offsets[m] == offsets[m]);
        assert(new_offsets[m + 1] == offsets[m + 1]);
    }
    if holds(indices, new_offsets, k, m, i) {
        if m < major_dimension {
            assert(new_offsets[m] == offsets[m]);
            assert(new_offsets[m + 1] == offsets[m + 1]);
        } else {
            assert(new_offsets[m + 1] == indices.len());
            if m == major_dimension {
                assert(new_offsets[m] == offsets[m]);
            } else {
                assert(new_offsets[m] == indices.len());
            }
        }
    }
}

/// Whether the two layouts store the same entries.
pub open spec fn same_entries(
    indices: Seq<usize>,
    offsets: Seq<usize>,
    other_indices: Seq<usize>,
    other_offsets: Seq<usize>,
) -> bool {
    forall|m: int, i: int|
        #![trigger stores(indices, offsets, m, i)]
        #![trigger stores(other_indices, other_offsets, m, i)]
        stores(indices, offsets, m, i) <==> stores(other_indices, other_offsets, m, i)
}

/// The storage order is the order of the entries by major line first and
/// minor index second.
pub proof fn lemma_storage_order(
    indices: Seq<usize>,
    offsets: Seq<usize>,
    major_dimension: int,
    minor_dimension: int,
    k: int,
    major: int,
    minor: int,
    later: int,
    later_major: int,
    later_minor: int,
)
    requires
        layout_valid(indices, offsets, major_dimension, minor_dimension),
        holds(indices, offsets, k, major, minor),
        holds(indices, offsets, later, later_major, later_minor),
        k < later,
    ensures
        major < later_major || (major == later_major && minor < later_minor),
{
    reveal(non_decreasing);
    reveal(slices_increasing);
    if major > later_major {
        assert(offsets[later_major + 1] <= offsets[major]);
    }
}

/// Two valid layouts that store the same entries hold each entry at the
/// same storage position.
pub proof fn lemma_same_position(
    indices: Seq<usize>,
    offsets: Seq<usize>,
    other_indices: Seq<usize>,
    other_offsets: Seq<usize>,
    major_dimension: int,
    minor_dimension: int,
    k: int,
    major: int,
    minor: int,
)
    requires
        layout_valid(indices, offsets, major_dimension, minor_dimension),
        layout_valid(other_indices, other_offsets, major_dimension, minor_dimension),
        same_entries(indices, offsets, other_indices, other_offsets),
        holds(indices, offsets, k, major, minor),
    ensures
        holds(other_indices, other_offsets, k, major, minor),
    decreases k,
{
    assert(stores(indices, offsets, major, minor));
    assert(stores(other_indices, other_offsets, major, minor));
    let x = slot(other_indices, other_offsets, major, minor);
    assert(holds(other_indices, other_offsets, x, major, minor));
    lemma_slice_bounds(offsets, major_dimension, indices.len() as int, major);
    lemma_slice_bounds(other_offsets, major_dimension, other_indices.len() as int, major);
    if x < k {
        lemma_line_exists(offsets, major_dimension, indices.len() as int, x);
        let m = choose|m: int|
            0 <= m < major_dimension && #[trigger] offsets[m] <= x < offsets[m + 1];
        let i = indices[x] as int;
        assert(holds(indices, offsets, x, m, i));
        lemma_same_position(
            indices,
            offsets,
            other_indices,
            other_offsets,
            major_dimension,
            minor_dimension,
            x,
            m,
            i,
        );
        lemma_holds_once(
            other_indices,
            other_offsets,
            major_dimension,
            minor_dimension,
            x,
            major,
            minor,
            m,
            i,
        );
        lemma_held_once(indices, offsets, major_dimension, minor_dimension, k, x, major, minor);
    } else if x > k {
        lemma_line_exists(other_offsets, major_dimension, other_indices.len() as int, k);
        let m = choose|m: int|
            0 <= m < major_dimension && #[trigger] other_offsets[m] <= k < other_offsets[m + 1];
        let i = other_indices[k] as int;
        assert(holds(other_indices, other_offsets, k, m, i));
        assert(stores(other_indices, other_offsets, m, i));
        assert(stores(indices, offsets, m, i));
        let y = slot(indices, offsets, m, i);
        assert(holds(indices, offsets, y, m, i));
        lemma_storage_order(
            other_indices,
            other_offsets,
            major_dimension,
            minor_dimension,
            k,
            m,
            i,
            x,
            major,
            minor,
        );
        if y > k {
            lemma_storage_order(
                indices,
                offsets,
                major_dimension,
                minor_dimension,
                k,
                major,
                minor,
                y,
                m,
                i,
            );
        } else if y == k {
            lemma_holds_once(
                indices,
                offsets,
                major_dimension,
                minor_dimension,
                k,
                major,
                minor,
                m,
                i,
            );
        } else {
            lemma_same_position(
                indices,
                offsets,
                other_indices,
                other_offsets,
                major_dimension,
                minor_dimension,
                y,
                m,
                i,
            );
            lemma_held_once(
                other_indices,
                other_offsets,
                major_dimension,
                minor_dimension,
                k,
                y,
                m,
                i,
            );
        }
    }
}

/// Two valid layouts that store the same entries are the same layout.
pub proof fn lemma_same_layout(
    indices: Seq<usize>,
    offsets: Seq<usize>,
    other_indices: Seq<usize>,
    other_offsets: Seq<usize>,
    major_dimension: int,
    minor_dimension: int,
)
    requires
        layout_valid(indices, offsets, major_dimension, minor_dimension),
        layout_valid(other_indices, other_offsets, major_dimension, minor_dimension),
        same_entries(indices, offsets, other_indices, other_offsets),
    ensures
        indices == other_indices,
        offsets == other_offsets,
{
    lemma_no_longer(
        indices,
        offsets,
        other_indices,
        other_offsets,
        major_dimension,
        minor_dimension,
    );
    lemma_no_longer(
        other_indices,
        other_offsets,
        indices,
        offsets,
        major_dimension,
        minor_dimension,
    );
    assert forall|k: int| 0 <= k < indices.len() implies indices[k] == other_indices[k] by {
        lemma_line_exists(offsets, major_dimension, indices.len() as int, k);
        let m = choose|m: int|
            0 <= m < major_dimension && #[trigger] offsets[m] <= k < offsets[m + 1];
        assert(holds(indices, offsets, k, m, indices[k] as int));
        lemma_same_position(
            indices,
            offsets,
            other_indices,
            other_offsets,
            major_dimension,
            minor_dimension,
            k,
            m,
            indices[k] as int,
        );
    }
    assert(indices =~= other_indices);
    assert forall|m: int| 0 <= m <= major_dimension implies offsets[m] == other_offsets[m] by {
        lemma_no_earlier(
            indices,
            offsets,
            other_indices,
            other_offsets,
            major_dimension,
            minor_dimension,
            m,
        );
        lemma_no_earlier(
            other_indices,
            other_offsets,
            indices,
            offsets,
            major_dimension,
            minor_dimension,
            m,
        );
    }
    assert(offsets =~= other_offsets);
}

/// Of two valid layouts that store the same entries, the first is not the
/// longer one.
proof fn lemma_no_longer(
    indices: Seq<usize>,
    offsets: Seq<usize>,
    other_indices: Seq<usize>,
    other_offsets: Seq<usize>,
    major_dimension: int,
    minor_dimension: int,
)
    requires
        layout_valid(indices, offsets, major_dimension, minor_dimension),
        layout_valid(other_indices, other_offsets, major_dimension, minor_dimension),
        same_entries(indices, offsets, other_indices, other_offsets),
    ensures
        indices.len() <= other_indices.len(),
{
    if indices.len() > 0 {
        let k = indices.len() - 1;
        lemma_line_exists(offsets, major_dimension, indices.len() as int, k);
        let m = choose|m: int|
            0 <= m < major_dimension && #[trigger] offsets[m] <= k < offsets[m + 1];
        assert(holds(indices, offsets, k, m, indices[k] as int));
        lemma_same_position(
            indices,
            offsets,
            other_indices,
            other_offsets,
            major_dimension,
            minor_dimension,
            k,
            m,
            indices[k] as int,
        );
        lemma_slice_bounds(other_offsets, major_dimension, other_indices.len() as int, m);
    }
}

/// Of two valid layouts that store the same entries, no major line starts
/// earlier in the first than in the second.
proof fn lemma_no_earlier(
    indices: Seq<usize>,
    offsets: Seq<usize>,
    other_indices: Seq<usize>,
    other_offsets: Seq<usize>,
    major_dimension: int,
    minor_dimension: int,
    m: int,
)
    requires
        layout_valid(indices, offsets, major_dimension, minor_dimension),
        layout_valid(other_indices, other_offsets, major_dimension, minor_dimension),
        same_entries(indices, offsets, other_indices, other_offsets),
        indices.len() == other_indices.len(),
        0 <= m <= major_dimension,
    ensures
        offsets[m] >= other_offsets[m],
{
    reveal(non_decreasing);
    if offsets[m] < other_offsets[m] {
        let k = offsets[m] as int;
        assert(other_offsets[m] <= other_offsets[major_dimension]);
        lemma_line_exists(offsets, major_dimension, indices.len() as int, k);
        let line = choose|line: int|
            0 <= line < major_dimension && #[trigger] offsets[line] <= k < offsets[line + 1];
        if line < m {
            assert(offsets[line + 1] <= offsets[m]);
        }
        assert(holds(indices, offsets, k, line, indices[k] as int));
        lemma_same_position(
            indices,
            offsets,
            other_indices,
            other_offsets,
            major_dimension,
            minor_dimension,
            k,
            line,
            indices[k] as int,
        );
        assert(other_offsets[m] <= other_offsets[line]);
    }
}

/// A sequence whose every element is at most the next never decreases.
pub proof fn lemma_non_decreasing_by_steps(offsets: Seq<usize>)
    requires
        forall|m: int| 0 <= m < offsets.len() - 1 ==> #[trigger] offsets[m] <= offsets[m + 1],
    ensures
        non_decreasing(offsets),
{
    reveal(non_decreasing);
    assert forall|a: int, b: int| 0 <= a <= b < offsets.len() implies #[trigger] offsets[a]
        <= #[trigger] offsets[b] by {
        lemma_steps_reach(offsets, a, b);
    }
}

/// Steps that never go down lead from an element to none that is smaller.
proof fn lemma_steps_reach(offsets: Seq<usize>, a: int, b: int)
    requires
        forall|m: int| 0 <= m < offsets.len() - 1 ==> #[trigger] offsets[m] <= offsets[m + 1],
        0 <= a <= b < offsets.len(),
    ensures
        offsets[a] <= offsets[b],
    decreases b - a,
{
    if a < b {
        lemma_steps_reach(offsets, a, b - 1);
        assert(offsets[b - 1] <= offsets[b - 1 + 1]);
    }
}

/// Slices in which every index is smaller than the next strictly increase.
pub proof fn lemma_slices_increasing_by_steps(indices: Seq<usize>, offsets: Seq<usize>)
    requires
        forall|m: int, k: int|
            #![trigger offsets[m], indices[k]]
            0 <= m < offsets.len() - 1 && offsets[m] <= k && k + 1 < offsets[m + 1] ==> indices[k]
                < indices[k + 1],
    ensures
        slices_increasing(indices, offsets),
{
    reveal(slices_increasing);
    assert forall|m: int, a: int, b: int|
        #![trigger offsets[m], indices[a], indices[b]]
        0 <= m < offsets.len() - 1 && offsets[m] <= a < b < offsets[m + 1] implies indices[a]
        < indices[b] by {
        lemma_slice_steps_reach(indices, offsets, m, a, b);
    }
}

/// Steps that go up within a slice lead from an index to a greater one.
proof fn lemma_slice_steps_reach(indices: Seq<usize>, offsets: Seq<usize>, m: int, a: int, b: int)
    requires
        forall|m: int, k: int|
            #![trigger offsets[m], indices[k]]
            0 <= m < offsets.len() - 1 && offsets[m] <= k && k + 1 < offsets[m + 1] ==> indices[k]
                < indices[k + 1],
        0 <= m < offsets.len() - 1,
        offsets[m] <= a < b < offsets[m + 1],
    ensures
        indices[a] < indices[b],
    decreases b - a,
{
    if a + 1 < b {
        lemma_slice_steps_reach(indices, offsets, m, a, b - 1);
    }
    assert(offsets[m] <= b - 1 && b - 1 + 1 < offsets[m + 1]);
    assert(indices[b - 1] < indices[b - 1 + 1]);
}

} // verus!
