//! Conversions between the compressed storage and the conventional and
//! diagonal ones.

use vstd::prelude::*;
use crate::element::Element;
use crate::storage::compressed::layout;
use crate::storage::compressed::{Compressed, CompressedView, Format};
use crate::storage::conventional::Conventional;
use crate::storage::diagonal::Diagonal;
use crate::storage::flat::{
    flat_index, lemma_flat_index_bounds, lemma_flat_index_joins, lemma_flat_index_once,
};

verus! {

impl<T: Element> Compressed<T> {
    /// Convert a conventional matrix.
    ///
    /// The result has the compressed-column format and stores exactly the
    /// elements that do not count as zero.
    pub fn from_conventional(conventional: &Conventional<T>) -> (matrix: Self)
        requires
            conventional.is_valid(),
            conventional.columns < usize::MAX,
        ensures
            matrix.is_valid(),
            matrix@ == CompressedView::from_dense(conventional@),
    {
        let (rows, columns) = (conventional.rows, conventional.columns);
        let mut matrix = Compressed::new((rows, columns), Format::Column);
        let length = conventional.values.len();
        let mut k: usize = 0;
        while k < length
            invariant
                conventional.is_valid(),
                rows == conventional.rows,
                columns == conventional.columns,
                length == conventional.values@.len(),
                k <= length,
                matrix.is_valid(),
                matrix.rows == rows,
                matrix.columns == columns,
                matrix.format == Format::Column,
                matrix.nonzeros <= k,
                forall|p: (int, int)| #[trigger]
                    matrix@.entries.contains_key(p) <==> 0 <= p.0 < rows && 0 <= p.1 < columns
                        && flat_index(p.0, p.1, rows as int) < k && !conventional@.get(
                        p.0,
                        p.1,
                    ).is_zero_spec(),
                forall|p: (int, int)| #[trigger]
                    matrix@.entries.contains_key(p) ==> matrix@.entries[p] == conventional@.get(
                        p.0,
                        p.1,
                    ),
            decreases length - k,
        {
            let value = conventional.values[k];
            proof {
                lemma_flat_index_joins(k as int, rows as int, columns as int);
            }
            let ghost before = matrix@;
            let (i, j) = (k % rows, k / rows);
            if !value.is_zero() {
                matrix.set((i, j), value);
            }
            proof {
                assert forall|p: (int, int)| #[trigger]
                    matrix@.entries.contains_key(p) <==> 0 <= p.0 < rows && 0 <= p.1 < columns
                        && flat_index(p.0, p.1, rows as int) < k + 1 && !conventional@.get(
                        p.0,
                        p.1,
                    ).is_zero_spec() by {
                    assert(before.entries.contains_key(p) || !before.entries.contains_key(p));
                    if 0 <= p.0 < rows && flat_index(p.0, p.1, rows as int) == k {
                        lemma_flat_index_once(p.0, p.1, i as int, j as int, rows as int);
                        assert(p == (i as int, j as int));
                    }
                }
                assert forall|p: (int, int)| #[trigger]
                    matrix@.entries.contains_key(p) implies matrix@.entries[p]
                    == conventional@.get(p.0, p.1) by {
                    assert(before.entries.contains_key(p) || !before.entries.contains_key(p));
                }
            }
            k += 1;
        }
        proof {
            assert forall|p: (int, int)|
                0 <= p.0 < rows && 0 <= p.1 < columns implies flat_index(p.0, p.1, rows as int)
                < length by {
                lemma_flat_index_bounds(p.0, p.1, rows as int, columns as int);
            }
            assert(matrix@.entries =~= CompressedView::from_dense(conventional@).entries);
        }
        matrix
    }

    /// Convert a diagonal matrix.
    ///
    /// The result has the compressed-column format and stores every value
    /// of the diagonal, zeros included: the `i`th value stands at storage
    /// position `i` with row index `i`, and column `i` starts at offset `i`,
    /// or at the number of values where the diagonal has fewer.
    pub fn from_diagonal(diagonal: Diagonal<T>) -> (matrix: Self)
        requires
            diagonal.is_valid(),
            diagonal.columns < usize::MAX,
        ensures
            matrix.is_valid(),
            matrix@ == CompressedView::from_diagonal(
                diagonal.rows as int,
                diagonal.columns as int,
                diagonal.values@,
            ),
            matrix.nonzeros == diagonal.values@.len(),
            matrix.values == diagonal.values,
            matrix.indices@ == Seq::new(diagonal.values@.len(), |k: int| k as usize),
            matrix.offsets@ == Seq::new(
                (diagonal.columns + 1) as nat,
                |i: int|
                    if i < diagonal.values@.len() {
                        i as usize
                    } else {
                        diagonal.values@.len() as usize
                    },
            ),
    {
        let Diagonal { rows, columns, values } = diagonal;
        let nonzeros = values.len();
        let mut indices: Vec<usize> = Vec::with_capacity(nonzeros);
        let mut k: usize = 0;
        while k < nonzeros
            invariant
                k <= nonzeros,
                indices@.len() == k,
                forall|a: int| 0 <= a < k ==> #[trigger] indices@[a] == a,
            decreases nonzeros - k,
        {
            indices.push(k);
            k += 1;
        }
        let mut offsets: Vec<usize> = Vec::new();
        let mut i: usize = 0;
        while i < columns + 1
            invariant
                columns < usize::MAX,
                i <= columns + 1,
                offsets@.len() == i,
                forall|a: int|
                    0 <= a < i ==> #[trigger] offsets@[a] == if a < nonzeros {
                        a
                    } else {
                        nonzeros as int
                    },
            decreases columns + 1 - i,
        {
            offsets.push(if i < nonzeros { i } else { nonzeros });
            i += 1;
        }
        let matrix = Compressed {
            rows,
            columns,
            nonzeros,
            format: Format::Column,
            values,
            indices,
            offsets,
        };
        proof {
            reveal(layout::non_decreasing);
            reveal(layout::slices_increasing);
            assert(matrix.is_valid());
            assert(matrix.indices@ =~= Seq::new(nonzeros as nat, |k: int| k as usize));
            assert(matrix.offsets@ =~= Seq::new(
                (columns + 1) as nat,
                |i: int|
                    if i < nonzeros {
                        i as usize
                    } else {
                        nonzeros
                    },
            ));
            let wanted = CompressedView::from_diagonal(rows as int, columns as int, values@);
            assert forall|p: (int, int)| #[trigger]
                wanted.entries.contains_key(p) implies matrix@.entries.contains_key(p)
                && matrix@.entries[p] == wanted.entries[p] by {
                assert(matrix.holds_at(p.0, p.0, p.1));
                matrix.lemma_entry(p.0, p.0, p.1);
            }
            assert forall|p: (int, int)| #[trigger]
                matrix@.entries.contains_key(p) implies wanted.entries.contains_key(p) by {
                matrix.lemma_slot(p.0, p.1);
            }
            assert(matrix@.entries =~= wanted.entries);
        }
        matrix
    }
}

impl<T: Element> Conventional<T> {
    /// Convert a compressed matrix.
    ///
    /// Every position holds the value that is stored for it, or zero where
    /// nothing is stored.
    pub fn from_compressed(matrix: &Compressed<T>) -> (conventional: Self)
        requires
            matrix.is_valid(),
            matrix.rows * matrix.columns <= usize::MAX,
        ensures
            conventional.is_valid(),
            conventional@ == matrix@.to_dense(),
    {
        let (rows, columns) = (matrix.rows, matrix.columns);
        let mut conventional = Conventional::new((rows, columns));
        let major_dimension = match matrix.format {
            Format::Column => columns,
            Format::Row => rows,
        };
        proof {
            assert forall|row: int, column: int|
                0 <= row < rows && 0 <= column < columns implies #[trigger] conventional.values@[flat_index(
                row,
                column,
                rows as int,
            )] == T::zero_spec() by {
                lemma_flat_index_bounds(row, column, rows as int, columns as int);
            }
        }
        let mut major: usize = 0;
        while major < major_dimension
            invariant
                matrix.is_valid(),
                rows * columns <= usize::MAX,
                rows == matrix.rows,
                columns == matrix.columns,
                major_dimension == matrix.major_dimension(),
                major <= major_dimension,
                conventional.rows == rows,
                conventional.columns == columns,
                conventional.values@.len() == rows * columns,
                forall|row: int, column: int|
                    0 <= row < rows && 0 <= column < columns
                        ==> #[trigger] conventional.values@[flat_index(row, column, rows as int)]
                        == if matrix.contains(row, column) && matrix.slot_of(row, column)
                        < matrix.offsets@[major as int] {
                        matrix.values@[matrix.slot_of(row, column)]
                    } else {
                        T::zero_spec()
                    },
            decreases major_dimension - major,
        {
            let until = matrix.offsets[major + 1];
            let mut k = matrix.offsets[major];
            proof {
                layout::lemma_slice_bounds(
                    matrix.offsets@,
                    matrix.major_dimension(),
                    matrix.nonzeros as int,
                    major as int,
                );
            }
            while k < until
                invariant
                    matrix.is_valid(),
                    rows * columns <= usize::MAX,
                    rows == matrix.rows,
                    columns == matrix.columns,
                    major < matrix.major_dimension(),
                    until == matrix.offsets@[major + 1],
                    matrix.offsets@[major as int] <= k <= until <= matrix.nonzeros,
                    conventional.rows == rows,
                    conventional.columns == columns,
                    conventional.values@.len() == rows * columns,
                    forall|row: int, column: int|
                        0 <= row < rows && 0 <= column < columns
                            ==> #[trigger] conventional.values@[flat_index(
                            row,
                            column,
                            rows as int,
                        )] == if matrix.contains(row, column) && matrix.slot_of(row, column) < k {
                            matrix.values@[matrix.slot_of(row, column)]
                        } else {
                            T::zero_spec()
                        },
                decreases until - k,
            {
                let minor = matrix.indices[k];
                let (row, column) = match matrix.format {
                    Format::Column => (minor, major),
                    Format::Row => (major, minor),
                };
                proof {
                    assert(matrix.holds_at(k as int, row as int, column as int));
                    matrix.lemma_entry(k as int, row as int, column as int);
                    matrix.lemma_slot(row as int, column as int);
                    layout::lemma_held_once(
                        matrix.indices@,
                        matrix.offsets@,
                        matrix.major_dimension(),
                        matrix.minor_dimension(),
                        k as int,
                        matrix.slot_of(row as int, column as int),
                        matrix.major_index(row as int, column as int),
                        matrix.minor_index(row as int, column as int),
                    );
                    lemma_flat_index_bounds(
                        row as int,
                        column as int,
                        rows as int,
                        columns as int,
                    );
                }
                let ghost before = conventional.values@;
                conventional.values[column * rows + row] = matrix.values[k];
                proof {
                    assert forall|r: int, c: int|
                        0 <= r < rows && 0 <= c < columns implies #[trigger] conventional.values@[flat_index(
                        r,
                        c,
                        rows as int,
                    )] == if matrix.contains(r, c) && matrix.slot_of(r, c) < k + 1 {
                        matrix.values@[matrix.slot_of(r, c)]
                    } else {
                        T::zero_spec()
                    } by {
                        lemma_flat_index_bounds(r, c, rows as int, columns as int);
                        if flat_index(r, c, rows as int) == flat_index(
                            row as int,
                            column as int,
                            rows as int,
                        ) {
                            lemma_flat_index_once(r, c, row as int, column as int, rows as int);
                        } else {
                            assert(conventional.values@[flat_index(r, c, rows as int)]
                                == before[flat_index(r, c, rows as int)]);
                            if matrix.contains(r, c) && matrix.slot_of(r, c) == k {
                                matrix.lemma_position_once(
                                    k as int,
                                    row as int,
                                    column as int,
                                    r,
                                    c,
                                );
                            }
                        }
                    }
                }
                k += 1;
            }
            major += 1;
        }
        proof {
            assert forall|a: int| 0 <= a < rows * columns implies #[trigger] conventional.values@[a]
                == matrix@.to_dense().values[a] by {
                lemma_flat_index_joins(a, rows as int, columns as int);
                let row = a % (rows as int);
                let column = a / (rows as int);
                assert(conventional.values@[flat_index(row, column, rows as int)]
                    == conventional.values@[a]);
                if matrix.contains(row, column) {
                    matrix.lemma_slot(row, column);
                    matrix.lemma_entry(matrix.slot_of(row, column), row, column);
                }
            }
            assert(conventional.values@ =~= matrix@.to_dense().values);
        }
        conventional
    }
}

} // verus!
