//! Multiplication of compressed matrices.

use vstd::prelude::*;
use crate::algebra::{MultiplyInto, MultiplySelf};
use crate::element::{Element, Number};
use crate::storage::compressed::layout;
use crate::storage::compressed::{Compressed, Format};
use crate::storage::diagonal::Diagonal;
use crate::storage::flat::{flat_index, lemma_flat_index_bounds};

verus! {

impl<T: Element + Number> MultiplySelf<Diagonal<T>> for Compressed<T> {
    /// The receiver must have as many columns as `right` has rows. Every
    /// stored element in a column that the product keeps needs its factor
    /// from the diagonal, and the product with it must be defined. Stored by
    /// columns, the receiver needs room for one offset more than `right` has
    /// columns.
    open spec fn multiplies_with(&self, right: &Diagonal<T>) -> bool {
        &&& self.is_valid()
        &&& self.columns == right.rows
        &&& self.format == Format::Column ==> right.columns < usize::MAX
        &&& forall|row: int, column: int| #[trigger]
            self@.entries.contains_key((row, column)) && column < right.columns ==> {
                &&& column < right.values@.len()
                &&& self@.entries[(row, column)].can_mul(right.values@[column])
            }
    }

    /// The product takes the number of columns of `right`, and every
    /// stored value of column `j` that it keeps is multiplied by the `j`th
    /// value of the diagonal. No element is added to the storage.
    open spec fn is_product(&self, right: &Diagonal<T>, product: &Self) -> bool {
        &&& product.is_valid()
        &&& product@ == self@.scale_columns(right.columns as int, right.values@)
    }

    /// Multiply by a diagonal matrix from the right.
    fn multiply_self(&mut self, right: &Diagonal<T>) {
        let (m, n) = (self.rows, right.columns);
        proof {
            old(self).lemma_view_valid();
            assert(self.offsets.len() <= usize::MAX);
        }
        self.resize((m, n));
        let ghost resized = *self;
        let mut iterator = self.iter_mut();
        loop
            invariant_except_break
                iterator.is_valid(),
            invariant
                *final(iterator.matrix) == after_borrow(*self),
                resized.is_valid(),
                resized@ == old(self)@.resize(m as int, n as int),
                m == old(self).rows,
                n == right.columns,
                old(self).multiplies_with(right),
                resized.same_frame(iterator.matrix),
                iterator.matrix.nonzeros == resized.nonzeros,
                iterator.matrix.indices@ == resized.indices@,
                iterator.matrix.offsets@ == resized.offsets@,
                iterator.matrix.values@.len() == resized.values@.len(),
                iterator.taken <= resized.nonzeros,
                forall|x: int|
                    iterator.taken <= x < resized.nonzeros
                        ==> #[trigger] iterator.matrix.values@[x] == resized.values@[x],
                forall|x: int, row: int, column: int| #[trigger]
                    resized.holds_at(x, row, column) && x < iterator.taken
                        ==> iterator.matrix.values@[x] == resized.values@[x].product(
                        right.values@[column],
                    ),
            ensures
                iterator.taken == resized.nonzeros,
            decreases resized.nonzeros - iterator.taken,
        {
            let ghost k = iterator.taken as int;
            match iterator.next() {
                Some((i, j, value)) => {
                    proof {
                        assert(resized.holds_at(k, i as int, j as int));
                        resized.lemma_entry(k, i as int, j as int);
                        assert(old(self)@.entries.contains_key((i as int, j as int)));
                    }
                    *value = (*value).mul(right.values[j]);
                    proof {
                        assert forall|x: int, row: int, column: int| #[trigger]
                            resized.holds_at(x, row, column) && x < k
                                + 1 implies iterator.matrix.values@[x]
                            == resized.values@[x].product(right.values@[column]) by {
                            if x == k {
                                resized.lemma_position_once(k, i as int, j as int, row, column);
                            }
                        }
                    }
                },
                None => {
                    break ;
                },
            }
        }
        proof {
            let wanted = old(self)@.scale_columns(n as int, right.values@);
            assert forall|p: (int, int)| #[trigger]
                self@.entries.contains_key(p) implies wanted.entries.contains_key(p)
                && self@.entries[p] == wanted.entries[p] by {
                self.lemma_slot(p.0, p.1);
                let x = self.slot_of(p.0, p.1);
                self.lemma_entry(x, p.0, p.1);
                assert(resized.holds_at(x, p.0, p.1));
                resized.lemma_entry(x, p.0, p.1);
            }
            assert forall|p: (int, int)| #[trigger]
                wanted.entries.contains_key(p) implies self@.entries.contains_key(p) by {
                assert(old(self)@.entries.contains_key((p.0, p.1)));
                assert(resized@.entries.contains_key(p));
                resized.lemma_slot(p.0, p.1);
                let x = resized.slot_of(p.0, p.1);
                assert(self.holds_at(x, p.0, p.1));
                self.lemma_entry(x, p.0, p.1);
            }
            assert(self@.entries =~= wanted.entries);
        }
    }
}

impl<T: Element + Number> Compressed<T> {
    /// The number of columns of the dense matrix that holds the values
    /// `right` and has as many rows as `self` has columns.
    pub open spec fn columns_of(&self, right: &[T]) -> int {
        (right@.len() as int) / (self.columns as int)
    }
}

impl<T: Element + Number> MultiplyInto<[T], [T]> for Compressed<T> {
    /// The receiver must be stored by columns and have a column. `right`
    /// holds, in the column-major order, a matrix with as many rows as the
    /// receiver has columns, and `result` one with the rows of the receiver
    /// and the columns of `right`. Every product and sum on the way must be
    /// defined.
    open spec fn multiplies_into(&self, right: &[T], result: &[T]) -> bool {
        &&& self.is_valid()
        &&& self.format == Format::Column
        &&& self.columns > 0
        &&& (right@.len() as int) % (self.columns as int) == 0
        &&& result@.len() == self.rows * self.columns_of(right)
        &&& forall|row: int, column: int|
            0 <= row < self.rows && 0 <= column < self.columns_of(right)
                ==> #[trigger] self@.can_accumulate(
                right@,
                result@[flat_index(row, column, self.rows as int)],
                row,
                column,
                self.columns as int,
            )
    }

    /// To the element of row `i` and column `c` of `result` the products of
    /// the stored elements of row `i` with the elements of column `c` of
    /// `right` are added, in the order of the columns of the receiver. What
    /// `result` held before takes part in the sum.
    open spec fn is_sum_with_product(&self, right: &[T], result: &[T], sum: &[T]) -> bool {
        &&& sum@.len() == result@.len()
        &&& forall|row: int, column: int|
            0 <= row < self.rows && 0 <= column < self.columns_of(right)
                ==> #[trigger] sum@[flat_index(row, column, self.rows as int)]
                == self@.accumulated(
                right@,
                result@[flat_index(row, column, self.rows as int)],
                row,
                column,
                self.columns as int,
            )
    }

    /// Multiply by a dense matrix from the right and add the product to
    /// `result`.
    fn multiply_into(&self, right: &[T], result: &mut [T]) {
        let (m, p) = (self.rows, self.columns);
        let n = right.len() / p;
        proof {
            vstd::arithmetic::div_mod::lemma_fundamental_div_mod(right@.len() as int, p as int);
            assert(p * n == n * p) by (nonlinear_arith);
        }
        multiply_matrix(self, right, result, m, p, n)
    }
}

/// Add to each of the `n` columns of `c` the product of `a` with the same
/// column of `b`.
#[inline(always)]
fn multiply_matrix<T>(a: &Compressed<T>, b: &[T], c: &mut [T], m: usize, p: usize, n: usize) where
    T: Element + Number,

    requires
        a.is_valid(),
        a.format == Format::Column,
        m == a.rows,
        p == a.columns,
        b@.len() == n * p,
        old(c)@.len() == m * n,
        forall|row: int, column: int|
            0 <= row < m && 0 <= column < n ==> #[trigger] a@.can_accumulate(
                b@,
                old(c)@[flat_index(row, column, m as int)],
                row,
                column,
                p as int,
            ),
    ensures
        final(c)@.len() == old(c)@.len(),
        forall|row: int, column: int|
            0 <= row < m && 0 <= column < n ==> #[trigger] final(c)@[flat_index(
                row,
                column,
                m as int,
            )] == a@.accumulated(
                b@,
                old(c)@[flat_index(row, column, m as int)],
                row,
                column,
                p as int,
            ),
{
    let ghost right_length = b.len();
    let ghost result_length = c.len();
    let (mut i, mut j) = (0usize, 0usize);
    let mut column: usize = 0;
    while column < n
        invariant
            right_length == b@.len(),
            result_length == c@.len(),
            a.is_valid(),
            a.format == Format::Column,
            m == a.rows,
            p == a.columns,
            b@.len() == n * p,
            c@.len() == m * n,
            c@.len() == old(c)@.len(),
            column <= n,
            i == column * p,
            j == column * m,
            forall|row: int, done: int|
                0 <= row < m && 0 <= done < column ==> #[trigger] c@[flat_index(
                    row,
                    done,
                    m as int,
                )] == a@.accumulated(
                    b@,
                    old(c)@[flat_index(row, done, m as int)],
                    row,
                    done,
                    p as int,
                ),
            forall|row: int, ahead: int|
                0 <= row < m && column <= ahead < n ==> #[trigger] c@[flat_index(
                    row,
                    ahead,
                    m as int,
                )] == old(c)@[flat_index(row, ahead, m as int)],
            forall|row: int, any: int|
                0 <= row < m && 0 <= any < n ==> #[trigger] a@.can_accumulate(
                    b@,
                    old(c)@[flat_index(row, any, m as int)],
                    row,
                    any,
                    p as int,
                ),
        decreases n - column,
    {
        let ghost before = c@;
        proof {
            lemma_flat_index_bounds(0, column as int, p as int + 1, n as int);
            lemma_flat_index_bounds(0, column as int, m as int + 1, n as int);
            assert(column * p + p <= n * p) by (nonlinear_arith)
                requires
                    column < n,
                    0 <= p,
            ;
            assert(column * m + m <= m * n) by (nonlinear_arith)
                requires
                    column < n,
                    0 <= m,
            ;
            assert forall|row: int| 0 <= row < m implies #[trigger] a@.can_accumulate(
                b@,
                c@[j + row],
                row,
                column as int,
                p as int,
            ) by {
                assert(c@[flat_index(row, column as int, m as int)] == old(c)@[flat_index(
                    row,
                    column as int,
                    m as int,
                )]);
            }
        }
        multiply_vector(a, b, c, p, i, j, Ghost(column as int));
        proof {
            assert((column + 1) * p == column * p + p) by (nonlinear_arith);
            assert((column + 1) * m == column * m + m) by (nonlinear_arith);
            assert forall|row: int, done: int|
                0 <= row < m && 0 <= done < column + 1 implies #[trigger] c@[flat_index(
                row,
                done,
                m as int,
            )] == a@.accumulated(
                b@,
                old(c)@[flat_index(row, done, m as int)],
                row,
                done,
                p as int,
            ) by {
                lemma_flat_index_bounds(row, done, m as int, n as int);
                if done < column {
                    assert(done * m + m <= column * m) by (nonlinear_arith)
                        requires
                            done < column,
                            0 <= m,
                    ;
                    assert(before[flat_index(row, done, m as int)] == a@.accumulated(
                        b@,
                        old(c)@[flat_index(row, done, m as int)],
                        row,
                        done,
                        p as int,
                    ));
                } else {
                    assert(before[flat_index(row, column as int, m as int)] == old(
                        c,
                    )@[flat_index(row, column as int, m as int)]);
                }
            }
            assert forall|row: int, ahead: int|
                0 <= row < m && column + 1 <= ahead < n implies #[trigger] c@[flat_index(
                row,
                ahead,
                m as int,
            )] == old(c)@[flat_index(row, ahead, m as int)] by {
                lemma_flat_index_bounds(row, ahead, m as int, n as int);
                assert(column * m + m <= ahead * m) by (nonlinear_arith)
                    requires
                        column < ahead,
                        0 <= m,
                ;
                assert(before[flat_index(row, ahead, m as int)] == old(c)@[flat_index(
                    row,
                    ahead,
                    m as int,
                )]);
            }
        }
        i += p;
        j += m;
        column += 1;
    }
}

/// Add to the column of `c` that starts at `into` the product of `a` with
/// the column of `b` that starts at `from`.
#[inline(always)]
fn multiply_vector<T>(
    a: &Compressed<T>,
    b: &[T],
    c: &mut [T],
    p: usize,
    from: usize,
    into: usize,
    Ghost(column): Ghost<int>,
) where T: Element + Number
    requires
        a.is_valid(),
        a.format == Format::Column,
        p == a.columns,
        0 <= column,
        from == column * p,
        into == column * a.rows,
        from + p <= b@.len(),
        into + a.rows <= old(c)@.len(),
        forall|row: int|
            0 <= row < a.rows ==> #[trigger] a@.can_accumulate(
                b@,
                old(c)@[into + row],
                row,
                column,
                p as int,
            ),
    ensures
        final(c)@.len() == old(c)@.len(),
        forall|x: int|
            0 <= x < old(c)@.len() && !(into <= x < into + a.rows) ==> #[trigger] final(c)@[x]
                == old(c)@[x],
        forall|row: int|
            0 <= row < a.rows ==> #[trigger] final(c)@[into + row] == a@.accumulated(
                b@,
                old(c)@[into + row],
                row,
                column,
                p as int,
            ),
{
    let ghost right_length = b.len();
    let ghost result_length = c.len();
    let mut j: usize = 0;
    while j < p
        invariant
            right_length == b@.len(),
            result_length == c@.len(),
            a.is_valid(),
            a.format == Format::Column,
            p == a.columns,
            0 <= column,
            from == column * p,
            from + p <= b@.len(),
            into + a.rows <= c@.len(),
            c@.len() == old(c)@.len(),
            j <= p,
            forall|row: int|
                0 <= row < a.rows ==> #[trigger] a@.can_accumulate(
                    b@,
                    old(c)@[into + row],
                    row,
                    column,
                    p as int,
                ),
            forall|x: int|
                0 <= x < old(c)@.len() && !(into <= x < into + a.rows) ==> #[trigger] c@[x] == old(
                    c,
                )@[x],
            forall|row: int|
                0 <= row < a.rows ==> #[trigger] c@[into + row] == a@.accumulated(
                    b@,
                    old(c)@[into + row],
                    row,
                    column,
                    j as int,
                ),
        decreases p - j,
    {
        let until = a.offsets[j + 1];
        let mut k = a.offsets[j];
        proof {
            layout::lemma_slice_bounds(
                a.offsets@,
                a.major_dimension(),
                a.nonzeros as int,
                j as int,
            );
        }
        while k < until
            invariant
                right_length == b@.len(),
                result_length == c@.len(),
                a.is_valid(),
                a.format == Format::Column,
                p == a.columns,
                0 <= column,
                from == column * p,
                from + p <= b@.len(),
                into + a.rows <= c@.len(),
                c@.len() == old(c)@.len(),
                j < p,
                until == a.offsets@[j + 1],
                a.offsets@[j as int] <= k <= until <= a.nonzeros,
                forall|row: int|
                    0 <= row < a.rows ==> #[trigger] a@.can_accumulate(
                        b@,
                        old(c)@[into + row],
                        row,
                        column,
                        p as int,
                    ),
                forall|x: int|
                    0 <= x < old(c)@.len() && !(into <= x < into + a.rows) ==> #[trigger] c@[x]
                        == old(c)@[x],
                forall|row: int|
                    0 <= row < a.rows ==> #[trigger] c@[into + row] == a@.accumulated(
                        b@,
                        old(c)@[into + row],
                        row,
                        column,
                        if a.contains(row, j as int) && a.slot_of(row, j as int) < k {
                            j + 1
                        } else {
                            j as int
                        },
                    ),
            decreases until - k,
        {
            let i = a.indices[k];
            proof {
                assert(a.holds_at(k as int, i as int, j as int));
                a.lemma_entry(k as int, i as int, j as int);
                a.lemma_slot(i as int, j as int);
                layout::lemma_held_once(
                    a.indices@,
                    a.offsets@,
                    a.major_dimension(),
                    a.minor_dimension(),
                    k as int,
                    a.slot_of(i as int, j as int),
                    j as int,
                    i as int,
                );
                a@.lemma_can_accumulate_shorter(
                    b@,
                    old(c)@[into + i],
                    i as int,
                    column,
                    p as int,
                    j + 1,
                );
                assert(c@[into + i] == a@.accumulated(
                    b@,
                    old(c)@[into + i],
                    i as int,
                    column,
                    j as int,
                ));
            }
            let ghost before = c@;
            let current = c[into + i];
            c[into + i] = current.add(a.values[k].mul(b[from + j]));
            proof {
                assert forall|row: int| 0 <= row < a.rows implies #[trigger] c@[into + row]
                    == a@.accumulated(
                    b@,
                    old(c)@[into + row],
                    row,
                    column,
                    if a.contains(row, j as int) && a.slot_of(row, j as int) < k + 1 {
                        j + 1
                    } else {
                        j as int
                    },
                ) by {
                    if row != i {
                        assert(c@[into + row] == before[into + row]);
                        if a.contains(row, j as int) && a.slot_of(row, j as int) == k {
                            a.lemma_position_once(k as int, i as int, j as int, row, j as int);
                        }
                    }
                }
            }
            k += 1;
        }
        proof {
            assert forall|row: int| 0 <= row < a.rows implies #[trigger] c@[into + row]
                == a@.accumulated(b@, old(c)@[into + row], row, column, j + 1) by {
                if a.contains(row, j as int) {
                    a.lemma_slot(row, j as int);
                }
            }
        }
        j += 1;
    }
}

} // verus!
