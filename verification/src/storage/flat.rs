//! The column-major order of dense storage: the element of row `i` and
//! column `j` of a matrix with `rows` rows stands at `j * rows + i`.

use vstd::prelude::*;
use vstd::arithmetic::div_mod::{lemma_fundamental_div_mod, lemma_fundamental_div_mod_converse};

verus! {

/// The place of a position in column-major order.
pub open spec fn flat_index(row: int, column: int, rows: int) -> int {
    column * rows + row
}

/// The places of the positions of a matrix are the indices below
/// `rows * columns`.
pub proof fn lemma_flat_index_bounds(row: int, column: int, rows: int, columns: int)
    requires
        0 <= row < rows,
        0 <= column < columns,
    ensures
        0 <= column * rows,
        column * rows + rows <= rows * columns,
        0 <= flat_index(row, column, rows) < rows * columns,
        (column + 1) * rows == column * rows + rows,
{
    assert(0 <= column * rows) by (nonlinear_arith)
        requires
            0 <= column,
            0 <= rows,
    ;
    assert(column * rows + rows <= rows * columns) by (nonlinear_arith)
        requires
            0 <= column < columns,
            0 <= rows,
    ;
    assert((column + 1) * rows == column * rows + rows) by (nonlinear_arith);
}

/// Two positions with the same place are the same position.
pub proof fn lemma_flat_index_once(
    row: int,
    column: int,
    other_row: int,
    other_column: int,
    rows: int,
)
    requires
        0 <= row < rows,
        0 <= other_row < rows,
        flat_index(row, column, rows) == flat_index(other_row, other_column, rows),
    ensures
        row == other_row,
        column == other_column,
{
    assert(column == other_column) by (nonlinear_arith)
        requires
            0 <= row < rows,
            0 <= other_row < rows,
            column * rows + row == other_column * rows + other_row,
    ;
}

/// The row and the column of a place are its remainder and its quotient by
/// the number of rows.
pub proof fn lemma_flat_index_split(row: int, column: int, rows: int)
    requires
        0 <= row < rows,
    ensures
        flat_index(row, column, rows) % rows == row,
        flat_index(row, column, rows) / rows == column,
{
    lemma_fundamental_div_mod_converse(flat_index(row, column, rows), rows, column, row);
}

/// Every index below `rows * columns` is the place of a position of the
/// matrix.
pub proof fn lemma_flat_index_joins(k: int, rows: int, columns: int)
    requires
        0 <= k < rows * columns,
        0 <= columns,
    ensures
        0 < rows,
        0 <= k % rows < rows,
        0 <= k / rows < columns,
        flat_index(k % rows, k / rows, rows) == k,
{
    assert(0 < rows) by (nonlinear_arith)
        requires
            0 <= k < rows * columns,
            0 <= columns,
    ;
    lemma_fundamental_div_mod(k, rows);
    let q = k / rows;
    let r = k % rows;
    assert(rows * q == q * rows) by (nonlinear_arith);
    assert(0 <= q < columns) by (nonlinear_arith)
        requires
            0 <= r < rows,
            0 <= k < rows * columns,
            k == q * rows + r,
    ;
}

} // verus!
