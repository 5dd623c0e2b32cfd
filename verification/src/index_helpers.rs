//! The arithmetic of the grid: cells are numbered 0 to 80, row by row.

use vstd::prelude::*;

verus! {

/// The row of cell `i`.
pub open spec fn row_of(i: int) -> int {
    i / 9
}

/// The column of cell `i`.
pub open spec fn column_of(i: int) -> int {
    i % 9
}

/// The box of cell `i`; boxes are numbered row by row as well.
pub open spec fn box_of(i: int) -> int {
    (i / 9 / 3) * 3 + (i % 9) / 3
}

/// The `k`-th cell of a row, from left to right.
pub open spec fn row_cell(row: int, k: int) -> int {
    row * 9 + k
}

/// The `k`-th cell of a column, from top to bottom.
pub open spec fn column_cell(col: int, k: int) -> int {
    k * 9 + col
}

/// The `k`-th cell of a box, row by row within the box.
pub open spec fn box_cell(b: int, k: int) -> int {
    ((b / 3) * 3 + k / 3) * 9 + (b % 3) * 3 + k % 3
}

/// The cell in row `row` and column `col`.
pub fn to_index(row: usize, col: usize) -> (i: usize)
    requires
        row * 9 + col <= usize::MAX,
    ensures
        i == row * 9 + col,
{
    (row * 9) + col
}

/// The row, the column and the box of a cell.
pub type IndexTuple = (usize, usize, usize);

/// The row, the column and the box of cell `i`.
pub fn get_index_tuple(i: usize) -> (t: IndexTuple)
    ensures
        t.0 == row_of(i as int),
        t.1 == column_of(i as int),
        t.2 == box_of(i as int),
{
    let row_i = i / 9;
    let col_i = i % 9;
    let box_i = ((row_i / 3) * 3) + (col_i / 3);
    (row_i, col_i, box_i)
}

} // verus!
