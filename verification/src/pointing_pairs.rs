//! Pointing pairs and triples: a digit that a box can only place in one of
//! its rows (or columns) is struck from the rest of that row (or column).

use vstd::prelude::*;
use crate::bits::{
    digit_count, from_bits, group_bits, has_bit, lemma_mask_bounds, lemma_mask_ext,
    lemma_ones_is_digit_count, lemma_strike, ones, ALL_CAND, MASK_LIMIT,
};
use crate::index::{listed, members_outside, Grouping};
use crate::index_helpers::{box_cell, box_of, column_of, get_index_tuple, row_of};
use crate::progress::{
    count_cells, digit_total, lemma_count_bounds, lemma_count_split, lemma_fewer,
    lemma_never_more, shrunk,
};
use crate::remove_mask::{hit, struck, RemoveMask};
use crate::sudoku::{flagged, grid_ok, lemma_grid_len, Sudoku};

verus! {

broadcast use {group_bits, lemma_never_more, lemma_grid_len};

/// Whether one of the first `n` cells of box `b` lies in line `k` (0 to 2)
/// of the box, rows or columns as `line` says, is not settled, and holds
/// bit `d`.
pub open spec fn in_line(g: Seq<usize>, b: int, line: Grouping, k: int, d: nat, n: int) -> bool {
    exists|t: int|
        0 <= t < n && line.group_of(box_cell(b, t)) == line.group_of(box_cell(b, 0)) + k
            && !flagged(g[box_cell(b, t)]) && #[trigger] has_bit(g[box_cell(b, t)], d)
}

/// Whether box `b` can place bit `d` in its line `k` and in no other of
/// its lines of that kind.
pub open spec fn confined(g: Seq<usize>, b: int, line: Grouping, k: int, d: nat) -> bool {
    &&& in_line(g, b, line, k, d, 9)
    &&& forall|other: int| 0 <= other < 3 && other != k ==> !in_line(g, b, line, other, d, 9)
}

/// The bits that box `b` confines to its line `k`.
pub open spec fn only_mask(g: Seq<usize>, b: int, line: Grouping, k: int) -> usize {
    from_bits(|d: nat| confined(g, b, line, k, d))
}

/// Whether cell `i` lies outside box `b` in one of the first `n` lines of
/// the box.
pub open spec fn beside(b: int, line: Grouping, n: int, i: int) -> bool {
    &&& 0 <= i < 81
    &&& box_of(i) != b
    &&& 0 <= line.group_of(i) - line.group_of(box_cell(b, 0)) < n
}

/// Cell `i` after box `b` has pointed along its first `rows` rows and its
/// first `cols` columns: a cell outside the box in one of these lines
/// loses the bits that the box confines to that line.
pub open spec fn pointed_cell(g: Seq<usize>, b: int, rows: int, cols: int, i: int) -> usize {
    if beside(b, Grouping::Row, rows, i) {
        g[i] & !only_mask(g, b, Grouping::Row, row_of(i) - row_of(box_cell(b, 0)))
    } else if beside(b, Grouping::Column, cols, i) {
        g[i] & !only_mask(g, b, Grouping::Column, column_of(i) - column_of(box_cell(b, 0)))
    } else {
        g[i]
    }
}

/// The grid after box `b` has pointed along its first `rows` rows and its
/// first `cols` columns.
pub open spec fn pointed_upto(g: Seq<usize>, b: int, rows: int, cols: int) -> Seq<usize> {
    Seq::new(81, |i: int| pointed_cell(g, b, rows, cols, i))
}

/// The grid after box `b` has pointed along all its lines.
pub open spec fn pointed(g: Seq<usize>, b: int) -> Seq<usize> {
    pointed_upto(g, b, 3, 3)
}

/// Whether pointing from box `b` along its first `rows` rows and `cols`
/// columns changes cell `i`.
pub open spec fn pointed_at(g: Seq<usize>, b: int, rows: int, cols: int) -> spec_fn(int) -> bool {
    |i: int| pointed_cell(g, b, rows, cols, i) != g[i]
}

/// The number of cells that pointing from box `b` changes.
pub open spec fn pointing_count(g: Seq<usize>, b: int) -> nat {
    count_cells(pointed_at(g, b, 3, 3), 81)
}

/// The first box from `from` on that changes a cell by pointing; 9 if
/// none does.
pub open spec fn pointing_box(g: Seq<usize>, from: int) -> int
    decreases 9 - from,
{
    if from >= 9 {
        9
    } else if pointing_count(g, from) > 0 {
        from
    } else {
        pointing_box(g, from + 1)
    }
}

/// Whether box `b` confines at most three bits to each of its lines: three
/// cells cannot take more.
pub open spec fn box_guard(g: Seq<usize>, b: int) -> bool {
    forall|k: int|
        0 <= k < 3 ==> digit_count(#[trigger] only_mask(g, b, Grouping::Row, k)) <= 3
            && digit_count(only_mask(g, b, Grouping::Column, k)) <= 3
}

/// Whether every box that pointing looks at, up to the first that changes
/// a cell, passes [`box_guard`].
pub open spec fn pointing_guard(g: Seq<usize>) -> bool {
    forall|b: int| 0 <= b < 9 && b <= pointing_box(g, 0) ==> #[trigger] box_guard(g, b)
}

/// The grid after pointing: the first box that changes a cell has
/// pointed, and no other.
pub open spec fn pointing_result(g: Seq<usize>) -> Seq<usize> {
    if pointing_box(g, 0) < 9 {
        pointed(g, pointing_box(g, 0))
    } else {
        g
    }
}

/// The number of cells that pointing changes.
pub open spec fn pointing_changes(g: Seq<usize>) -> nat {
    if pointing_box(g, 0) < 9 {
        pointing_count(g, pointing_box(g, 0))
    } else {
        0
    }
}

/// The first box that points lies on the grid or is 9; no box before it
/// changes a cell, and it does where it is a box.
pub proof fn lemma_pointing_box(g: Seq<usize>, from: int)
    requires
        0 <= from <= 9,
    ensures
        from <= pointing_box(g, from) <= 9,
        forall|b: int| from <= b < pointing_box(g, from) ==> pointing_count(g, b) == 0,
        pointing_box(g, from) < 9 ==> pointing_count(g, pointing_box(g, from)) > 0,
    decreases 9 - from,
{
    if from < 9 && pointing_count(g, from) == 0 {
        lemma_pointing_box(g, from + 1);
    }
}

/// The bits that a box confines to a line are digits: a cell that is not
/// settled holds nothing else.
pub proof fn lemma_only_mask(g: Seq<usize>, b: int, line: Grouping, k: int)
    requires
        grid_ok(g),
        0 <= b < 9,
    ensures
        only_mask(g, b, line, k) <= ALL_CAND,
{
    let m = only_mask(g, b, line, k);
    assert forall|d: nat| d < 10 implies has_bit(m, d) == has_bit(m & ALL_CAND, d) by {
        if d == 9 && has_bit(m, d) {
            assert(in_line(g, b, line, k, d, 9));
        }
    }
    lemma_mask_bounds(m, ALL_CAND);
    lemma_mask_ext(m, m & ALL_CAND);
}

/// Pointing shrinks the grid, and leaves every flag as it is.
pub proof fn lemma_pointed_shrunk(g: Seq<usize>, b: int, rows: int, cols: int)
    requires
        grid_ok(g),
        0 <= b < 9,
    ensures
        grid_ok(pointed_upto(g, b, rows, cols)),
        shrunk(g, pointed_upto(g, b, rows, cols)),
        forall|i: int|
            0 <= i < 81 ==> flagged(#[trigger] pointed_upto(g, b, rows, cols)[i]) == flagged(g[i]),
{
    let p = pointed_upto(g, b, rows, cols);
    assert forall|i: int| 0 <= i < 81 implies #[trigger] p[i] < MASK_LIMIT
        && crate::progress::cell_shrunk(g[i], p[i]) && flagged(p[i]) == flagged(g[i]) by {
        let kr = row_of(i) - row_of(box_cell(b, 0));
        let kc = column_of(i) - column_of(box_cell(b, 0));
        lemma_only_mask(g, b, Grouping::Row, kr);
        lemma_only_mask(g, b, Grouping::Column, kc);
        crate::remove_mask::lemma_struck_cell(g[i], only_mask(g, b, Grouping::Row, kr));
        crate::remove_mask::lemma_struck_cell(g[i], only_mask(g, b, Grouping::Column, kc));
        lemma_strike(g[i], only_mask(g, b, Grouping::Row, kr));
        lemma_strike(g[i], only_mask(g, b, Grouping::Column, kc));
        crate::bits::lemma_digits_only(only_mask(g, b, Grouping::Row, kr), 9);
        crate::bits::lemma_digits_only(only_mask(g, b, Grouping::Column, kc), 9);
    }
}

/// Pointing shrinks the grid, and changes it exactly if it changes a
/// cell.
pub proof fn lemma_pointing_result(g: Seq<usize>)
    requires
        grid_ok(g),
    ensures
        grid_ok(pointing_result(g)),
        shrunk(g, pointing_result(g)),
        pointing_changes(g) == 0 <==> pointing_result(g) == g,
        pointing_changes(g) <= 81,
{
    lemma_pointing_box(g, 0);
    let b = pointing_box(g, 0);
    if b < 9 {
        lemma_pointed_shrunk(g, b, 3, 3);
        lemma_count_bounds(pointed_at(g, b, 3, 3), 81);
        let i = choose|i: int| 0 <= i < 81 && #[trigger] pointed_at(g, b, 3, 3)(i);
        assert(pointed(g, b)[i] != g[i]);
    } else {
        lemma_pointed_shrunk(g, 0, 0, 0);
        assert(pointed_upto(g, 0, 0, 0) =~= g);
    }
}

/// Pointing that changes a cell leaves fewer candidates on the grid.
pub proof fn lemma_pointing_strikes(g: Seq<usize>)
    requires
        grid_ok(g),
        pointing_changes(g) > 0,
    ensures
        digit_total(pointing_result(g), 81) < digit_total(g, 81),
{
    lemma_pointing_box(g, 0);
    let b = pointing_box(g, 0);
    let r = pointed_upto(g, b, 3, 3);
    lemma_pointed_shrunk(g, b, 3, 3);
    lemma_count_bounds(pointed_at(g, b, 3, 3), 81);
    let i = choose|i: int| 0 <= i < 81 && #[trigger] pointed_at(g, b, 3, 3)(i);
    assert(r[i] != g[i]);
    assert(crate::progress::cell_shrunk(g[i], r[i]));
    assert(flagged(r[i]) == flagged(g[i]));
    crate::progress::lemma_changed_lost(g[i], r[i]);
    lemma_fewer(g, r, 81, i);
}

/// Where the cells of a box lie: cell `t` of box `b` is `t / 3` rows below
/// and `t % 3` columns right of the first.
pub proof fn lemma_box_offsets(b: int, t: int)
    requires
        0 <= b < 9,
        0 <= t < 9,
    ensures
        row_of(box_cell(b, t)) - row_of(box_cell(b, 0)) == t / 3,
        column_of(box_cell(b, t)) - column_of(box_cell(b, 0)) == t % 3,
        row_of(box_cell(b, 0)) == (b / 3) * 3,
        column_of(box_cell(b, 0)) == (b % 3) * 3,
        0 <= box_cell(b, t) < 81,
{
}

/// A cell lies in a box exactly if it lies in one of the three rows and in
/// one of the three columns of the box.
pub proof fn lemma_bands(b: int, i: int)
    requires
        0 <= b < 9,
        0 <= i < 81,
    ensures
        box_of(i) == b <==> (0 <= row_of(i) - row_of(box_cell(b, 0)) < 3 && 0 <= column_of(i)
            - column_of(box_cell(b, 0)) < 3),
{
}

/// What pointing along one more row of box `b` does to cell `i`: if the
/// cell lies in that row outside the box, untouched so far, it loses the
/// bits confined to the row.
proof fn lemma_point_row(g: Seq<usize>, b: int, rows: int, cols: int, i: int)
    requires
        0 <= b < 9,
        0 <= i < 81,
        0 <= cols <= rows < 3,
    ensures
        (box_of(i) != b && row_of(i) == row_of(box_cell(b, 0)) + rows) ==> pointed_cell(
            g,
            b,
            rows,
            cols,
            i,
        ) == g[i] && pointed_cell(g, b, rows + 1, cols, i) == g[i] & !only_mask(
            g,
            b,
            Grouping::Row,
            rows,
        ),
        !(box_of(i) != b && row_of(i) == row_of(box_cell(b, 0)) + rows) ==> pointed_cell(
            g,
            b,
            rows + 1,
            cols,
            i,
        ) == pointed_cell(g, b, rows, cols, i),
{
    lemma_bands(b, i);
}

/// What pointing along one more column of box `b` does to cell `i`.
proof fn lemma_point_column(g: Seq<usize>, b: int, rows: int, cols: int, i: int)
    requires
        0 <= b < 9,
        0 <= i < 81,
        0 <= cols < 3,
        0 <= rows <= 3,
    ensures
        (box_of(i) != b && column_of(i) == column_of(box_cell(b, 0)) + cols) ==> pointed_cell(
            g,
            b,
            rows,
            cols,
            i,
        ) == g[i] && pointed_cell(g, b, rows, cols + 1, i) == g[i] & !only_mask(
            g,
            b,
            Grouping::Column,
            cols,
        ),
        !(box_of(i) != b && column_of(i) == column_of(box_cell(b, 0)) + cols) ==> pointed_cell(
            g,
            b,
            rows,
            cols + 1,
            i,
        ) == pointed_cell(g, b, rows, cols, i),
{
    lemma_bands(b, i);
}

/// What pointing along one more line of box `b` does to the grid: it
/// strikes the bits confined to that line from the cells of the line
/// outside the box, and changes as many cells more as held one of them.
proof fn lemma_point_line(
    g: Seq<usize>,
    b: int,
    rows: int,
    cols: int,
    line: Grouping,
    cells: Seq<usize>,
)
    requires
        grid_ok(g),
        0 <= b < 9,
        line != Grouping::Box,
        line == Grouping::Row ==> 0 <= cols <= rows < 3,
        line == Grouping::Column ==> 0 <= cols < 3 && 0 <= rows <= 3,
        forall|i: int|
            #[trigger] listed(cells, i) <==> 0 <= i < 81 && line.group_of(i) == line.group_of(
                box_cell(b, 0),
            ) + (if line == Grouping::Row {
                rows
            } else {
                cols
            }) && box_of(i) != b,
    ensures
        line == Grouping::Row ==> struck(
            pointed_upto(g, b, rows, cols),
            only_mask(g, b, line, rows),
            cells,
        ) == pointed_upto(g, b, rows + 1, cols) && count_cells(
            pointed_at(g, b, rows + 1, cols),
            81,
        ) == count_cells(pointed_at(g, b, rows, cols), 81) + count_cells(
            hit(pointed_upto(g, b, rows, cols), only_mask(g, b, line, rows), cells),
            81,
        ),
        line == Grouping::Column ==> struck(
            pointed_upto(g, b, rows, cols),
            only_mask(g, b, line, cols),
            cells,
        ) == pointed_upto(g, b, rows, cols + 1) && count_cells(
            pointed_at(g, b, rows, cols + 1),
            81,
        ) == count_cells(pointed_at(g, b, rows, cols), 81) + count_cells(
            hit(pointed_upto(g, b, rows, cols), only_mask(g, b, line, cols), cells),
            81,
        ),
{
    let cur = pointed_upto(g, b, rows, cols);
    let m = if line == Grouping::Row {
        only_mask(g, b, line, rows)
    } else {
        only_mask(g, b, line, cols)
    };
    let next = if line == Grouping::Row {
        pointed_upto(g, b, rows + 1, cols)
    } else {
        pointed_upto(g, b, rows, cols + 1)
    };
    let p = pointed_at(g, b, rows, cols);
    let q = hit(cur, m, cells);
    let both = if line == Grouping::Row {
        pointed_at(g, b, rows + 1, cols)
    } else {
        pointed_at(g, b, rows, cols + 1)
    };
    assert forall|i: int|
        #![trigger struck(cur, m, cells)[i]]
        #![trigger p(i)]
        #![trigger both(i)]
        0 <= i < 81 implies struck(cur, m, cells)[i] == next[i] && !(p(i) && q(i)) && both(i) == (p(
            i,
        ) || q(i)) by {
        lemma_strike(g[i], m);
        if line == Grouping::Row {
            lemma_point_row(g, b, rows, cols, i);
        } else {
            lemma_point_column(g, b, rows, cols, i);
        }
        let on_line = box_of(i) != b && line.group_of(i) == line.group_of(box_cell(b, 0)) + (if line
            == Grouping::Row {
            rows
        } else {
            cols
        });
        assert(listed(cells, i) == on_line);
        assert(cur[i] == pointed_cell(g, b, rows, cols, i));
        assert(on_line ==> cur[i] == g[i]);
        assert(struck(cur, m, cells)[i] == if on_line {
            cur[i] & !m
        } else {
            cur[i]
        });
        assert(struck(cur, m, cells)[i] == next[i]);
        assert(p(i) == (cur[i] != g[i]));
        assert(q(i) == (on_line && cur[i] & m != 0));
        assert(both(i) == (next[i] != g[i]));
    }
    assert(struck(cur, m, cells).len() == 81);
    assert(struck(cur, m, cells) =~= next);
    lemma_count_split(p, q, both, 81);
}

impl Sudoku {
    /// The bits that box `box_i` confines to each of its three rows and to
    /// each of its three columns.
    pub fn confined_masks(&self, box_i: usize) -> (r: ([usize; 3], [usize; 3]))
        requires
            box_i < 9,
        ensures
            forall|k: int|
                0 <= k < 3 ==> #[trigger] r.0[k] == only_mask(
                    self@,
                    box_i as int,
                    Grouping::Row,
                    k,
                ),
            forall|k: int|
                0 <= k < 3 ==> #[trigger] r.1[k] == only_mask(
                    self@,
                    box_i as int,
                    Grouping::Column,
                    k,
                ),
    {
        let g = Grouping::Box;
        let ghost grid = self@;
        let ghost b = box_i as int;
        let start_row = g.start_row(box_i);
        let start_col = g.start_column(box_i);
        // The candidates in each row of the box, and in each column.
        let mut row_mask: [usize; 3] = [0; 3];
        let mut col_mask: [usize; 3] = [0; 3];
        let mut it = g.iter(box_i);
        loop
            invariant
                grid == self@,
                b == box_i,
                0 <= b < 9,
                start_row == row_of(box_cell(b, 0)),
                start_col == column_of(box_cell(b, 0)),
                it.cells() == Grouping::Box.members(b),
                0 <= it.step() <= 9,
                forall|k: int| 0 <= k < 3 ==> #[trigger] row_mask[k] < MASK_LIMIT,
                forall|k: int| 0 <= k < 3 ==> #[trigger] col_mask[k] < MASK_LIMIT,
                forall|k: int, d: nat|
                    0 <= k < 3 && d < 10 ==> #[trigger] has_bit(row_mask[k], d) == in_line(
                        grid,
                        b,
                        Grouping::Row,
                        k,
                        d,
                        it.step(),
                    ),
                forall|k: int, d: nat|
                    0 <= k < 3 && d < 10 ==> #[trigger] has_bit(col_mask[k], d) == in_line(
                        grid,
                        b,
                        Grouping::Column,
                        k,
                        d,
                        it.step(),
                    ),
            ensures
                it.step() == 9,
            decreases 9 - it.step(),
        {
            let ghost t0 = it.step();
            let ghost rows0 = row_mask;
            let ghost cols0 = col_mask;
            let idx = match it.next() {
                None => {
                    break ;
                },
                Some(idx) => idx,
            };
            proof {
                lemma_box_offsets(b, t0);
                assert(Grouping::Box.members(b)[t0] == box_cell(b, t0));
                assert(idx == box_cell(b, t0));
            }
            let (row, col, _bi) = get_index_tuple(idx);
            assert(row - start_row == t0 / 3 && col - start_col == t0 % 3);
            let cs = self.cell(idx);
            // Settled cells are left to naked-single propagation.
            if !cs.is_solved() {
                let m = cs.get();
                proof {
                    lemma_mask_bounds(row_mask[row - start_row], m);
                    lemma_mask_bounds(col_mask[col - start_col], m);
                }
                row_mask[row - start_row] |= m;
                col_mask[col - start_col] |= m;
            }
            proof {
                lemma_scan_box(grid, b, Grouping::Row, t0, rows0, row_mask);
                lemma_scan_box(grid, b, Grouping::Column, t0, cols0, col_mask);
            }
        }
        let mut only_row: [usize; 3] = [0; 3];
        let mut only_col: [usize; 3] = [0; 3];
        let mut idx: usize = 0;
        while idx < 3
            invariant
                idx <= 3,
                grid == self@,
                0 <= b < 9,
                forall|k: int| 0 <= k < 3 ==> #[trigger] row_mask[k] < MASK_LIMIT,
                forall|k: int| 0 <= k < 3 ==> #[trigger] col_mask[k] < MASK_LIMIT,
                forall|k: int, d: nat|
                    0 <= k < 3 && d < 10 ==> #[trigger] has_bit(row_mask[k], d) == in_line(
                        grid,
                        b,
                        Grouping::Row,
                        k,
                        d,
                        9,
                    ),
                forall|k: int, d: nat|
                    0 <= k < 3 && d < 10 ==> #[trigger] has_bit(col_mask[k], d) == in_line(
                        grid,
                        b,
                        Grouping::Column,
                        k,
                        d,
                        9,
                    ),
                forall|k: int|
                    0 <= k < idx ==> #[trigger] only_row[k] == only_mask(
                        grid,
                        b,
                        Grouping::Row,
                        k,
                    ),
                forall|k: int|
                    0 <= k < idx ==> #[trigger] only_col[k] == only_mask(
                        grid,
                        b,
                        Grouping::Column,
                        k,
                    ),
            decreases 3 - idx,
        {
            // The candidates in the other two rows, and in the other two
            // columns.
            let row_mask_other = row_mask[(idx + 1) % 3] | row_mask[(idx + 2) % 3];
            let col_mask_other = col_mask[(idx + 1) % 3] | col_mask[(idx + 2) % 3];
            let r = row_mask[idx] & !row_mask_other;
            let c = col_mask[idx] & !col_mask_other;
            proof {
                lemma_mask_bounds(row_mask[idx as int], !row_mask_other);
                lemma_mask_bounds(col_mask[idx as int], !col_mask_other);
                lemma_only_value(grid, b, Grouping::Row, idx as int, row_mask, r);
                lemma_only_value(grid, b, Grouping::Column, idx as int, col_mask, c);
            }
            only_row[idx] = r;
            only_col[idx] = c;
            idx += 1;
        }
        (only_row, only_col)
    }
}

/// One step of the scan of a box that collects the candidates of each of
/// its lines.
proof fn lemma_scan_box(
    g: Seq<usize>,
    b: int,
    line: Grouping,
    t: int,
    before: [usize; 3],
    after: [usize; 3],
)
    requires
        0 <= b < 9,
        0 <= t < 9,
        line != Grouping::Box,
        forall|k: int, d: nat|
            0 <= k < 3 && d < 10 ==> #[trigger] has_bit(before[k], d) == in_line(
                g,
                b,
                line,
                k,
                d,
                t,
            ),
        forall|k: int|
            0 <= k < 3 && k != line.group_of(box_cell(b, t)) - line.group_of(box_cell(b, 0))
                ==> after[k] == before[k],
        0 <= line.group_of(box_cell(b, t)) - line.group_of(box_cell(b, 0)) < 3,
        after[line.group_of(box_cell(b, t)) - line.group_of(box_cell(b, 0))] == if !flagged(
            g[box_cell(b, t)],
        ) {
            before[line.group_of(box_cell(b, t)) - line.group_of(box_cell(b, 0))] | g[box_cell(
                b,
                t,
            )]
        } else {
            before[line.group_of(box_cell(b, t)) - line.group_of(box_cell(b, 0))]
        },
    ensures
        forall|k: int, d: nat|
            0 <= k < 3 && d < 10 ==> #[trigger] has_bit(after[k], d) == in_line(
                g,
                b,
                line,
                k,
                d,
                t + 1,
            ),
{
    let here = line.group_of(box_cell(b, t)) - line.group_of(box_cell(b, 0));
    assert forall|k: int, d: nat| 0 <= k < 3 && d < 10 implies #[trigger] has_bit(after[k], d)
        == in_line(g, b, line, k, d, t + 1) by {
        assert(has_bit(before[k], d) == in_line(g, b, line, k, d, t));
        if in_line(g, b, line, k, d, t) {
            let u = choose|u: int|
                0 <= u < t && line.group_of(box_cell(b, u)) == line.group_of(box_cell(b, 0)) + k
                    && !flagged(g[box_cell(b, u)]) && #[trigger] has_bit(g[box_cell(b, u)], d);
            assert(has_bit(g[box_cell(b, u)], d));
        }
        if in_line(g, b, line, k, d, t + 1) {
            let u = choose|u: int|
                0 <= u < t + 1 && line.group_of(box_cell(b, u)) == line.group_of(box_cell(b, 0))
                    + k && !flagged(g[box_cell(b, u)]) && #[trigger] has_bit(
                    g[box_cell(b, u)],
                    d,
                );
            if u < t {
                assert(has_bit(g[box_cell(b, u)], d));
            }
        }
        if k == here && !flagged(g[box_cell(b, t)]) && has_bit(g[box_cell(b, t)], d) {
            assert(has_bit(g[box_cell(b, t)], d));
        }
    }
}

/// The candidates of a line of a box, less those of the other two lines,
/// are the bits that the box confines to the line.
proof fn lemma_only_value(
    g: Seq<usize>,
    b: int,
    line: Grouping,
    k: int,
    masks: [usize; 3],
    v: usize,
)
    requires
        0 <= k < 3,
        v < MASK_LIMIT,
        forall|j: int, d: nat|
            0 <= j < 3 && d < 10 ==> #[trigger] has_bit(masks[j], d) == in_line(
                g,
                b,
                line,
                j,
                d,
                9,
            ),
        v == masks[k] & !(masks[(k + 1) % 3] | masks[(k + 2) % 3]),
    ensures
        v == only_mask(g, b, line, k),
{
    let want = only_mask(g, b, line, k);
    let k1 = (k + 1) % 3;
    let k2 = (k + 2) % 3;
    assert forall|d: nat| d < 10 implies has_bit(v, d) == has_bit(want, d) by {
        assert(has_bit(masks[k], d) == in_line(g, b, line, k, d, 9));
        assert(has_bit(masks[k1], d) == in_line(g, b, line, k1, d, 9));
        assert(has_bit(masks[k2], d) == in_line(g, b, line, k2, d, 9));
        if confined(g, b, line, k, d) {
            assert(!in_line(g, b, line, k1, d, 9));
            assert(!in_line(g, b, line, k2, d, 9));
        }
    }
    lemma_mask_ext(v, want);
}

impl Sudoku {
    /// Pointing on any grid: what [`Pointing::handle_pointing`] does where
    /// it can run; `None`, and the grid as it was, where a box that pointing
    /// looks at confines more than three bits to one line.
    pub fn try_pointing(&mut self) -> (r: Option<(usize, usize)>)
        ensures
            r.is_some() == pointing_guard(old(self)@),
            r.is_none() ==> final(self)@ == old(self)@,
            r.is_some() ==> final(self)@ == pointing_result(old(self)@),
            r.is_some() ==> r.unwrap().0 == pointing_changes(old(self)@) && r.unwrap().1 == 0,
            r.is_some() ==> (r.unwrap().0 == 0 <==> final(self)@ == old(self)@),
            shrunk(old(self)@, final(self)@),
            digit_total(final(self)@, 81) <= digit_total(old(self)@, 81),
    {
        let g = Grouping::Box;
        let ghost grid = self@;
        self.well_formed();
        proof {
            lemma_pointed_shrunk(grid, 0, 0, 0);
            assert(pointed_upto(grid, 0, 0, 0) =~= grid);
        }
        let mut box_i: usize = 0;
        while box_i < 9
            invariant
                box_i <= 9,
                g == Grouping::Box,
                grid == old(self)@,
                self@ == grid,
                grid_ok(grid),
                shrunk(grid, grid),
                pointing_box(grid, 0) == pointing_box(grid, box_i as int),
                forall|b: int| 0 <= b < box_i ==> #[trigger] box_guard(grid, b),
            decreases 9 - box_i,
        {
            let ghost b = box_i as int;
            let (only_rows, only_cols) = self.confined_masks(box_i);
            proof {
                lemma_pointing_box(grid, b);
                lemma_pointing_box(grid, 0);
                lemma_box_offsets(b, 0);
                assert forall|k: int| 0 <= k < 3 implies only_rows[k] <= ALL_CAND && ones(
                    only_rows[k] as nat,
                ) == digit_count(only_rows[k]) && only_cols[k] <= ALL_CAND && ones(
                    only_cols[k] as nat,
                ) == digit_count(only_cols[k]) by {
                    lemma_only_mask(grid, b, Grouping::Row, k);
                    lemma_only_mask(grid, b, Grouping::Column, k);
                    lemma_ones_is_digit_count(only_rows[k]);
                    lemma_ones_is_digit_count(only_cols[k]);
                }
            }
            // Three cells cannot take more than three digits.
            let mut k: usize = 0;
            while k < 3
                invariant
                    k <= 3,
                    0 <= b < 9,
                    b <= pointing_box(grid, 0),
                    grid == old(self)@,
                    self@ == grid,
                    forall|j: int|
                        0 <= j < 3 ==> #[trigger] only_rows[j] == only_mask(
                            grid,
                            b,
                            Grouping::Row,
                            j,
                        ),
                    forall|j: int|
                        0 <= j < 3 ==> #[trigger] only_cols[j] == only_mask(
                            grid,
                            b,
                            Grouping::Column,
                            j,
                        ),
                    forall|j: int|
                        0 <= j < 3 ==> ones(#[trigger] only_rows[j] as nat) == digit_count(
                            only_rows[j],
                        ) && ones(only_cols[j] as nat) == digit_count(only_cols[j]),
                    forall|j: int|
                        0 <= j < k ==> digit_count(
                            #[trigger] only_mask(grid, b, Grouping::Row, j),
                        ) <= 3 && digit_count(only_mask(grid, b, Grouping::Column, j)) <= 3,
                decreases 3 - k,
            {
                if only_rows[k].count_ones() > 3 || only_cols[k].count_ones() > 3 {
                    proof {
                        assert(only_rows[k as int] == only_mask(grid, b, Grouping::Row, k as int));
                        assert(only_cols[k as int] == only_mask(
                            grid,
                            b,
                            Grouping::Column,
                            k as int,
                        ));
                        assert(ones(only_rows[k as int] as nat) == digit_count(
                            only_rows[k as int],
                        ));
                        assert(ones(only_cols[k as int] as nat) == digit_count(
                            only_cols[k as int],
                        ));
                        assert(!box_guard(grid, b));
                    }
                    return None;
                }
                proof {
                    assert(only_rows[k as int] == only_mask(grid, b, Grouping::Row, k as int));
                    assert(only_cols[k as int] == only_mask(grid, b, Grouping::Column, k as int));
                    assert(ones(only_rows[k as int] as nat) == digit_count(only_rows[k as int]));
                    assert(ones(only_cols[k as int] as nat) == digit_count(only_cols[k as int]));
                    assert(ones(only_rows[k as int] as nat) <= 3);
                    assert(ones(only_cols[k as int] as nat) <= 3);
                    assert(digit_count(only_mask(grid, b, Grouping::Row, k as int)) <= 3);
                    assert(digit_count(only_mask(grid, b, Grouping::Column, k as int)) <= 3);
                }
                k += 1;
            }
            assert(box_guard(grid, b));
            let start_row = g.start_row(box_i);
            let start_col = g.start_column(box_i);
            proof {
                lemma_box_offsets(b, 0);
            }
            let mut changed: usize = 0;
            let mut idx: usize = 0;
            proof {
                assert(self@ =~= pointed_upto(grid, b, 0, 0));
                lemma_count_bounds(pointed_at(grid, b, 0, 0), 81);
            }
            while idx < 3
                invariant
                    idx <= 3,
                    box_i < 9,
                    b == box_i,
                    grid == old(self)@,
                    grid_ok(grid),
                    start_row == row_of(box_cell(b, 0)),
                    start_col == column_of(box_cell(b, 0)),
                    start_row + 2 < 9,
                    start_col + 2 < 9,
                    forall|j: int|
                        0 <= j < 3 ==> #[trigger] only_rows[j] == only_mask(
                            grid,
                            b,
                            Grouping::Row,
                            j,
                        ),
                    forall|j: int|
                        0 <= j < 3 ==> #[trigger] only_cols[j] == only_mask(
                            grid,
                            b,
                            Grouping::Column,
                            j,
                        ),
                    self@ == pointed_upto(grid, b, idx as int, idx as int),
                    changed == count_cells(pointed_at(grid, b, idx as int, idx as int), 81),
                decreases 3 - idx,
            {
                let only_row = only_rows[idx];
                let only_col = only_cols[idx];
                let row = start_row + idx;
                let col = start_col + idx;
                let row_cells = members_outside(Grouping::Row, row, Grouping::Box, box_i);
                proof {
                    lemma_point_line(grid, b, idx as int, idx as int, Grouping::Row, row_cells@);
                    lemma_count_bounds(pointed_at(grid, b, idx + 1, idx as int), 81);
                }
                let more = self.remove_mask(only_row, row_cells);
                changed += more;
                let col_cells = members_outside(Grouping::Column, col, Grouping::Box, box_i);
                proof {
                    lemma_point_line(grid, b, idx + 1, idx as int, Grouping::Column, col_cells@);
                    lemma_count_bounds(pointed_at(grid, b, idx + 1, idx + 1), 81);
                }
                let more = self.remove_mask(only_col, col_cells);
                changed += more;
                idx += 1;
            }
            proof {
                lemma_pointed_shrunk(grid, b, 3, 3);
                lemma_count_bounds(pointed_at(grid, b, 3, 3), 81);
            }
            if changed > 0 {
                proof {
                    assert(pointing_box(grid, 0) == b);
                    assert(pointing_guard(grid));
                    let i = choose|i: int| 0 <= i < 81 && #[trigger] pointed_at(grid, b, 3, 3)(i);
                    assert(self@[i] != grid[i]);
                }
                return Some((changed, 0));
            }
            proof {
                assert forall|i: int| 0 <= i < 81 implies self@[i] == grid[i] by {
                    assert(!pointed_at(grid, b, 3, 3)(i));
                }
                assert(self@ =~= grid);
            }
            box_i += 1;
        }
        proof {
            assert(pointing_box(grid, 9) == 9);
            assert(pointing_guard(grid));
        }
        Some((0, 0))
    }
}

/// Pointing pairs and triples on a grid.
pub trait Pointing {
    /// Whether pointing can run: no box that it looks at confines more
    /// digits to a line than the line has cells in the box.
    spec fn can_point(&self) -> bool;

    fn handle_pointing(&mut self) -> (usize, usize)
        requires
            old(self).can_point(),
    ;
}

impl Pointing for Sudoku {
    open spec fn can_point(&self) -> bool {
        pointing_guard(self@)
    }

    /// Looks at the boxes in turn.  A bit that the open cells of a box hold
    /// in one row of the box only is struck from the cells of that row
    /// outside the box, and likewise for columns.  The first box that
    /// changes a cell ends the search.  Returns the number of cells
    /// changed, and zero for the cells settled.
    fn handle_pointing(&mut self) -> (r: (usize, usize))
        ensures
            final(self)@ == pointing_result(old(self)@),
            r.0 == pointing_changes(old(self)@),
            r.1 == 0,
            r.0 == 0 <==> final(self)@ == old(self)@,
            shrunk(old(self)@, final(self)@),
            digit_total(final(self)@, 81) <= digit_total(old(self)@, 81),
    {
        match self.try_pointing() {
            Some(r) => r,
            None => vstd::pervasive::unreached(),
        }
    }
}

} // verus!
