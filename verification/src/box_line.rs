//! Box-line reduction: a digit that a row (or column) can only place
//! within one box is struck from the rest of that box.

use vstd::prelude::*;
use crate::bits::{
    digit_count, from_bits, group_bits, has_bit, lemma_digit_mask, lemma_lowest_bit,
    lemma_lowest_bit_is, lemma_mask_bounds, lemma_mask_ext, lemma_one_bit,
    lemma_ones_is_digit_count, lowest_bit, lowest_bit_index, ALL_CAND, MASK_LIMIT,
};
use crate::index::{lemma_cell_in_group, listed, members_outside, Grouping};
use crate::index_helpers::{box_of, get_index_tuple};
use crate::progress::{
    cell_shrunk, digit_total, lemma_cell_lost, lemma_digit_total_bound, lemma_never_more,
    lemma_shrunk, shrunk,
};
use crate::remove_mask::{lemma_struck_digit, struck, RemoveMask};
use crate::sudoku::{grid_ok, lemma_grid_len, Sudoku};

verus! {

broadcast use {group_bits, lemma_never_more, lemma_grid_len};

/// Whether one of the first `n` cells of line `idx`, a row or a column as
/// `line` says, lies in box `bx` and holds digit `d`.
pub open spec fn touches(g: Seq<usize>, line: Grouping, idx: int, d: nat, bx: nat, n: int) -> bool {
    exists|t: int|
        0 <= t < n && box_of(line.cell(idx, t)) == bx && #[trigger] has_bit(
            g[line.cell(idx, t)],
            d,
        )
}

/// The boxes in which line `idx` can place digit `d`, one bit for each
/// box.
pub open spec fn boxes_mask(g: Seq<usize>, line: Grouping, idx: int, d: nat) -> usize {
    from_bits(|bx: nat| touches(g, line, idx, d, bx, 9))
}

/// Whether line `idx` can place digit `d` in box `bx` and in no other.
pub open spec fn boxed(g: Seq<usize>, line: Grouping, idx: int, d: nat, bx: int) -> bool {
    &&& d < 9
    &&& 0 <= bx < 9
    &&& digit_count(boxes_mask(g, line, idx, d)) == 1
    &&& has_bit(boxes_mask(g, line, idx, d), bx as nat)
}

/// Cell `i` after line `idx` has been looked at for the digits below `n`:
/// a cell off the line loses each digit that the line can place in the
/// box of the cell only.
pub open spec fn lined_cell(g: Seq<usize>, line: Grouping, idx: int, n: nat, i: int) -> usize {
    if line.group_of(i) == idx {
        g[i]
    } else {
        from_bits(|d: nat| has_bit(g[i], d) && !(d < n && boxed(g, line, idx, d, box_of(i))))
    }
}

/// The grid after line `idx` has been looked at for the digits below `n`.
pub open spec fn lined(g: Seq<usize>, line: Grouping, idx: int, n: nat) -> Seq<usize> {
    Seq::new(81, |i: int| lined_cell(g, line, idx, n, i))
}

/// The lines in the order in which they are looked at: the rows, then the
/// columns.
pub open spec fn nth_line(n: int) -> Grouping {
    if n < 9 {
        Grouping::Row
    } else {
        Grouping::Column
    }
}

/// The number of candidates that looking at line `n` strikes.
pub open spec fn line_count(g: Seq<usize>, n: int) -> int {
    digit_total(g, 81) - digit_total(lined(g, nth_line(n), n % 9, 9), 81)
}

/// The first line from `from` on that strikes a candidate; 18 if none
/// does.
pub open spec fn reducing_line(g: Seq<usize>, from: int) -> int
    decreases 18 - from,
{
    if from >= 18 {
        18
    } else if line_count(g, from) > 0 {
        from
    } else {
        reducing_line(g, from + 1)
    }
}

/// The grid after box-line reduction: the first line that strikes a
/// candidate has done so, and no other.
pub open spec fn box_line_result(g: Seq<usize>) -> Seq<usize> {
    let n = reducing_line(g, 0);
    if n < 18 {
        lined(g, nth_line(n), n % 9, 9)
    } else {
        g
    }
}

/// The number of candidates that box-line reduction strikes.
pub open spec fn box_line_changes(g: Seq<usize>) -> int {
    let n = reducing_line(g, 0);
    if n < 18 {
        line_count(g, n)
    } else {
        0
    }
}

/// Looking at a line shrinks the grid, and for no digit it leaves the
/// grid as it is.
pub proof fn lemma_lined(g: Seq<usize>, line: Grouping, idx: int, n: nat)
    requires
        grid_ok(g),
    ensures
        grid_ok(lined(g, line, idx, n)),
        shrunk(g, lined(g, line, idx, n)),
        lined(g, line, idx, 0) == g,
{
    let p = lined(g, line, idx, n);
    assert forall|i: int| 0 <= i < 81 implies #[trigger] p[i] < MASK_LIMIT && cell_shrunk(
        g[i],
        p[i],
    ) by {
        if p[i] != g[i] {
            if forall|d: nat| d < 10 ==> has_bit(p[i], d) == has_bit(g[i], d) {
                lemma_mask_ext(p[i], g[i]);
            }
            let d = choose|d: nat| d < 10 && has_bit(p[i], d) != has_bit(g[i], d);
            assert(d < 9 && has_bit(g[i], d) && !has_bit(p[i], d));
            lemma_cell_lost(g[i], p[i]);
        }
    }
    let z = lined(g, line, idx, 0);
    assert forall|i: int| 0 <= i < 81 implies z[i] == g[i] by {
        assert forall|d: nat| d < 10 implies has_bit(z[i], d) == has_bit(g[i], d) by {}
        lemma_mask_ext(z[i], g[i]);
    }
    assert(z =~= g);
}

/// What looking at one more digit does: where the line places the digit
/// in box `bx` only, the digit is struck from the cells of that box off
/// the line.
proof fn lemma_line_digit(
    g: Seq<usize>,
    line: Grouping,
    idx: int,
    d: nat,
    bx: int,
    cells: Seq<usize>,
)
    requires
        grid_ok(g),
        d < 9,
        boxed(g, line, idx, d, bx),
        forall|c: int|
            #[trigger] listed(cells, c) <==> 0 <= c < 81 && box_of(c) == bx && line.group_of(c)
                != idx,
    ensures
        struck(lined(g, line, idx, d), 1usize << (d as usize), cells) == lined(
            g,
            line,
            idx,
            d + 1,
        ),
{
    let cur = lined(g, line, idx, d);
    let next = lined(g, line, idx, d + 1);
    let m = 1usize << (d as usize);
    lemma_lined(g, line, idx, d);
    assert forall|i: int| 0 <= i < 81 implies #[trigger] struck(cur, m, cells)[i] == next[i] by {
        let v = struck(cur, m, cells)[i];
        lemma_mask_bounds(cur[i], !m);
        assert(cur[i] < MASK_LIMIT);
        assert forall|e: nat| e < 10 implies has_bit(v, e) == has_bit(next[i], e) by {
            if boxed(g, line, idx, d, box_of(i)) {
                lemma_one_bit(boxes_mask(g, line, idx, d), bx as nat, box_of(i) as nat);
            }
        }
        lemma_mask_ext(v, next[i]);
    }
    assert(struck(cur, m, cells) =~= next);
}

/// Where the line places a digit in no box, or in more than one, looking
/// at the digit changes nothing.
proof fn lemma_line_skip(g: Seq<usize>, line: Grouping, idx: int, d: nat)
    requires
        grid_ok(g),
        d < 9,
        digit_count(boxes_mask(g, line, idx, d)) != 1,
    ensures
        lined(g, line, idx, d) == lined(g, line, idx, d + 1),
{
    let cur = lined(g, line, idx, d);
    let next = lined(g, line, idx, d + 1);
    assert forall|i: int| 0 <= i < 81 implies cur[i] == next[i] by {
        assert forall|e: nat| e < 10 implies has_bit(cur[i], e) == has_bit(next[i], e) by {}
        lemma_mask_ext(cur[i], next[i]);
    }
    assert(cur =~= next);
}

/// The first line that strikes lies among the lines or is 18; no line
/// before it strikes a candidate.
pub proof fn lemma_reducing_line(g: Seq<usize>, from: int)
    requires
        0 <= from <= 18,
    ensures
        from <= reducing_line(g, from) <= 18,
        forall|n: int| from <= n < reducing_line(g, from) ==> line_count(g, n) <= 0,
        reducing_line(g, from) < 18 ==> line_count(g, reducing_line(g, from)) > 0,
    decreases 18 - from,
{
    if from < 18 && line_count(g, from) <= 0 {
        lemma_reducing_line(g, from + 1);
    }
}

/// Box-line reduction shrinks the grid, and changes it exactly if it
/// strikes a candidate.
pub proof fn lemma_box_line_result(g: Seq<usize>)
    requires
        grid_ok(g),
    ensures
        grid_ok(box_line_result(g)),
        shrunk(g, box_line_result(g)),
        0 <= box_line_changes(g) <= 9 * 81,
        box_line_changes(g) == 0 <==> box_line_result(g) == g,
{
    lemma_reducing_line(g, 0);
    lemma_digit_total_bound(g, 81);
    let n = reducing_line(g, 0);
    if n < 18 {
        lemma_lined(g, nth_line(n), n % 9, 9);
        lemma_shrunk(g, lined(g, nth_line(n), n % 9, 9), 81);
    } else {
        lemma_lined(g, Grouping::Row, 0, 0);
    }
}

/// Box-line reduction that strikes a candidate leaves fewer candidates on
/// the grid.
pub proof fn lemma_box_line_strikes(g: Seq<usize>)
    requires
        grid_ok(g),
        box_line_changes(g) > 0,
    ensures
        digit_total(box_line_result(g), 81) < digit_total(g, 81),
{
    lemma_reducing_line(g, 0);
}

impl Sudoku {
    /// For each digit, the boxes in which line `idx` can place it, one bit
    /// for each box.
    pub fn box_positions(&self, line: Grouping, idx: usize) -> (val_pos: [usize; 9])
        requires
            idx < 9,
        ensures
            forall|d: int|
                0 <= d < 9 ==> #[trigger] val_pos[d] == boxes_mask(
                    self@,
                    line,
                    idx as int,
                    d as nat,
                ),
            forall|d: int| 0 <= d < 9 ==> #[trigger] val_pos[d] <= ALL_CAND,
    {
        let ghost g = self@;
        let mut val_pos: [usize; 9] = [0; 9];
        let mut it = line.iter(idx);
        let ghost cells = it.cells();
        loop
            invariant
                g == self@,
                idx < 9,
                cells == line.members(idx as int),
                it.cells() == cells,
                0 <= it.step() <= 9,
                forall|d: int| 0 <= d < 9 ==> #[trigger] val_pos[d] <= ALL_CAND,
                forall|d: int, bx: nat|
                    0 <= d < 9 && bx < 10 ==> #[trigger] has_bit(val_pos[d], bx) == touches(
                        g,
                        line,
                        idx as int,
                        d as nat,
                        bx,
                        it.step(),
                    ),
            ensures
                it.step() == 9,
            decreases 9 - it.step(),
        {
            let ghost t0 = it.step();
            let i = match it.next() {
                None => {
                    break ;
                },
                Some(i) => i,
            };
            proof {
                lemma_cell_in_group(line, idx as int, t0);
                assert(cells[t0] == line.cell(idx as int, t0));
            }
            let (_, _, box_i) = get_index_tuple(i);
            let cs = self.cell(i);
            let mut digits = cs.into_iter();
            let ghost cand = digits@;
            let ghost start = val_pos;
            proof {
                lemma_mask_bounds(cs@, ALL_CAND);
                lemma_digit_mask(box_i);
            }
            loop
                invariant
                    0 <= t0 < 9,
                    box_i < 9,
                    box_i == box_of(i as int),
                    cand == g[i as int] & ALL_CAND,
                    cand <= ALL_CAND,
                    digits@ <= ALL_CAND,
                    1usize << box_i <= ALL_CAND,
                    forall|d: nat| has_bit(digits@, d) ==> has_bit(cand, d),
                    forall|d: int| 0 <= d < 9 ==> #[trigger] start[d] <= ALL_CAND,
                    forall|d: int| 0 <= d < 9 ==> #[trigger] val_pos[d] <= ALL_CAND,
                    forall|d: int|
                        0 <= d < 9 ==> #[trigger] val_pos[d] == if has_bit(cand, d as nat)
                            && !has_bit(digits@, d as nat) {
                            start[d] | (1usize << box_i)
                        } else {
                            start[d]
                        },
                ensures
                    digits@ == 0,
                decreases digits@,
            {
                let ghost left = digits@;
                let c = match digits.next() {
                    None => {
                        break ;
                    },
                    Some(c) => c,
                };
                proof {
                    lemma_lowest_bit(left);
                    lemma_mask_bounds(left, ALL_CAND);
                    let t = lowest_bit(left);
                    assert(t < 9) by {
                        assert(has_bit(cand, t));
                    }
                    assert forall|e: nat| e < t implies !has_bit(c, e) by {}
                    lemma_lowest_bit_is(c, t);
                    lemma_mask_bounds(val_pos[t as int], 1usize << box_i);
                }
                let cc = lowest_bit_index(c);
                val_pos[cc] |= 1 << box_i;
            }
            proof {
                assert forall|d: int, bx: nat| 0 <= d < 9 && bx < 10 implies #[trigger] has_bit(
                    val_pos[d],
                    bx,
                ) == touches(g, line, idx as int, d as nat, bx, t0 + 1) by {
                    assert(has_bit(start[d], bx) == touches(
                        g,
                        line,
                        idx as int,
                        d as nat,
                        bx,
                        t0,
                    ));
                    assert(has_bit(cand, d as nat) == has_bit(g[i as int], d as nat));
                    if touches(g, line, idx as int, d as nat, bx, t0) {
                        let t = choose|t: int|
                            0 <= t < t0 && box_of(line.cell(idx as int, t)) == bx
                                && #[trigger] has_bit(g[line.cell(idx as int, t)], d as nat);
                        assert(has_bit(g[line.cell(idx as int, t)], d as nat));
                    }
                    if touches(g, line, idx as int, d as nat, bx, t0 + 1) {
                        let t = choose|t: int|
                            0 <= t < t0 + 1 && box_of(line.cell(idx as int, t)) == bx
                                && #[trigger] has_bit(g[line.cell(idx as int, t)], d as nat);
                        if t < t0 {
                            assert(has_bit(g[line.cell(idx as int, t)], d as nat));
                        }
                    }
                    if bx == box_i && has_bit(g[i as int], d as nat) {
                        assert(has_bit(g[line.cell(idx as int, t0)], d as nat));
                    }
                }
            }
        }
        proof {
            assert forall|d: int| 0 <= d < 9 implies #[trigger] val_pos[d] == boxes_mask(
                g,
                line,
                idx as int,
                d as nat,
            ) by {
                let want = boxes_mask(g, line, idx as int, d as nat);
                assert forall|bx: nat| bx < 10 implies has_bit(val_pos[d], bx) == has_bit(
                    want,
                    bx,
                ) by {}
                lemma_mask_ext(val_pos[d], want);
            }
        }
        val_pos
    }
}

/// Box-line reduction on a grid.
pub trait LineBoxReduction {
    fn box_line_reduce(&mut self) -> (usize, usize);
}

impl LineBoxReduction for Sudoku {
    /// Looks at the rows in turn, then at the columns.  A digit that the
    /// cells of the line hold within one box only is struck from the cells
    /// of that box off the line.  The first line that strikes a candidate
    /// ends the search.  Returns the number of candidates struck, and zero
    /// for the cells settled.
    fn box_line_reduce(&mut self) -> (r: (usize, usize))
        ensures
            final(self)@ == box_line_result(old(self)@),
            r.0 == box_line_changes(old(self)@),
            r.1 == 0,
            r.0 == 0 <==> final(self)@ == old(self)@,
            shrunk(old(self)@, final(self)@),
            digit_total(final(self)@, 81) <= digit_total(old(self)@, 81),
    {
        let ghost grid = self@;
        self.well_formed();
        let mut n: usize = 0;
        proof {
            lemma_lined(grid, Grouping::Row, 0, 0);
        }
        while n < 18
            invariant
                n <= 18,
                grid == old(self)@,
                self@ == grid,
                grid_ok(grid),
                shrunk(grid, grid),
                reducing_line(grid, 0) == reducing_line(grid, n as int),
            decreases 18 - n,
        {
            let g = if n < 9 {
                Grouping::Row
            } else {
                Grouping::Column
            };
            let g_idx = n % 9;
            let val_pos = self.box_positions(g, g_idx);
            let mut removed: usize = 0;
            let mut d: usize = 0;
            proof {
                lemma_lined(grid, g, g_idx as int, 0);
                lemma_digit_total_bound(grid, 81);
            }
            while d < 9
                invariant
                    d <= 9,
                    g_idx < 9,
                    g == nth_line(n as int),
                    grid == old(self)@,
                    grid_ok(grid),
                    digit_total(grid, 81) <= 9 * 81,
                    forall|e: int|
                        0 <= e < 9 ==> #[trigger] val_pos[e] == boxes_mask(
                            grid,
                            g,
                            g_idx as int,
                            e as nat,
                        ),
                    forall|e: int| 0 <= e < 9 ==> #[trigger] val_pos[e] <= ALL_CAND,
                    self@ == lined(grid, g, g_idx as int, d as nat),
                    removed + digit_total(self@, 81) == digit_total(grid, 81),
                decreases 9 - d,
            {
                let ghost cur = self@;
                proof {
                    lemma_ones_is_digit_count(val_pos[d as int]);
                    assert(val_pos[d as int] == boxes_mask(grid, g, g_idx as int, d as nat));
                }
                if val_pos[d].count_ones() == 1 {
                    proof {
                        lemma_lowest_bit(val_pos[d as int]);
                        let bx = lowest_bit(val_pos[d as int]);
                        if bx >= 9 {
                            crate::bits::lemma_digits_only(val_pos[d as int], bx);
                        }
                    }
                    let box_i = lowest_bit_index(val_pos[d]);
                    let cells = members_outside(Grouping::Box, box_i, g, g_idx);
                    proof {
                        lemma_line_digit(grid, g, g_idx as int, d as nat, box_i as int, cells@);
                        lemma_struck_digit(cur, d, cells@, 81);
                    }
                    let more = self.remove_mask(1 << d, cells);
                    removed += more;
                } else {
                    proof {
                        lemma_line_skip(grid, g, g_idx as int, d as nat);
                    }
                }
                d += 1;
            }
            proof {
                lemma_lined(grid, g, g_idx as int, 9);
                lemma_shrunk(grid, self@, 81);
                lemma_reducing_line(grid, n as int);
                lemma_reducing_line(grid, 0);
            }
            if removed > 0 {
                return (removed, 0);
            }
            proof {
                if self@ != grid {
                    assert(exists|i: int| 0 <= i < 81 && grid[i] != self@[i]) by {
                        if forall|i: int| 0 <= i < 81 ==> grid[i] == self@[i] {
                            assert(self@ =~= grid);
                        }
                    }
                    lemma_stuck_total(grid, self@);
                }
            }
            n += 1;
        }
        (0, 0)
    }
}

/// A grid that shrank without losing a candidate has not changed: the
/// techniques that strike candidates touch no flag.
proof fn lemma_stuck_total(g: Seq<usize>, p: Seq<usize>)
    requires
        grid_ok(g),
        grid_ok(p),
        shrunk(g, p),
        forall|i: int| 0 <= i < 81 ==> has_bit(#[trigger] p[i], 9) == has_bit(g[i], 9),
        digit_total(p, 81) == digit_total(g, 81),
    ensures
        p == g,
{
    lemma_same_total(g, p, 81);
    assert(p =~= g);
}

/// Cells that only lost candidates, and none in total, are as they were.
proof fn lemma_same_total(g: Seq<usize>, p: Seq<usize>, n: int)
    requires
        grid_ok(g),
        grid_ok(p),
        shrunk(g, p),
        0 <= n <= 81,
        forall|i: int| 0 <= i < 81 ==> has_bit(#[trigger] p[i], 9) == has_bit(g[i], 9),
        digit_total(p, n) >= digit_total(g, n),
    ensures
        forall|i: int| 0 <= i < n ==> p[i] == g[i],
    decreases n,
{
    if n > 0 {
        lemma_shrunk(g, p, n - 1);
        assert(cell_shrunk(g[n - 1], p[n - 1]));
        crate::progress::lemma_cell_digits(g[n - 1], p[n - 1]);
        lemma_same_total(g, p, n - 1);
        let a = g[n - 1];
        let b = p[n - 1];
        if a != b {
            if forall|d: nat| d < 9 ==> has_bit(b, d) == has_bit(a, d) {
                assert forall|d: nat| d < 10 implies has_bit(b, d) == has_bit(a, d) by {}
                lemma_mask_ext(a, b);
            }
            let d = choose|d: nat| d < 9 && has_bit(b, d) != has_bit(a, d);
            assert(has_bit(a, d) && !has_bit(b, d));
        }
    }
}

} // verus!
