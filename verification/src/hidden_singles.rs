//! Hidden singles: a digit that only one cell of a group can take is
//! settled there.

use vstd::prelude::*;
use crate::bits::{
    digit_count, group_bits, has_bit, lemma_digit_mask, lemma_lowest_bit, lemma_lowest_bit_is,
    lemma_mask_bounds, lowest_bit, lowest_bit_index, ALL_CAND, SOLVED,
};
use crate::candidate_set::CandidateSet;
use crate::index::{lemma_cell_in_group, ALL_GROUPINGS};
use crate::progress::{
    cell_shrunk, count_cells, digit_total, lemma_cell_digits, lemma_count_bounds,
    lemma_count_gain, lemma_fewer, lemma_never_more, lemma_shrunk_trans, shrunk,
};
use crate::sudoku::{grid_ok, lemma_grid_len, nth_group, single, Sudoku};

verus! {

broadcast use {group_bits, lemma_never_more, lemma_grid_len};

/// The number of the first `n` of `cells` that hold digit `d`.
pub open spec fn holders(g: Seq<usize>, cells: Seq<int>, n: int, d: nat) -> nat
    decreases n,
{
    if n <= 0 {
        0
    } else {
        holders(g, cells, n - 1, d) + if has_bit(g[cells[n - 1]], d) {
            1nat
        } else {
            0nat
        }
    }
}

/// The last of the first `n` of `cells` that holds digit `d`; cell 0 if
/// none does.
pub open spec fn last_holder(g: Seq<usize>, cells: Seq<int>, n: int, d: nat) -> int
    decreases n,
{
    if n <= 0 {
        0
    } else if has_bit(g[cells[n - 1]], d) {
        cells[n - 1]
    } else {
        last_holder(g, cells, n - 1, d)
    }
}

/// The grid after the digits below `n` have been looked at in one group,
/// and the number of cells settled: a digit that exactly one cell of the
/// group holds in `g` is settled in that cell, unless the cell has a
/// single candidate by then.
pub open spec fn hidden_in_group(g: Seq<usize>, cells: Seq<int>, n: nat) -> (Seq<usize>, nat)
    decreases n,
{
    if n == 0 {
        (g, 0)
    } else {
        let d = (n - 1) as nat;
        let (cur, found) = hidden_in_group(g, cells, d);
        let c = last_holder(g, cells, 9, d);
        if holders(g, cells, 9, d) == 1 && !single(cur[c]) {
            (cur.update(c, (1usize << (d as usize)) | SOLVED), found + 1)
        } else {
            (cur, found)
        }
    }
}

/// The grid after the first `n` groups have been looked at, rows first,
/// then columns, then boxes, each on the grid as the groups before left
/// it; and the number of cells settled.
pub open spec fn hidden_upto(g: Seq<usize>, n: nat) -> (Seq<usize>, nat)
    decreases n,
{
    if n == 0 {
        (g, 0)
    } else {
        let (cur, found) = hidden_upto(g, (n - 1) as nat);
        let (next, more) = hidden_in_group(cur, nth_group(n - 1), 9);
        (next, found + more)
    }
}

/// The last holder is one of the cells, where there is a holder.
pub proof fn lemma_last_holder(g: Seq<usize>, cells: Seq<int>, n: int, d: nat)
    requires
        0 <= n <= cells.len(),
    ensures
        holders(g, cells, n, d) <= n,
        holders(g, cells, n, d) > 0 ==> has_bit(g[last_holder(g, cells, n, d)], d) && exists|
            k: int,
        |
            0 <= k < n && #[trigger] cells[k] == last_holder(g, cells, n, d),
        holders(g, cells, n, d) == 0 ==> last_holder(g, cells, n, d) == 0,
    decreases n,
{
    if n > 0 {
        lemma_last_holder(g, cells, n - 1, d);
        if has_bit(g[cells[n - 1]], d) {
            assert(cells[n - 1] == last_holder(g, cells, n, d));
        } else if holders(g, cells, n, d) > 0 {
            let k = choose|k: int|
                0 <= k < n - 1 && #[trigger] cells[k] == last_holder(g, cells, n - 1, d);
            assert(cells[k] == last_holder(g, cells, n, d));
        }
    }
}

/// Looking at one group shrinks the grid; it changes the grid exactly if
/// it settles a cell; and a cell that it changed has a single candidate.
pub proof fn lemma_hidden_in_group(g: Seq<usize>, cells: Seq<int>, n: nat)
    requires
        grid_ok(g),
        cells.len() == 9,
        forall|k: int| 0 <= k < 9 ==> 0 <= #[trigger] cells[k] < 81,
        n <= 9,
    ensures
        grid_ok(hidden_in_group(g, cells, n).0),
        shrunk(g, hidden_in_group(g, cells, n).0),
        hidden_in_group(g, cells, n).1 <= n,
        hidden_in_group(g, cells, n).1 == 0 <==> hidden_in_group(g, cells, n).0 == g,
        forall|i: int|
            0 <= i < 81 ==> #[trigger] hidden_in_group(g, cells, n).0[i] == g[i] || single(
                hidden_in_group(g, cells, n).0[i],
            ),
    decreases n,
{
    if n > 0 {
        let d = (n - 1) as nat;
        lemma_hidden_in_group(g, cells, d);
        let (cur, found) = hidden_in_group(g, cells, d);
        let c = last_holder(g, cells, 9, d);
        lemma_last_holder(g, cells, 9, d);
        if holders(g, cells, 9, d) == 1 && !single(cur[c]) {
            let k = choose|k: int| 0 <= k < 9 && #[trigger] cells[k] == c;
            assert(0 <= cells[k] < 81);
            let v = (1usize << (d as usize)) | SOLVED;
            lemma_digit_mask(d as usize);
            let next = cur.update(c, v);
            assert(cur[c] == g[c]);
            assert(has_bit(g[c], d));
            assert(cell_shrunk(g[c], v)) by {
                assert forall|e: nat| e < 9 && has_bit(v, e) implies has_bit(g[c], e) by {}
                lemma_cell_digits(g[c], v);
                assert(digit_count(g[c]) >= 1);
            }
            assert(shrunk(g, next));
            assert(next[c] != g[c]);
        }
    }
}

/// The last holder lies on the grid.
pub proof fn lemma_last_holder_on_grid(g: Seq<usize>, cells: Seq<int>, n: int, d: nat)
    requires
        0 <= n <= cells.len(),
        forall|k: int| 0 <= k < cells.len() ==> 0 <= #[trigger] cells[k] < 81,
    ensures
        0 <= last_holder(g, cells, n, d) < 81,
    decreases n,
{
    if n > 0 {
        lemma_last_holder_on_grid(g, cells, n - 1, d);
    }
}

/// What looking at digit `d` does, after the digits below it.
proof fn lemma_hidden_step(g: Seq<usize>, cells: Seq<int>, d: nat)
    requires
        grid_ok(g),
        cells.len() == 9,
        forall|k: int| 0 <= k < 9 ==> 0 <= #[trigger] cells[k] < 81,
        d < 9,
    ensures
        0 <= last_holder(g, cells, 9, d) < 81,
        grid_ok(hidden_in_group(g, cells, d).0),
        hidden_in_group(g, cells, d).1 <= d,
        hidden_in_group(g, cells, d + 1) == (if holders(g, cells, 9, d) == 1 && !single(
            hidden_in_group(g, cells, d).0[last_holder(g, cells, 9, d)],
        ) {
            (
                hidden_in_group(g, cells, d).0.update(
                    last_holder(g, cells, 9, d),
                    (1usize << (d as usize)) | SOLVED,
                ),
                hidden_in_group(g, cells, d).1 + 1,
            )
        } else {
            hidden_in_group(g, cells, d)
        }),
{
    lemma_hidden_in_group(g, cells, d);
    lemma_last_holder_on_grid(g, cells, 9, d);
    assert((d + 1 - 1) as nat == d);
}

/// Looking for hidden singles shrinks the grid, and changes it exactly
/// if it settles a cell.
pub proof fn lemma_hidden_upto(g: Seq<usize>, n: nat)
    requires
        grid_ok(g),
        n <= 27,
    ensures
        grid_ok(hidden_upto(g, n).0),
        shrunk(g, hidden_upto(g, n).0),
        hidden_upto(g, n).1 <= 9 * n,
        hidden_upto(g, n).1 == 0 <==> hidden_upto(g, n).0 == g,
    decreases n,
{
    if n > 0 {
        let m = (n - 1) as nat;
        lemma_hidden_upto(g, m);
        let (cur, found) = hidden_upto(g, m);
        let cells = nth_group(n - 1);
        assert forall|k: int| 0 <= k < 9 implies 0 <= #[trigger] cells[k] < 81 by {
            lemma_cell_in_group(ALL_GROUPINGS[(n - 1) / 9], (n - 1) % 9, k);
        }
        lemma_hidden_in_group(cur, cells, 9);
        let (next, more) = hidden_in_group(cur, cells, 9);
        lemma_shrunk_trans(g, cur, next);
        if next == g && cur != g {
            // A cell that the groups before changed cannot have come back.
            let i = choose|i: int| 0 <= i < 81 && cur[i] != g[i];
            assert(cur =~= g) by {
                assert forall|i: int| 0 <= i < 81 implies cur[i] == g[i] by {
                    assert(cell_shrunk(g[i], cur[i]));
                    assert(cell_shrunk(cur[i], next[i]));
                }
            }
        }
    }
}

/// Whether, when group `n` was looked at, cell `i` of that group was the
/// only one of its cells to hold digit `d`.
pub open spec fn lone_in(g: Seq<usize>, n: nat, i: int, d: nat) -> bool {
    &&& n < 27
    &&& holders(hidden_upto(g, n).0, nth_group(n as int), 9, d) == 1
    &&& last_holder(hidden_upto(g, n).0, nth_group(n as int), 9, d) == i
}

/// Whether cell `i` of `r` is cell `i` of `g` settled as a hidden single
/// of one of the first `m` groups: the cell had more or fewer candidates
/// than one, among them a digit that no other cell of the group held when
/// the group was looked at, and is now settled to that digit.
pub open spec fn settled_by(g: Seq<usize>, r: Seq<usize>, i: int, m: nat) -> bool {
    exists|n: nat, d: nat|
        n < m && d < 9 && #[trigger] lone_in(g, n, i, d) && has_bit(g[i], d) && !single(g[i])
            && r[i] == ((1usize << (d as usize)) | SOLVED)
}

/// Whether cell `i` differs between two grids.
pub open spec fn changed_at(g: Seq<usize>, r: Seq<usize>) -> spec_fn(int) -> bool {
    |i: int| r[i] != g[i]
}

/// Whether every cell of `r` is as in `g` or settled as a hidden single of
/// one of the first `m` groups.
pub open spec fn hidden_shape(g: Seq<usize>, r: Seq<usize>, m: nat) -> bool {
    forall|i: int| 0 <= i < 81 ==> #[trigger] r[i] == g[i] || settled_by(g, r, i, m)
}

/// What the digits below `k` of group `n` add to the shape: every cell is
/// as at the start or settled as a hidden single, and as many more cells
/// differ from the start as the group has settled.
proof fn lemma_hidden_group_shape(g: Seq<usize>, n: nat, k: nat)
    requires
        grid_ok(g),
        n < 27,
        k <= 9,
        hidden_shape(g, hidden_upto(g, n).0, n),
    ensures
        hidden_shape(g, hidden_in_group(hidden_upto(g, n).0, nth_group(n as int), k).0, n + 1),
        count_cells(
            changed_at(g, hidden_in_group(hidden_upto(g, n).0, nth_group(n as int), k).0),
            81,
        ) == count_cells(changed_at(g, hidden_upto(g, n).0), 81) + hidden_in_group(
            hidden_upto(g, n).0,
            nth_group(n as int),
            k,
        ).1,
    decreases k,
{
    let cur = hidden_upto(g, n).0;
    let cells = nth_group(n as int);
    lemma_hidden_upto(g, n);
    assert forall|j: int| 0 <= j < 9 implies 0 <= #[trigger] cells[j] < 81 by {
        lemma_cell_in_group(ALL_GROUPINGS[n as int / 9], n as int % 9, j);
    }
    if k == 0 {
        assert forall|i: int| 0 <= i < 81 implies #[trigger] cur[i] == g[i] || settled_by(
            g,
            cur,
            i,
            n + 1,
        ) by {
            if cur[i] != g[i] {
                lemma_settled_on(g, cur, cur, i, n, n + 1);
            }
        }
    } else {
        let d = (k - 1) as nat;
        lemma_hidden_group_shape(g, n, d);
        lemma_hidden_step(cur, cells, d);
        lemma_hidden_in_group(cur, cells, d);
        lemma_last_holder(cur, cells, 9, d);
        let prev = hidden_in_group(cur, cells, d).0;
        let next = hidden_in_group(cur, cells, k).0;
        let c = last_holder(cur, cells, 9, d);
        if holders(cur, cells, 9, d) == 1 && !single(prev[c]) {
            let v = (1usize << (d as usize)) | SOLVED;
            lemma_digit_mask(d as usize);
            assert(next == prev.update(c, v));
            assert(prev[c] == cur[c]);
            assert(cur[c] == g[c]) by {
                if cur[c] != g[c] {
                    let (n0, d0) = choose|n0: nat, d0: nat|
                        n0 < n && d0 < 9 && #[trigger] lone_in(g, n0, c, d0) && has_bit(g[c], d0)
                            && !single(g[c]) && cur[c] == ((1usize << (d0 as usize)) | SOLVED);
                    lemma_digit_mask(d0 as usize);
                }
            }
            assert(lone_in(g, n, c, d));
            assert(settled_by(g, next, c, n + 1));
            assert forall|i: int| 0 <= i < 81 implies #[trigger] next[i] == g[i] || settled_by(
                g,
                next,
                i,
                n + 1,
            ) by {
                if i != c && next[i] != g[i] {
                    lemma_settled_on(g, prev, next, i, n + 1, n + 1);
                }
            }
            lemma_count_gain(changed_at(g, prev), changed_at(g, next), 81, c);
        }
    }
}

/// A cell settled as a hidden single stays so in a grid that holds the
/// same in that cell, and for any later group.
proof fn lemma_settled_on(g: Seq<usize>, r: Seq<usize>, t: Seq<usize>, i: int, m: nat, to: nat)
    requires
        settled_by(g, r, i, m),
        t[i] == r[i],
        m <= to,
    ensures
        settled_by(g, t, i, to),
{
    let (n, d) = choose|n: nat, d: nat|
        n < m && d < 9 && #[trigger] lone_in(g, n, i, d) && has_bit(g[i], d) && !single(g[i])
            && r[i] == ((1usize << (d as usize)) | SOLVED);
    assert(lone_in(g, n, i, d));
}

/// The shape of what hidden singles change: every cell is as before or
/// settled to a digit that it held and that, when its group was looked
/// at, no other cell of the group held; and the count is the number of
/// cells that changed.
pub proof fn lemma_hidden_shape(g: Seq<usize>, m: nat)
    requires
        grid_ok(g),
        m <= 27,
    ensures
        hidden_shape(g, hidden_upto(g, m).0, m),
        hidden_upto(g, m).1 == count_cells(changed_at(g, hidden_upto(g, m).0), 81),
    decreases m,
{
    if m == 0 {
        lemma_count_bounds(changed_at(g, g), 81);
    } else {
        let n = (m - 1) as nat;
        lemma_hidden_shape(g, n);
        lemma_hidden_group_shape(g, n, 9);
    }
}

/// Hidden singles that settle a cell leave fewer candidates on the grid:
/// the cell had more than the one that it is settled to.
pub proof fn lemma_hidden_strikes(g: Seq<usize>)
    requires
        grid_ok(g),
        hidden_upto(g, 27).1 > 0,
    ensures
        digit_total(hidden_upto(g, 27).0, 81) < digit_total(g, 81),
{
    let r = hidden_upto(g, 27).0;
    lemma_hidden_upto(g, 27);
    lemma_hidden_shape(g, 27);
    lemma_count_bounds(changed_at(g, r), 81);
    let i = choose|i: int| 0 <= i < 81 && #[trigger] changed_at(g, r)(i);
    assert(r[i] == g[i] || settled_by(g, r, i, 27));
    let (n, d) = choose|n: nat, d: nat|
        n < 27 && d < 9 && #[trigger] lone_in(g, n, i, d) && has_bit(g[i], d) && !single(g[i])
            && r[i] == ((1usize << (d as usize)) | SOLVED);
    lemma_digit_mask(d as usize);
    if forall|e: nat| e < 9 && has_bit(g[i], e) ==> has_bit(r[i], e) {
        assert forall|e: nat| e < 9 && has_bit(g[i], e) implies e == d by {}
        lemma_cell_digits(r[i], g[i]);
    }
    lemma_fewer(g, r, 81, i);
}

/// The search for hidden singles on a grid.
pub trait HiddenSingles {
    fn find_hidden(&mut self) -> usize;
}

impl HiddenSingles for Sudoku {
    /// Looks at every row, then every column, then every box, and settles
    /// each digit that only one cell of the group holds in that cell,
    /// unless the cell has a single candidate already.  Returns the number
    /// of cells settled.
    fn find_hidden(&mut self) -> (solved: usize)
        ensures
            final(self)@ == hidden_upto(old(self)@, 27).0,
            solved == hidden_upto(old(self)@, 27).1,
            solved == 0 <==> final(self)@ == old(self)@,
            solved == count_cells(changed_at(old(self)@, final(self)@), 81),
            hidden_shape(old(self)@, final(self)@, 27),
            shrunk(old(self)@, final(self)@),
            digit_total(final(self)@, 81) <= digit_total(old(self)@, 81),
    {
        let mut solved: usize = 0;
        self.well_formed();
        let mut n: usize = 0;
        // For all the kinds of group, for group 0 to 8 of each.
        while n < 27
            invariant
                n <= 27,
                grid_ok(old(self)@),
                self@ == hidden_upto(old(self)@, n as nat).0,
                solved == hidden_upto(old(self)@, n as nat).1,
            decreases 27 - n,
        {
            let g = ALL_GROUPINGS[n / 9];
            let g_idx = n % 9;
            let ghost start = self@;
            let ghost cells = nth_group(n as int);
            proof {
                lemma_hidden_upto(old(self)@, n as nat);
                lemma_hidden_upto(old(self)@, (n + 1) as nat);
                assert forall|k: int| 0 <= k < 9 implies 0 <= #[trigger] cells[k] < 81 by {
                    lemma_cell_in_group(g, g_idx as int, k);
                }
            }
            let mut counts: [usize; 9] = [0; 9];
            let mut last_index: [usize; 9] = [0; 9];
            let mut it = g.iter(g_idx);
            loop
                invariant
                    self@ == start,
                    grid_ok(start),
                    it.cells() == cells,
                    cells.len() == 9,
                    forall|k: int| 0 <= k < 9 ==> 0 <= #[trigger] cells[k] < 81,
                    0 <= it.step() <= 9,
                    forall|d: int|
                        0 <= d < 9 ==> #[trigger] counts[d] == holders(
                            start,
                            cells,
                            it.step(),
                            d as nat,
                        ),
                    forall|d: int|
                        0 <= d < 9 ==> #[trigger] last_index[d] == last_holder(
                            start,
                            cells,
                            it.step(),
                            d as nat,
                        ),
                ensures
                    it.step() == 9,
                decreases 9 - it.step(),
            {
                let ghost k = it.step();
                let i = match it.next() {
                    None => {
                        break ;
                    },
                    Some(i) => i,
                };
                let cs = self.cell(i);
                let mut digits = cs.into_iter();
                let ghost cand = digits@;
                proof {
                    lemma_mask_bounds(cs@, ALL_CAND);
                    assert forall|d: int| 0 <= d < 9 implies #[trigger] holders(
                        start,
                        cells,
                        k,
                        d as nat,
                    ) <= 8 by {
                        lemma_last_holder(start, cells, k, d as nat);
                    }
                }
                loop
                    invariant
                        self@ == start,
                        0 <= k < 9,
                        i == cells[k],
                        0 <= i < 81,
                        cand == start[i as int] & ALL_CAND,
                        cand <= ALL_CAND,
                        digits@ <= ALL_CAND,
                        forall|d: nat| has_bit(digits@, d) ==> has_bit(cand, d),
                        forall|d: int|
                            0 <= d < 9 ==> #[trigger] holders(start, cells, k, d as nat) <= 8,
                        forall|d: int|
                            0 <= d < 9 ==> #[trigger] counts[d] == holders(
                                start,
                                cells,
                                k,
                                d as nat,
                            ) + if has_bit(cand, d as nat) && !has_bit(digits@, d as nat) {
                                1nat
                            } else {
                                0nat
                            },
                        forall|d: int|
                            0 <= d < 9 ==> #[trigger] last_index[d] == if has_bit(cand, d as nat)
                                && !has_bit(digits@, d as nat) {
                                i as int
                            } else {
                                last_holder(start, cells, k, d as nat)
                            },
                    ensures
                        digits@ == 0,
                    decreases digits@,
                {
                    let ghost left = digits@;
                    let c = match digits.next() {
                        None => {
                            break ;
                        },
                        Some(c) => c,
                    };
                    proof {
                        lemma_lowest_bit(left);
                        lemma_mask_bounds(left, ALL_CAND);
                        let t = lowest_bit(left);
                        assert(t < 9) by {
                            assert(has_bit(cand, t));
                        }
                        assert forall|e: nat| e < t implies !has_bit(c, e) by {}
                        lemma_lowest_bit_is(c, t);
                    }
                    let cc = lowest_bit_index(c);
                    counts[cc] += 1;
                    last_index[cc] = i;
                }
                proof {
                    assert forall|d: int| 0 <= d < 9 implies #[trigger] counts[d] == holders(
                        start,
                        cells,
                        k + 1,
                        d as nat,
                    ) && last_index[d] == last_holder(start, cells, k + 1, d as nat) by {
                        assert(has_bit(cand, d as nat) == has_bit(start[i as int], d as nat));
                    }
                }
            }
            let mut c_idx: usize = 0;
            let ghost found_before = solved;
            while c_idx < 9
                invariant
                    c_idx <= 9,
                    grid_ok(start),
                    cells.len() == 9,
                    forall|k: int| 0 <= k < 9 ==> 0 <= #[trigger] cells[k] < 81,
                    forall|d: int|
                        0 <= d < 9 ==> #[trigger] counts[d] == holders(start, cells, 9, d as nat),
                    forall|d: int|
                        0 <= d < 9 ==> #[trigger] last_index[d] == last_holder(
                            start,
                            cells,
                            9,
                            d as nat,
                        ),
                    self@ == hidden_in_group(start, cells, c_idx as nat).0,
                    solved == found_before + hidden_in_group(start, cells, c_idx as nat).1,
                    found_before <= 9 * 27,
                decreases 9 - c_idx,
            {
                proof {
                    lemma_hidden_step(start, cells, c_idx as nat);
                    assert(counts[c_idx as int] == holders(start, cells, 9, c_idx as nat));
                    assert(last_index[c_idx as int] == last_holder(
                        start,
                        cells,
                        9,
                        c_idx as nat,
                    ));
                }
                if counts[c_idx] == 1 {
                    let s_idx = last_index[c_idx];
                    if self.cell(s_idx).num_candidates() != 1 {
                        proof {
                            lemma_digit_mask(c_idx);
                        }
                        let mut cs = CandidateSet::new(1usize << c_idx);
                        cs.set_solved();
                        self.set_cell(s_idx, cs);
                        solved += 1;
                    }
                }
                c_idx += 1;
            }
            n += 1;
        }
        proof {
            lemma_hidden_upto(old(self)@, 27);
            lemma_hidden_shape(old(self)@, 27);
        }
        solved
    }
}

} // verus!
