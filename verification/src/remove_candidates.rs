//! Naked-single propagation: what a settled cell holds is struck from the
//! open cells of its row, its column and its box.

use vstd::prelude::*;
use crate::bits::{
    from_bits, group_bits, has_bit, lemma_mask_bounds, lemma_mask_ext, MASK_LIMIT, SOLVED,
};
use crate::candidate_set::CandidateSet;
use crate::index::Grouping;
use crate::index_helpers::{box_of, column_of, get_index_tuple, row_of};
use crate::progress::{
    cell_shrunk, count_cells, digit_total, lemma_cell_digits, lemma_cell_lost,
    lemma_count_bounds, lemma_fewer, lemma_never_more, shrunk,
};
use crate::sudoku::{flagged, grid_ok, lemma_grid_len, single, Sudoku};

verus! {

broadcast use {group_bits, lemma_never_more, lemma_grid_len};

/// Whether a cell below `n` in group `idx` of kind `grp` is settled, that
/// is, carries the solved flag, and holds bit `d`.
pub open spec fn taken_in(g: Seq<usize>, grp: Grouping, idx: int, n: int, d: nat) -> bool {
    exists|j: int|
        0 <= j < n && grp.group_of(j) == idx && flagged(g[j]) && #[trigger] has_bit(g[j], d)
}

/// Whether bit `d` is held by a settled cell in the row, the column or
/// the box of cell `i`.
pub open spec fn taken(g: Seq<usize>, i: int, d: nat) -> bool {
    ||| taken_in(g, Grouping::Row, row_of(i), 81, d)
    ||| taken_in(g, Grouping::Column, column_of(i), 81, d)
    ||| taken_in(g, Grouping::Box, box_of(i), 81, d)
}

/// Cell `i` after propagation: a settled cell stays as it is; an open
/// cell keeps the candidates that no settled cell of its row, column or
/// box holds.
pub open spec fn pruned_cell(g: Seq<usize>, i: int) -> usize {
    if flagged(g[i]) {
        g[i]
    } else {
        from_bits(|d: nat| has_bit(g[i], d) && !taken(g, i, d))
    }
}

/// The mask `v` with the solved flag set where that is asked for and `v`
/// has come down to a single candidate.
pub open spec fn settle(v: usize, set_solved: bool) -> usize {
    if set_solved && !flagged(v) && single(v) {
        v | SOLVED
    } else {
        v
    }
}

/// The grid after propagation.
pub open spec fn propagated(g: Seq<usize>, set_solved: bool) -> Seq<usize> {
    Seq::new(81, |i: int| settle(pruned_cell(g, i), set_solved))
}

/// The grid with the cells below `n` propagated and the others as they
/// were.
pub open spec fn propagated_upto(g: Seq<usize>, set_solved: bool, n: int) -> Seq<usize> {
    Seq::new(
        81,
        |i: int|
            if i < n {
                settle(pruned_cell(g, i), set_solved)
            } else {
                g[i]
            },
    )
}

/// Whether propagation takes a bit from cell `i`.
pub open spec fn pruned_at(g: Seq<usize>) -> spec_fn(int) -> bool {
    |i: int| pruned_cell(g, i) != g[i]
}

/// Whether propagation, asked to, sets the solved flag of cell `i`.
pub open spec fn settled_at(g: Seq<usize>, set_solved: bool) -> spec_fn(int) -> bool {
    |i: int| settle(pruned_cell(g, i), set_solved) != pruned_cell(g, i)
}

/// Propagation takes each cell closer to rest, or leaves it.
pub proof fn lemma_pruned_shrunk(g: Seq<usize>, i: int, set_solved: bool)
    requires
        grid_ok(g),
        0 <= i < 81,
    ensures
        pruned_cell(g, i) < MASK_LIMIT,
        settle(pruned_cell(g, i), set_solved) < MASK_LIMIT,
        cell_shrunk(g[i], settle(pruned_cell(g, i), set_solved)),
        cell_shrunk(g[i], pruned_cell(g, i)),
        pruned_cell(g, i) != g[i] ==> settle(pruned_cell(g, i), set_solved) != g[i],
{
    let a = g[i];
    let b = pruned_cell(g, i);
    let c = settle(b, set_solved);
    assert(a < MASK_LIMIT);
    lemma_mask_bounds(b, SOLVED);
    assert forall|d: nat| d < 10 && has_bit(b, d) implies has_bit(a, d) by {}
    lemma_cell_digits(a, b);
    if b != a {
        if exists|d: nat| d < 9 && has_bit(a, d) && !has_bit(b, d) {
            lemma_cell_lost(a, b);
        } else {
            // No bit has gone.
            lemma_cell_digits(b, a);
            if flagged(b) == flagged(a) {
                assert forall|d: nat| d < 10 implies has_bit(b, d) == has_bit(a, d) by {}
                lemma_mask_ext(a, b);
            }
        }
    }
    assert forall|d: nat| d < 9 && has_bit(c, d) implies has_bit(b, d) by {}
    lemma_cell_digits(b, c);
    lemma_cell_digits(c, b);
}

/// Propagation shrinks the grid.
pub proof fn lemma_propagated_shrunk(g: Seq<usize>, set_solved: bool)
    requires
        grid_ok(g),
    ensures
        grid_ok(propagated(g, set_solved)),
        shrunk(g, propagated(g, set_solved)),
{
    let p = propagated(g, set_solved);
    assert forall|i: int| 0 <= i < 81 implies #[trigger] p[i] < MASK_LIMIT && cell_shrunk(
        g[i],
        p[i],
    ) by {
        lemma_pruned_shrunk(g, i, set_solved);
    }
}

/// Propagation changes the grid exactly if it takes a bit from a cell or
/// sets a flag.
pub proof fn lemma_propagated_changes(g: Seq<usize>, set_solved: bool)
    requires
        grid_ok(g),
    ensures
        (count_cells(pruned_at(g), 81) == 0 && count_cells(settled_at(g, set_solved), 81) == 0)
            <==> propagated(g, set_solved) == g,
        !set_solved ==> count_cells(settled_at(g, set_solved), 81) == 0,
{
    let p = propagated(g, set_solved);
    lemma_count_bounds(pruned_at(g), 81);
    lemma_count_bounds(settled_at(g, set_solved), 81);
    if count_cells(pruned_at(g), 81) == 0 && count_cells(settled_at(g, set_solved), 81) == 0 {
        assert forall|j: int| 0 <= j < 81 implies p[j] == g[j] by {
            assert(!pruned_at(g)(j));
            assert(!settled_at(g, set_solved)(j));
        }
        assert(p =~= g);
    } else if count_cells(pruned_at(g), 81) > 0 {
        let j = choose|j: int| 0 <= j < 81 && #[trigger] pruned_at(g)(j);
        lemma_pruned_shrunk(g, j, set_solved);
        assert(p[j] != g[j]);
    } else {
        let j = choose|j: int| 0 <= j < 81 && #[trigger] settled_at(g, set_solved)(j);
        assert(!pruned_at(g)(j));
        assert(p[j] != g[j]);
    }
    if !set_solved {
        assert forall|j: int| 0 <= j < 81 implies !#[trigger] settled_at(g, set_solved)(j) by {}
    }
}

/// Propagation that takes a candidate from a cell leaves fewer candidates
/// on the grid.
pub proof fn lemma_propagated_strikes(g: Seq<usize>, set_solved: bool)
    requires
        grid_ok(g),
        count_cells(pruned_at(g), 81) > 0,
    ensures
        digit_total(propagated(g, set_solved), 81) < digit_total(g, 81),
{
    let p = propagated(g, set_solved);
    lemma_propagated_shrunk(g, set_solved);
    lemma_count_bounds(pruned_at(g), 81);
    let j = choose|j: int| 0 <= j < 81 && #[trigger] pruned_at(g)(j);
    lemma_pruned_shrunk(g, j, set_solved);
    lemma_propagated_flags(g, set_solved, j);
    let a = g[j];
    let b = pruned_cell(g, j);
    assert(!flagged(a));
    if forall|d: nat| d < 9 ==> has_bit(b, d) == has_bit(a, d) {
        assert forall|d: nat| d < 10 implies has_bit(b, d) == has_bit(a, d) by {}
        lemma_mask_ext(a, b);
    }
    let d = choose|d: nat| d < 9 && has_bit(b, d) != has_bit(a, d);
    assert(has_bit(a, d) && !has_bit(p[j], d));
    lemma_fewer(g, p, 81, j);
}

/// Whether two cells share a row, a column or a box.
pub open spec fn peers(i: int, j: int) -> bool {
    row_of(i) == row_of(j) || column_of(i) == column_of(j) || box_of(i) == box_of(j)
}

/// What propagation does to the flags: without settling it leaves them
/// as they are, and a settled cell stays as it is in any case.
pub proof fn lemma_propagated_flags(g: Seq<usize>, set_solved: bool, j: int)
    requires
        grid_ok(g),
        0 <= j < 81,
    ensures
        flagged(g[j]) ==> propagated(g, set_solved)[j] == g[j],
        !set_solved ==> flagged(propagated(g, set_solved)[j]) == flagged(g[j]),
        !flagged(propagated(g, set_solved)[j]) ==> !flagged(g[j]) && propagated(g, set_solved)[j]
            == pruned_cell(g, j),
        forall|d: nat|
            d < 9 ==> has_bit(propagated(g, set_solved)[j], d) == has_bit(pruned_cell(g, j), d),
{
    let b = pruned_cell(g, j);
    lemma_mask_bounds(b, SOLVED);
    assert(!flagged(g[j]) ==> !has_bit(b, 9));
}

/// What the settled cells of a group hold is the same after propagation
/// without settling as before.
proof fn lemma_taken_in_same(g: Seq<usize>, grp: Grouping, idx: int, d: nat)
    requires
        grid_ok(g),
    ensures
        taken_in(propagated(g, false), grp, idx, 81, d) == taken_in(g, grp, idx, 81, d),
{
    let p = propagated(g, false);
    if taken_in(p, grp, idx, 81, d) {
        let j = choose|j: int|
            0 <= j < 81 && grp.group_of(j) == idx && flagged(p[j]) && has_bit(p[j], d);
        lemma_propagated_flags(g, false, j);
        assert(has_bit(g[j], d));
    }
    if taken_in(g, grp, idx, 81, d) {
        let j = choose|j: int|
            0 <= j < 81 && grp.group_of(j) == idx && flagged(g[j]) && has_bit(g[j], d);
        lemma_propagated_flags(g, false, j);
        assert(has_bit(p[j], d));
    }
}

/// Propagating a second time, right after the first, changes nothing:
/// propagation without settling leaves a grid that propagation leaves as
/// it is.
pub proof fn lemma_propagation_idempotent(g: Seq<usize>)
    requires
        grid_ok(g),
    ensures
        propagated(propagated(g, false), false) == propagated(g, false),
        count_cells(pruned_at(propagated(g, false)), 81) == 0,
        count_cells(settled_at(propagated(g, false), false), 81) == 0,
{
    let p = propagated(g, false);
    lemma_propagated_shrunk(g, false);
    assert forall|i: int| 0 <= i < 81 implies pruned_cell(p, i) == #[trigger] p[i] by {
        lemma_propagated_flags(g, false, i);
        if !flagged(p[i]) {
            lemma_pruned_shrunk(p, i, false);
            assert forall|d: nat| d < 10 implies has_bit(pruned_cell(p, i), d) == has_bit(
                p[i],
                d,
            ) by {
                lemma_taken_in_same(g, Grouping::Row, row_of(i), d);
                lemma_taken_in_same(g, Grouping::Column, column_of(i), d);
                lemma_taken_in_same(g, Grouping::Box, box_of(i), d);
                assert(taken(p, i, d) == taken(g, i, d));
            }
            lemma_mask_ext(pruned_cell(p, i), p[i]);
        }
    }
    assert(propagated(p, false) =~= p);
    lemma_propagated_changes(p, false);
}

/// Whether cell `j`, open in `g`, is settled in `p` and holds bit `d`
/// there.
pub open spec fn newly_taken(g: Seq<usize>, p: Seq<usize>, j: int, d: nat) -> bool {
    !flagged(g[j]) && flagged(p[j]) && has_bit(p[j], d)
}

/// Propagating a second time, right after a first time with settling,
/// takes no candidate, as long as the cells that the first time settled
/// brought up nothing to strike: none of them holds a candidate together
/// with an open cell of its row, column or box.
pub proof fn lemma_propagation_after_settling(g: Seq<usize>)
    requires
        grid_ok(g),
        forall|i: int, j: int, d: nat|
            0 <= i < 81 && 0 <= j < 81 && d < 9 && peers(i, j) && #[trigger] newly_taken(
                g,
                propagated(g, true),
                j,
                d,
            ) && !flagged(propagated(g, true)[i]) ==> !#[trigger] has_bit(
                propagated(g, true)[i],
                d,
            ),
    ensures
        propagated(propagated(g, true), true) == propagated(g, true),
        propagated(propagated(g, true), false) == propagated(g, true),
        count_cells(pruned_at(propagated(g, true)), 81) == 0,
{
    let p = propagated(g, true);
    lemma_propagated_shrunk(g, true);
    assert forall|i: int| 0 <= i < 81 implies pruned_cell(p, i) == #[trigger] p[i] by {
        lemma_propagated_flags(g, true, i);
        if !flagged(p[i]) {
            lemma_pruned_shrunk(p, i, false);
            assert forall|d: nat| d < 10 && has_bit(p[i], d) implies !taken(p, i, d) by {
                if taken(p, i, d) {
                    let grp = if taken_in(p, Grouping::Row, row_of(i), 81, d) {
                        Grouping::Row
                    } else if taken_in(p, Grouping::Column, column_of(i), 81, d) {
                        Grouping::Column
                    } else {
                        Grouping::Box
                    };
                    let j = choose|j: int|
                        0 <= j < 81 && grp.group_of(j) == grp.group_of(i) && flagged(p[j])
                            && has_bit(p[j], d);
                    lemma_propagated_flags(g, true, j);
                    assert(peers(i, j));
                    assert(d < 9);
                    if newly_taken(g, p, j, d) {
                        assert(!has_bit(p[i], d));
                    } else {
                        assert(has_bit(g[j], d));
                        assert(taken_in(g, grp, grp.group_of(i), 81, d));
                        assert(taken(g, i, d));
                    }
                }
            }
            assert forall|d: nat| d < 10 implies has_bit(pruned_cell(p, i), d) == has_bit(
                p[i],
                d,
            ) by {}
            lemma_mask_ext(pruned_cell(p, i), p[i]);
        }
    }
    lemma_count_bounds(pruned_at(p), 81);
    assert forall|i: int| 0 <= i < 81 implies !#[trigger] pruned_at(p)(i) by {}
    assert forall|i: int| 0 <= i < 81 implies settle(p[i], true) == #[trigger] p[i] by {
        lemma_propagated_flags(g, true, i);
        let b = pruned_cell(g, i);
        lemma_pruned_shrunk(g, i, true);
        if !flagged(p[i]) {
            assert(p[i] == b);
        }
    }
    assert(propagated(p, true) =~= p);
    assert(propagated(p, false) =~= p);
}

/// Naked-single propagation on a grid.
pub trait RemoveCandidates {
    fn remove_candidates(&mut self, set_solved: bool) -> (usize, usize);
}

impl RemoveCandidates for Sudoku {
    /// Strikes from every open cell what the settled cells of its row,
    /// column and box hold, all at once, and then, if `set_solved` asks
    /// for it, sets the solved flag of every open cell that has a single
    /// candidate.  A settled cell stays as it is.  Returns the number of
    /// cells that lost a candidate and the number of flags set.
    fn remove_candidates(&mut self, set_solved: bool) -> (r: (usize, usize))
        ensures
            final(self)@ == propagated(old(self)@, set_solved),
            r.0 == count_cells(pruned_at(old(self)@), 81),
            r.1 == count_cells(settled_at(old(self)@, set_solved), 81),
            !set_solved ==> r.1 == 0,
            (r.0 == 0 && r.1 == 0) <==> final(self)@ == old(self)@,
            forall|i: int|
                0 <= i < 81 && flagged(old(self)@[i]) ==> #[trigger] final(self)@[i] == old(
                    self,
                )@[i],
            !set_solved ==> propagated(final(self)@, false) == final(self)@,
            shrunk(old(self)@, final(self)@),
            digit_total(final(self)@, 81) <= digit_total(old(self)@, 81),
    {
        let ghost g = self@;
        self.well_formed();
        let mut column_solved_set: [usize; 9] = [0; 9];
        let mut row_solved_set: [usize; 9] = [0; 9];
        let mut box_solved_set: [usize; 9] = [0; 9];
        // Collect what the settled cells hold.
        let mut i: usize = 0;
        while i < 81
            invariant
                i <= 81,
                g == self@,
                grid_ok(g),
                forall|r: int| 0 <= r < 9 ==> #[trigger] row_solved_set[r] < MASK_LIMIT,
                forall|r: int| 0 <= r < 9 ==> #[trigger] column_solved_set[r] < MASK_LIMIT,
                forall|r: int| 0 <= r < 9 ==> #[trigger] box_solved_set[r] < MASK_LIMIT,
                forall|r: int, d: nat|
                    0 <= r < 9 && d < 10 ==> #[trigger] has_bit(row_solved_set[r], d) == taken_in(
                        g,
                        Grouping::Row,
                        r,
                        i as int,
                        d,
                    ),
                forall|r: int, d: nat|
                    0 <= r < 9 && d < 10 ==> #[trigger] has_bit(column_solved_set[r], d)
                        == taken_in(g, Grouping::Column, r, i as int, d),
                forall|r: int, d: nat|
                    0 <= r < 9 && d < 10 ==> #[trigger] has_bit(box_solved_set[r], d) == taken_in(
                        g,
                        Grouping::Box,
                        r,
                        i as int,
                        d,
                    ),
            decreases 81 - i,
        {
            let set = self.cell(i);
            let ghost rows0 = row_solved_set;
            let ghost cols0 = column_solved_set;
            let ghost boxes0 = box_solved_set;
            let (row_i, col_i, box_i) = get_index_tuple(i);
            if set.is_solved() {
                // The solved flag goes in with the digit: the sets are used
                // on open cells only.
                let v: usize = set.get();
                proof {
                    lemma_mask_bounds(row_solved_set[row_i as int], v);
                    lemma_mask_bounds(column_solved_set[col_i as int], v);
                    lemma_mask_bounds(box_solved_set[box_i as int], v);
                }
                row_solved_set[row_i] |= v;
                column_solved_set[col_i] |= v;
                box_solved_set[box_i] |= v;
            }
            proof {
                lemma_scan_step(g, Grouping::Row, i as int, rows0, row_solved_set);
                lemma_scan_step(g, Grouping::Column, i as int, cols0, column_solved_set);
                lemma_scan_step(g, Grouping::Box, i as int, boxes0, box_solved_set);
            }
            i += 1;
        }
        let mut solved: usize = 0;
        let mut changed: usize = 0;
        let mut i: usize = 0;
        proof {
            assert(self@ =~= propagated_upto(g, set_solved, 0));
        }
        while i < 81
            invariant
                i <= 81,
                g == old(self)@,
                grid_ok(g),
                forall|r: int| 0 <= r < 9 ==> #[trigger] row_solved_set[r] < MASK_LIMIT,
                forall|r: int| 0 <= r < 9 ==> #[trigger] column_solved_set[r] < MASK_LIMIT,
                forall|r: int| 0 <= r < 9 ==> #[trigger] box_solved_set[r] < MASK_LIMIT,
                forall|r: int, d: nat|
                    0 <= r < 9 && d < 10 ==> #[trigger] has_bit(row_solved_set[r], d) == taken_in(
                        g,
                        Grouping::Row,
                        r,
                        81,
                        d,
                    ),
                forall|r: int, d: nat|
                    0 <= r < 9 && d < 10 ==> #[trigger] has_bit(column_solved_set[r], d)
                        == taken_in(g, Grouping::Column, r, 81, d),
                forall|r: int, d: nat|
                    0 <= r < 9 && d < 10 ==> #[trigger] has_bit(box_solved_set[r], d) == taken_in(
                        g,
                        Grouping::Box,
                        r,
                        81,
                        d,
                    ),
                self@ == propagated_upto(g, set_solved, i as int),
                changed == count_cells(pruned_at(g), i as int),
                solved == count_cells(settled_at(g, set_solved), i as int),
                changed <= i,
                solved <= i,
            decreases 81 - i,
        {
            let (row_i, col_i, box_i) = get_index_tuple(i);
            let mut set = self.cell(i);
            let ghost before = self@;
            assert(set@ == g[i as int]);
            if !set.is_solved() {
                let new_set: usize = set.get() & !row_solved_set[row_i]
                    & !column_solved_set[col_i] & !box_solved_set[box_i];
                proof {
                    let a = set@;
                    let x = a & !row_solved_set[row_i as int];
                    let y = x & !column_solved_set[col_i as int];
                    lemma_mask_bounds(a, !row_solved_set[row_i as int]);
                    lemma_mask_bounds(x, !column_solved_set[col_i as int]);
                    lemma_mask_bounds(y, !box_solved_set[box_i as int]);
                    let want = pruned_cell(g, i as int);
                    lemma_pruned_shrunk(g, i as int, set_solved);
                    assert forall|d: nat| d < 10 implies has_bit(new_set, d) == has_bit(
                        want,
                        d,
                    ) by {
                        assert(has_bit(row_solved_set[row_i as int], d) == taken_in(
                            g,
                            Grouping::Row,
                            row_i as int,
                            81,
                            d,
                        ));
                        assert(has_bit(column_solved_set[col_i as int], d) == taken_in(
                            g,
                            Grouping::Column,
                            col_i as int,
                            81,
                            d,
                        ));
                        assert(has_bit(box_solved_set[box_i as int], d) == taken_in(
                            g,
                            Grouping::Box,
                            box_i as int,
                            81,
                            d,
                        ));
                    }
                    lemma_mask_ext(new_set, want);
                }
                // If there has been a change then remember that.
                if set.get() != new_set {
                    changed += 1;
                    set = CandidateSet::new(new_set);
                }
            }
            assert(set@ == pruned_cell(g, i as int));
            // Set the solved flag where that is asked for and a single
            // candidate is left.
            if set_solved && !set.is_solved() && set.num_candidates() == 1 {
                set.set_solved();
                solved += 1;
            }
            assert(set@ == settle(pruned_cell(g, i as int), set_solved));
            self.set_cell(i, set);
            i += 1;
            proof {
                assert(self@ =~= propagated_upto(g, set_solved, i as int));
            }
        }
        proof {
            assert(self@ =~= propagated(g, set_solved));
            lemma_propagated_shrunk(g, set_solved);
            assert forall|i: int| 0 <= i < 81 && flagged(g[i]) implies #[trigger] self@[i]
                == g[i] by {
                lemma_propagated_flags(g, set_solved, i);
            }
            if !set_solved {
                lemma_propagation_idempotent(g);
            }
            lemma_count_bounds(pruned_at(g), 81);
            lemma_count_bounds(settled_at(g, set_solved), 81);
            if changed == 0 && solved == 0 {
                assert forall|j: int| 0 <= j < 81 implies self@[j] == g[j] by {
                    assert(!pruned_at(g)(j));
                    assert(!settled_at(g, set_solved)(j));
                }
                assert(self@ =~= g);
            } else if changed > 0 {
                let j = choose|j: int| 0 <= j < 81 && #[trigger] pruned_at(g)(j);
                lemma_pruned_shrunk(g, j, set_solved);
                assert(self@[j] != g[j]);
            } else {
                let j = choose|j: int| 0 <= j < 81 && #[trigger] settled_at(g, set_solved)(j);
                assert(!pruned_at(g)(j));
                assert(self@[j] != g[j]);
            }
            if !set_solved {
                assert forall|j: int| 0 <= j < 81 implies !#[trigger] settled_at(g, set_solved)(
                    j,
                ) by {}
            }
        }
        (changed, solved)
    }
}

/// One step of the scan that collects what the settled cells hold, for
/// one kind of group.
proof fn lemma_scan_step(g: Seq<usize>, grp: Grouping, i: int, before: [usize; 9], after: [usize; 9])
    requires
        grid_ok(g),
        0 <= i < 81,
        forall|r: int, d: nat|
            0 <= r < 9 && d < 10 ==> #[trigger] has_bit(before[r], d) == taken_in(g, grp, r, i, d),
        forall|r: int| 0 <= r < 9 && r != grp.group_of(i) ==> after[r] == before[r],
        after[grp.group_of(i)] == if flagged(g[i]) {
            before[grp.group_of(i)] | g[i]
        } else {
            before[grp.group_of(i)]
        },
    ensures
        forall|r: int, d: nat|
            0 <= r < 9 && d < 10 ==> #[trigger] has_bit(after[r], d) == taken_in(
                g,
                grp,
                r,
                i + 1,
                d,
            ),
{
    assert forall|r: int, d: nat| 0 <= r < 9 && d < 10 implies #[trigger] has_bit(after[r], d)
        == taken_in(g, grp, r, i + 1, d) by {
        assert(has_bit(before[r], d) == taken_in(g, grp, r, i, d));
        if taken_in(g, grp, r, i, d) {
            let j = choose|j: int|
                0 <= j < i && grp.group_of(j) == r && flagged(g[j]) && has_bit(g[j], d);
            assert(has_bit(g[j], d));
        }
        if taken_in(g, grp, r, i + 1, d) {
            let j = choose|j: int|
                0 <= j < i + 1 && grp.group_of(j) == r && flagged(g[j]) && has_bit(g[j], d);
            if j < i {
                assert(has_bit(g[j], d));
            }
        }
        if grp.group_of(i) == r && flagged(g[i]) && has_bit(g[i], d) {
            assert(has_bit(g[i], d));
        }
    }
}

} // verus!
