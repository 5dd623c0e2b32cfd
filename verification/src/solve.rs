//! The solve loop: the techniques are tried in a fixed order, from the top
//! again after each that made progress, until none does.

use vstd::prelude::*;
use crate::box_line::{
    box_line_changes, box_line_result, lemma_box_line_result, lemma_box_line_strikes,
    LineBoxReduction,
};
use crate::hidden_singles::{hidden_upto, lemma_hidden_strikes, lemma_hidden_upto, HiddenSingles};
use crate::pointing_pairs::{
    lemma_pointing_result, lemma_pointing_strikes, pointing_changes, pointing_guard,
    pointing_result,
};
use crate::progress::{
    count_cells, digit_total, grid_weight, lemma_digit_total_bound, lemma_shrunk, shrunk,
};
use crate::remove_candidates::{
    lemma_propagated_changes, lemma_propagated_shrunk, lemma_propagated_strikes, propagated,
    pruned_at, settled_at, RemoveCandidates,
};
use crate::subset::{
    lemma_subset_result, lemma_subset_strikes, subset_changes, subset_result, FindSubset,
};
use crate::sudoku::{
    all_flagged, count_flagged, flagged, grid_ok, grid_valid, lemma_grid_len, line_text, single,
    Sudoku,
};

verus! {

broadcast use lemma_grid_len;

/// What solving achieved.
#[derive(Debug)]
pub struct SolveReport {
    /// Whether every cell is settled, to exactly one candidate.
    pub is_solved: bool,
    /// Whether the grid is still valid, and no technique ran into a
    /// contradiction.
    pub is_valid: bool,
    /// How many cells were settled before the start.
    pub given: usize,
    /// The number of cells settled as hidden singles.
    pub hidden_singles: usize,
    /// The number of cells settled as naked singles.
    pub naked_singles: usize,
    /// The number of cells changed by pointing pairs and triples.
    pub num_pointing: usize,
    /// The number of candidates struck by box-line reduction.
    pub box_line: usize,
    /// The number of cells thinned by naked and hidden subsets.
    pub subsets_used: usize,
    /// The grid on one line, as solving left it.
    pub state: String,
}

/// What the techniques have achieved so far, one count for each.
pub struct Tally {
    pub hidden_singles: nat,
    pub naked_singles: nat,
    pub num_pointing: nat,
    pub box_line: nat,
    pub subsets_used: nat,
}

/// How solving ended: the grid, the counts, and whether pointing met a box
/// that confines more digits to a line than the line can take.
pub struct Outcome {
    pub grid: Seq<usize>,
    pub tally: Tally,
    pub stopped: bool,
}

/// No technique has achieved anything yet.
pub open spec fn no_tally() -> Tally {
    Tally { hidden_singles: 0, naked_singles: 0, num_pointing: 0, box_line: 0, subsets_used: 0 }
}

/// The grid after the first step of a round: propagation without
/// settling.
pub open spec fn after_sweep(g: Seq<usize>) -> Seq<usize> {
    propagated(g, false)
}

/// The grid after the second step of a round: hidden singles.
pub open spec fn after_hidden(g: Seq<usize>) -> Seq<usize> {
    hidden_upto(after_sweep(g), 27).0
}

/// The grid after the third step of a round: propagation with settling.
pub open spec fn after_naked(g: Seq<usize>) -> Seq<usize> {
    propagated(after_hidden(g), true)
}

/// The grid after the fourth step of a round: pointing.
pub open spec fn after_pointing(g: Seq<usize>) -> Seq<usize> {
    pointing_result(after_naked(g))
}

/// The grid after the fifth step of a round: box-line reduction.
pub open spec fn after_box_line(g: Seq<usize>) -> Seq<usize> {
    box_line_result(after_pointing(g))
}

/// The grid after the last step of a round: subsets.
pub open spec fn after_subset(g: Seq<usize>) -> Seq<usize> {
    subset_result(after_box_line(g))
}

/// What one round of solving comes to.
pub enum Round {
    /// Every cell is settled: nothing to do.
    Solved,
    /// Hidden singles settled cells.
    Hidden(Seq<usize>, nat),
    /// Propagation settled cells.
    Naked(Seq<usize>, nat),
    /// Pointing met a box that confines more digits to a line than the
    /// line can take.
    Stopped(Seq<usize>),
    /// Pointing changed cells.
    Pointing(Seq<usize>, nat),
    /// Box-line reduction struck candidates.
    BoxLine(Seq<usize>, nat),
    /// A subset thinned cells.
    Subset(Seq<usize>, nat),
    /// No technique made progress, but propagation changed a cell.
    Swept(Seq<usize>),
    /// Nothing changed.
    Stuck(Seq<usize>),
}

/// One round on the grid `g`: propagation, hidden singles, propagation
/// with settling, pointing, box-line reduction, subsets.  The first step
/// after the first to make progress ends the round.
pub open spec fn round(g: Seq<usize>) -> Round {
    if all_flagged(g) {
        Round::Solved
    } else if hidden_upto(after_sweep(g), 27).1 > 0 {
        Round::Hidden(after_hidden(g), hidden_upto(after_sweep(g), 27).1)
    } else if count_cells(settled_at(after_hidden(g), true), 81) > 0 {
        Round::Naked(after_naked(g), count_cells(settled_at(after_hidden(g), true), 81))
    } else if !pointing_guard(after_naked(g)) {
        Round::Stopped(after_naked(g))
    } else if pointing_changes(after_naked(g)) > 0 {
        Round::Pointing(after_pointing(g), pointing_changes(after_naked(g)))
    } else if box_line_changes(after_pointing(g)) > 0 {
        Round::BoxLine(after_box_line(g), box_line_changes(after_pointing(g)) as nat)
    } else if subset_changes(after_box_line(g)).0 > 0 {
        Round::Subset(after_subset(g), subset_changes(after_box_line(g)).0)
    } else if count_cells(pruned_at(g), 81) == 0 && count_cells(pruned_at(after_hidden(g)), 81)
        == 0 {
        Round::Stuck(after_subset(g))
    } else {
        Round::Swept(after_subset(g))
    }
}

/// The grid that the next round starts from, where there is a next round.
pub open spec fn carries_on(r: Round) -> Option<Seq<usize>> {
    match r {
        Round::Hidden(g, _) => Some(g),
        Round::Naked(g, _) => Some(g),
        Round::Pointing(g, _) => Some(g),
        Round::BoxLine(g, _) => Some(g),
        Round::Subset(g, _) => Some(g),
        Round::Swept(g) => Some(g),
        _ => None,
    }
}

/// The counts after a round.
pub open spec fn credited(t: Tally, r: Round) -> Tally {
    Tally {
        hidden_singles: t.hidden_singles + (if r is Hidden {
            r->Hidden_1
        } else {
            0
        }),
        naked_singles: t.naked_singles + (if r is Naked {
            r->Naked_1
        } else {
            0
        }),
        num_pointing: t.num_pointing + (if r is Pointing {
            r->Pointing_1
        } else {
            0
        }),
        box_line: t.box_line + (if r is BoxLine {
            r->BoxLine_1
        } else {
            0
        }),
        subsets_used: t.subsets_used + (if r is Subset {
            r->Subset_1
        } else {
            0
        }),
    }
}

/// Solving from the grid `g` on, with `t` achieved so far: round after
/// round, each from the grid that the round before left, until a round
/// finds every cell settled, finds nothing left to change, or is stopped.
pub open spec fn solve_from(g: Seq<usize>, t: Tally) -> Outcome
    decreases grid_weight(g, 81),
    when grid_ok(g)
    via solve_from_decreases
{
    match round(g) {
        Round::Solved => Outcome { grid: g, tally: t, stopped: false },
        Round::Stopped(end) => Outcome { grid: end, tally: t, stopped: true },
        Round::Stuck(end) => Outcome { grid: end, tally: t, stopped: false },
        r => solve_from(carries_on(r).unwrap(), credited(t, r)),
    }
}

#[via_fn]
proof fn solve_from_decreases(g: Seq<usize>, t: Tally) {
    lemma_round(g);
}

/// The number of rounds that solving takes from the grid `g` on.
pub open spec fn rounds_from(g: Seq<usize>) -> nat
    decreases grid_weight(g, 81),
    when grid_ok(g)
    via rounds_from_decreases
{
    match carries_on(round(g)) {
        None => 1,
        Some(next) => 1 + rounds_from(next),
    }
}

#[via_fn]
proof fn rounds_from_decreases(g: Seq<usize>) {
    lemma_round(g);
}

/// Solving ends: every round but the last takes from the weight of the
/// grid, so no more rounds are run than the grid weighs at the start, and
/// one; and no grid weighs more than 1539.
pub proof fn lemma_rounds_bound(g: Seq<usize>)
    requires
        grid_ok(g),
    ensures
        rounds_from(g) <= grid_weight(g, 81) + 1,
        rounds_from(g) <= 1540,
    decreases grid_weight(g, 81),
{
    lemma_round(g);
    lemma_weight_bound(g, 81);
    match carries_on(round(g)) {
        None => {},
        Some(next) => {
            lemma_rounds_bound(next);
        },
    }
}

/// Whether a round strikes a candidate: every round that carries on does,
/// but one in which propagation only settled cells.
pub open spec fn strikes(r: Round) -> bool {
    carries_on(r).is_some() && !(r is Naked)
}

/// The number of rounds that strike a candidate, in solving from the grid
/// `g` on.
pub open spec fn striking_rounds_from(g: Seq<usize>) -> nat
    decreases grid_weight(g, 81),
    when grid_ok(g)
    via striking_rounds_decreases
{
    match carries_on(round(g)) {
        None => 0,
        Some(next) => (if strikes(round(g)) {
            1nat
        } else {
            0nat
        }) + striking_rounds_from(next),
    }
}

#[via_fn]
proof fn striking_rounds_decreases(g: Seq<usize>) {
    lemma_round(g);
}

/// No round adds a candidate, and a round that strikes leaves fewer
/// candidates on the grid than it found.
pub proof fn lemma_round_strikes(g: Seq<usize>)
    requires
        grid_ok(g),
        carries_on(round(g)).is_some(),
    ensures
        grid_ok(carries_on(round(g)).unwrap()),
        digit_total(carries_on(round(g)).unwrap(), 81) <= digit_total(g, 81),
        strikes(round(g)) ==> digit_total(carries_on(round(g)).unwrap(), 81) < digit_total(g, 81),
{
    lemma_round(g);
    let g0 = after_sweep(g);
    let g1 = after_hidden(g);
    let g2 = after_naked(g);
    let g3 = after_pointing(g);
    let g4 = after_box_line(g);
    let g5 = after_subset(g);
    lemma_propagated_shrunk(g, false);
    lemma_shrunk(g, g0, 81);
    lemma_hidden_upto(g0, 27);
    lemma_shrunk(g0, g1, 81);
    lemma_propagated_shrunk(g1, true);
    lemma_shrunk(g1, g2, 81);
    lemma_pointing_result(g2);
    lemma_shrunk(g2, g3, 81);
    lemma_box_line_result(g3);
    lemma_shrunk(g3, g4, 81);
    lemma_subset_result(g4);
    lemma_shrunk(g4, g5, 81);
    match round(g) {
        Round::Hidden(_, _) => {
            lemma_hidden_strikes(g0);
        },
        Round::Pointing(_, _) => {
            lemma_pointing_strikes(g2);
        },
        Round::BoxLine(_, _) => {
            lemma_box_line_strikes(g3);
        },
        Round::Subset(_, _) => {
            lemma_subset_strikes(g4);
        },
        Round::Swept(_) => {
            if count_cells(pruned_at(g), 81) > 0 {
                lemma_propagated_strikes(g, false);
            } else {
                lemma_propagated_strikes(g1, true);
            }
        },
        _ => {},
    }
}

/// Solving strikes candidates in at most 729 rounds: each such round
/// leaves fewer candidates than it found, no round adds one, and a grid
/// holds 729 at most.
pub proof fn lemma_striking_rounds(g: Seq<usize>)
    requires
        grid_ok(g),
    ensures
        striking_rounds_from(g) <= digit_total(g, 81),
        striking_rounds_from(g) <= 729,
    decreases grid_weight(g, 81),
{
    lemma_round(g);
    lemma_digit_total_bound(g, 81);
    match carries_on(round(g)) {
        None => {},
        Some(next) => {
            lemma_round_strikes(g);
            lemma_striking_rounds(next);
        },
    }
}

/// A grid that shrank weighs no more than before, and less if it changed.
pub proof fn lemma_lighter(a: Seq<usize>, b: Seq<usize>)
    requires
        a.len() == 81,
        shrunk(a, b),
    ensures
        grid_weight(b, 81) <= grid_weight(a, 81),
        b != a ==> grid_weight(b, 81) < grid_weight(a, 81),
{
    lemma_shrunk(a, b, 81);
    if b != a {
        if forall|i: int| 0 <= i < 81 ==> a[i] == b[i] {
            assert(a =~= b);
        }
    }
}

/// No grid weighs more than 19 for each cell.
pub proof fn lemma_weight_bound(g: Seq<usize>, n: int)
    requires
        0 <= n,
    ensures
        grid_weight(g, n) <= 19 * n,
    decreases n,
{
    if n > 0 {
        lemma_weight_bound(g, n - 1);
    }
}

/// What a round does to the weight of the grid: no step adds to it, and
/// each step that makes progress takes from it.
pub proof fn lemma_round(g: Seq<usize>)
    requires
        grid_ok(g),
    ensures
        grid_ok(after_sweep(g)),
        grid_ok(after_hidden(g)),
        grid_ok(after_naked(g)),
        grid_ok(after_pointing(g)),
        grid_ok(after_box_line(g)),
        grid_ok(after_subset(g)),
        grid_weight(after_sweep(g), 81) <= grid_weight(g, 81),
        grid_weight(after_hidden(g), 81) <= grid_weight(after_sweep(g), 81),
        grid_weight(after_naked(g), 81) <= grid_weight(after_hidden(g), 81),
        grid_weight(after_pointing(g), 81) <= grid_weight(after_naked(g), 81),
        grid_weight(after_box_line(g), 81) <= grid_weight(after_pointing(g), 81),
        grid_weight(after_subset(g), 81) <= grid_weight(after_box_line(g), 81),
        count_cells(pruned_at(g), 81) > 0 ==> grid_weight(after_sweep(g), 81) < grid_weight(
            g,
            81,
        ),
        hidden_upto(after_sweep(g), 27).1 > 0 ==> grid_weight(after_hidden(g), 81) < grid_weight(
            after_sweep(g),
            81,
        ),
        (count_cells(pruned_at(after_hidden(g)), 81) > 0 || count_cells(
            settled_at(after_hidden(g), true),
            81,
        ) > 0) ==> grid_weight(after_naked(g), 81) < grid_weight(after_hidden(g), 81),
        pointing_changes(after_naked(g)) > 0 ==> grid_weight(after_pointing(g), 81) < grid_weight(
            after_naked(g),
            81,
        ),
        box_line_changes(after_pointing(g)) > 0 ==> grid_weight(after_box_line(g), 81)
            < grid_weight(after_pointing(g), 81),
        subset_changes(after_box_line(g)).0 > 0 ==> grid_weight(after_subset(g), 81)
            < grid_weight(after_box_line(g), 81),
        hidden_upto(after_sweep(g), 27).1 <= 9 * 27,
        count_cells(settled_at(after_hidden(g), true), 81) <= 81,
        pointing_changes(after_naked(g)) <= 81,
        0 <= box_line_changes(after_pointing(g)) <= 9 * 81,
        subset_changes(after_box_line(g)).0 <= 81,
{
    let g0 = after_sweep(g);
    lemma_propagated_shrunk(g, false);
    lemma_propagated_changes(g, false);
    lemma_lighter(g, g0);
    let g1 = after_hidden(g);
    lemma_hidden_upto(g0, 27);
    lemma_lighter(g0, g1);
    let g2 = after_naked(g);
    lemma_propagated_shrunk(g1, true);
    lemma_propagated_changes(g1, true);
    lemma_lighter(g1, g2);
    crate::progress::lemma_count_bounds(settled_at(g1, true), 81);
    let g3 = after_pointing(g);
    lemma_pointing_result(g2);
    lemma_lighter(g2, g3);
    let g4 = after_box_line(g);
    lemma_box_line_result(g3);
    lemma_lighter(g3, g4);
    let g5 = after_subset(g);
    lemma_subset_result(g4);
    lemma_lighter(g4, g5);
}

/// Whether every cell of the grid is settled to exactly one candidate.
pub open spec fn all_settled(g: Seq<usize>) -> bool {
    forall|i: int| 0 <= i < g.len() ==> flagged(#[trigger] g[i]) && single(g[i])
}

/// Whether every cell of the grid has exactly one candidate.
pub fn all_single(grid: &Sudoku) -> (r: bool)
    ensures
        r == (forall|i: int| 0 <= i < 81 ==> single(#[trigger] grid@[i])),
{
    let mut i: usize = 0;
    while i < 81
        invariant
            i <= 81,
            forall|j: int| 0 <= j < i ==> single(#[trigger] grid@[j]),
        decreases 81 - i,
    {
        if grid.cell(i).num_candidates() != 1 {
            return false;
        }
        i += 1;
    }
    true
}

/// The report on an outcome.
pub open spec fn reports(r: SolveReport, given: nat, out: Outcome) -> bool {
    &&& r.is_solved == all_settled(out.grid)
    &&& r.is_valid == (grid_valid(out.grid) && !out.stopped)
    &&& r.given == given
    &&& r.hidden_singles == out.tally.hidden_singles
    &&& r.naked_singles == out.tally.naked_singles
    &&& r.num_pointing == out.tally.num_pointing
    &&& r.box_line == out.tally.box_line
    &&& r.subsets_used == out.tally.subsets_used
    &&& r.state@ == line_text(out.grid, 81)
}

/// Solving as far as the techniques go.
pub trait Solveable {
    fn try_solve(self) -> SolveReport;
}

impl Solveable for Sudoku {
    /// Solves as far as the techniques go, and reports: whether every cell
    /// is settled, whether the grid is valid, how many cells were settled
    /// at the start, what each technique achieved, and the grid on one
    /// line.
    fn try_solve(self) -> (sr: SolveReport)
        ensures
            reports(sr, count_flagged(self@, 81), solve_from(self@, no_tally())),
    {
        let mut grid = self;
        let given = grid.num_solved();
        let mut hidden_singles: usize = 0;
        let mut naked_singles: usize = 0;
        let mut subsets_used: usize = 0;
        let mut num_pointing: usize = 0;
        let mut box_line: usize = 0;
        let mut stopped = false;
        let mut cont = true;
        grid.well_formed();
        let ghost start = self@;
        let ghost full = grid_weight(start, 81);
        proof {
            lemma_weight_bound(start, 81);
        }
        while cont && !grid.is_solved()
            invariant
                grid_ok(grid@),
                grid_ok(start),
                full <= 19 * 81,
                grid_weight(grid@, 81) <= full,
                hidden_singles + naked_singles + num_pointing + box_line + subsets_used <= 1000 * (
                full - grid_weight(grid@, 81)),
                cont ==> !stopped && solve_from(start, no_tally()) == solve_from(
                    grid@,
                    Tally {
                        hidden_singles: hidden_singles as nat,
                        naked_singles: naked_singles as nat,
                        num_pointing: num_pointing as nat,
                        box_line: box_line as nat,
                        subsets_used: subsets_used as nat,
                    },
                ),
                !cont ==> solve_from(start, no_tally()) == (Outcome {
                    grid: grid@,
                    tally: Tally {
                        hidden_singles: hidden_singles as nat,
                        naked_singles: naked_singles as nat,
                        num_pointing: num_pointing as nat,
                        box_line: box_line as nat,
                        subsets_used: subsets_used as nat,
                    },
                    stopped: stopped,
                }),
            decreases
                    grid_weight(grid@, 81) + if cont {
                        1nat
                    } else {
                        0nat
                    },
        {
            let ghost g = grid@;
            proof {
                lemma_round(g);
            }
            // Strike what cannot be a candidate any more.
            let (c_0, _s_0) = grid.remove_candidates(false);
            // Settle hidden singles.
            let hs = grid.find_hidden();
            if hs > 0 {
                hidden_singles += hs;
                continue ;
            }
            // Strike again, and settle the cells with a single candidate.
            let (c_1, s_1) = grid.remove_candidates(true);
            if s_1 > 0 {
                naked_singles += s_1;
                continue ;
            }
            let c_2 = match grid.try_pointing() {
                None => {
                    stopped = true;
                    cont = false;
                    continue ;
                },
                Some((c_2, _s_2)) => c_2,
            };
            if c_2 > 0 {
                num_pointing += c_2;
                continue ;
            }
            let (c_3, _s_3) = grid.box_line_reduce();
            if c_3 > 0 {
                box_line += c_3;
                continue ;
            }
            let (c_4, _s_4) = grid.find_subset();
            if c_4 > 0 {
                subsets_used += c_4;
                continue ;
            }
            // Nothing changed: there is no more to do.
            if c_0 == 0 && c_1 == 0 {
                cont = false;
            }
        }
        let is_solved = grid.is_solved() && all_single(&grid);
        let is_valid = grid.is_valid() && !stopped;
        let state = grid.oneline();
        SolveReport {
            is_solved,
            is_valid,
            given,
            hidden_singles,
            naked_singles,
            num_pointing,
            box_line,
            subsets_used,
            state,
        }
    }
}

} // verus!
