//! Naked and hidden subsets: pairs, triples and quadruples of cells of a
//! group that share their candidates among themselves.

use vstd::prelude::*;
use crate::bits::{
    digit_count, from_bits, group_bits, has_bit, lemma_digits_only, lemma_mask_bounds,
    lemma_mask_ext, lemma_ones_is_digit_count, lemma_lowest_bit, lowest_bit, ALL_CAND, MASK_LIMIT,
    SOLVED,
};
use crate::candidate_set::CandidateSet;
use crate::fast_index::FastIndexIter;
use crate::combinations::{
    advance, ascending, behind, lemma_advance_ascending, lemma_advance_behind, sane, start_slots,
};
use crate::index::{lemma_cell_in_group, listed, ALL_GROUPINGS};
use crate::progress::{
    cell_shrunk, count_cells, digit_total, lemma_cell_digits, lemma_cell_lost,
    lemma_count_bounds, lemma_count_gain, lemma_count_same, lemma_fewer, lemma_never_more,
    shrunk,
};
use crate::sudoku::{grid_ok, lemma_grid_len, nth_group, single, Sudoku};

verus! {

broadcast use {group_bits, lemma_grid_len, lemma_never_more};

/// A cell thinned to the digits of `keep`: it keeps its flag and the
/// candidates that `keep` holds, and gains the flag where that takes it
/// down to a single candidate.  A cell that holds nothing else stays as it
/// is.
pub open spec fn thinned_cell(v: usize, keep: usize) -> usize {
    let c = (v & ALL_CAND) & keep;
    if c == v & ALL_CAND {
        v
    } else if digit_count(c) == 1 {
        ((v & SOLVED) | c) | SOLVED
    } else {
        (v & SOLVED) | c
    }
}

/// The grid with the listed cells thinned to the digits of `keep`.
pub open spec fn thinned(g: Seq<usize>, keep: usize, cells: Seq<usize>) -> Seq<usize> {
    Seq::new(
        g.len(),
        |i: int|
            if listed(cells, i) {
                thinned_cell(g[i], keep)
            } else {
                g[i]
            },
    )
}

/// Whether cell `i` is listed and loses a candidate when thinned.
pub open spec fn thins(g: Seq<usize>, keep: usize, cells: Seq<usize>) -> spec_fn(int) -> bool {
    |i: int| listed(cells, i) && thinned_cell(g[i], keep) != g[i]
}

/// Whether cell `i` is listed and is taken down to a single candidate
/// when thinned.
pub open spec fn settles(g: Seq<usize>, keep: usize, cells: Seq<usize>) -> spec_fn(int) -> bool {
    |i: int| listed(cells, i) && thinned_cell(g[i], keep) != g[i] && single(thinned_cell(g[i], keep))
}

/// What thinning does to a cell, bit by bit; it takes the cell closer to
/// rest, and thinning again changes nothing.
pub proof fn lemma_thinned_cell(v: usize, keep: usize)
    requires
        v < MASK_LIMIT,
    ensures
        thinned_cell(v, keep) < MASK_LIMIT,
        forall|d: nat|
            d < 9 ==> #[trigger] has_bit(thinned_cell(v, keep), d) == (has_bit(v, d) && has_bit(
                keep,
                d,
            )),
        has_bit(thinned_cell(v, keep), 9) == (has_bit(v, 9) || (thinned_cell(v, keep) != v
            && single(thinned_cell(v, keep)))),
        thinned_cell(v, keep) != v <==> (v & ALL_CAND) & keep != v & ALL_CAND,
        thinned_cell(v, keep) != v <==> exists|d: nat| d < 9 && has_bit(v, d) && !has_bit(keep, d),
        cell_shrunk(v, thinned_cell(v, keep)),
        thinned_cell(thinned_cell(v, keep), keep) == thinned_cell(v, keep),
        digit_count((v & ALL_CAND) & keep) == digit_count(thinned_cell(v, keep)),
{
    let low = v & ALL_CAND;
    let c = low & keep;
    let w = thinned_cell(v, keep);
    lemma_mask_bounds(v, ALL_CAND);
    lemma_mask_bounds(low, keep);
    lemma_mask_bounds(v, SOLVED);
    lemma_mask_bounds(v & SOLVED, c);
    lemma_mask_bounds((v & SOLVED) | c, SOLVED);
    assert(SOLVED < MASK_LIMIT);
    assert(c < MASK_LIMIT && low < MASK_LIMIT);
    assert forall|d: nat| d < 9 implies has_bit(c, d) == (has_bit(v, d) && has_bit(keep, d)) by {}
    lemma_cell_digits(v, c);
    lemma_cell_digits(c, (v & SOLVED) | c);
    lemma_cell_digits((v & SOLVED) | c, c);
    lemma_cell_digits(c, ((v & SOLVED) | c) | SOLVED);
    lemma_cell_digits(((v & SOLVED) | c) | SOLVED, c);
    lemma_cell_digits(low, v);
    lemma_cell_digits(v, low);
    if c == low {
        assert forall|d: nat| d < 9 && has_bit(v, d) implies has_bit(keep, d) by {
            assert(has_bit(low, d));
            assert(has_bit(c, d));
        }
    } else {
        if forall|d: nat| d < 10 ==> has_bit(c, d) == has_bit(low, d) {
            lemma_mask_ext(c, low);
        }
        let d = choose|d: nat| d < 10 && has_bit(c, d) != has_bit(low, d);
        assert(d < 9 && has_bit(v, d) && !has_bit(keep, d));
        assert(has_bit(v, d) && !has_bit(w, d));
        lemma_cell_lost(v, w);
        assert(w != v);
    }
    // Thinning again.
    let low2 = w & ALL_CAND;
    let c2 = low2 & keep;
    lemma_mask_bounds(w, ALL_CAND);
    lemma_mask_bounds(low2, keep);
    assert forall|d: nat| d < 10 implies has_bit(c2, d) == has_bit(low2, d) by {}
    lemma_mask_ext(c2, low2);
}

/// Thinning cells shrinks the grid.
pub proof fn lemma_thinned(g: Seq<usize>, keep: usize, cells: Seq<usize>)
    requires
        grid_ok(g),
    ensures
        grid_ok(thinned(g, keep, cells)),
        shrunk(g, thinned(g, keep, cells)),
{
    let p = thinned(g, keep, cells);
    assert forall|i: int| 0 <= i < 81 implies #[trigger] p[i] < MASK_LIMIT && cell_shrunk(
        g[i],
        p[i],
    ) by {
        lemma_thinned_cell(g[i], keep);
    }
}

/// Thins cell `p` to the digits of `mask`.  Returns whether the cell lost
/// a candidate and whether that took it down to a single one, each as 0
/// or 1.
pub fn remove_candidate(sudoku: &mut Sudoku, mask: usize, p: usize) -> (r: (usize, usize))
    requires
        p < 81,
    ensures
        final(sudoku)@ == old(sudoku)@.update(p as int, thinned_cell(old(sudoku)@[p as int], mask)),
        r.0 == if thinned_cell(old(sudoku)@[p as int], mask) != old(sudoku)@[p as int] {
            1usize
        } else {
            0usize
        },
        r.1 == if thinned_cell(old(sudoku)@[p as int], mask) != old(sudoku)@[p as int] && single(
            thinned_cell(old(sudoku)@[p as int], mask),
        ) {
            1usize
        } else {
            0usize
        },
{
    let cs = sudoku.cell(p);
    let old_digits = cs.get_candidates();
    let c = old_digits & mask;
    proof {
        lemma_thinned_cell(cs@, mask);
        lemma_mask_bounds(old_digits, mask);
        lemma_mask_bounds(cs@, SOLVED);
        lemma_mask_bounds(cs@ & SOLVED, c);
        assert(SOLVED < MASK_LIMIT);
        lemma_ones_is_digit_count(c);
        lemma_cell_digits(c, (cs@ & SOLVED) | c);
        lemma_cell_digits((cs@ & SOLVED) | c, c);
    }
    if c != old_digits {
        let mut thin = CandidateSet::new((cs.get() & SOLVED) | c);
        if c.count_ones() == 1 {
            thin.set_solved();
            sudoku.set_cell(p, thin);
            (1, 1)
        } else {
            sudoku.set_cell(p, thin);
            (1, 0)
        }
    } else {
        proof {
            assert(sudoku@ =~= sudoku@.update(p as int, cs@));
        }
        (0, 0)
    }
}

/// Thins the listed cells to the digits of `mask`.  Returns the number of
/// cells that lost a candidate and the number of those taken down to a
/// single one; `None` if no cell lost any.
pub fn remove_candidates(sudoku: &mut Sudoku, mask: usize, g_iter: Vec<usize>) -> (r: Option<
    (usize, usize),
>)
    requires
        forall|k: int| 0 <= k < g_iter@.len() ==> #[trigger] g_iter@[k] < 81,
    ensures
        final(sudoku)@ == thinned(old(sudoku)@, mask, g_iter@),
        r.is_none() <==> count_cells(thins(old(sudoku)@, mask, g_iter@), 81) == 0,
        r.is_none() <==> final(sudoku)@ == old(sudoku)@,
        r.is_some() ==> r.unwrap().0 == count_cells(thins(old(sudoku)@, mask, g_iter@), 81)
            && r.unwrap().1 == count_cells(settles(old(sudoku)@, mask, g_iter@), 81),
        shrunk(old(sudoku)@, final(sudoku)@),
        digit_total(final(sudoku)@, 81) <= digit_total(old(sudoku)@, 81),
{
    let ghost g = sudoku@;
    let mut changed: usize = 0;
    let mut solved: usize = 0;
    let mut n: usize = 0;
    sudoku.well_formed();
    proof {
        let none = thins(g, mask, g_iter@.take(0));
        let nones = settles(g, mask, g_iter@.take(0));
        assert forall|i: int| 0 <= i < 81 implies !#[trigger] none(i) by {}
        assert forall|i: int| 0 <= i < 81 implies !#[trigger] nones(i) by {}
        lemma_count_bounds(none, 81);
        lemma_count_bounds(nones, 81);
        assert(sudoku@ =~= thinned(g, mask, g_iter@.take(0)));
    }
    while n < g_iter.len()
        invariant
            g == old(sudoku)@,
            grid_ok(g),
            n <= g_iter@.len(),
            forall|k: int| 0 <= k < g_iter@.len() ==> #[trigger] g_iter@[k] < 81,
            sudoku@ == thinned(g, mask, g_iter@.take(n as int)),
            changed == count_cells(thins(g, mask, g_iter@.take(n as int)), 81),
            solved == count_cells(settles(g, mask, g_iter@.take(n as int)), 81),
            changed <= 81,
            solved <= 81,
        decreases g_iter@.len() - n,
    {
        let p = g_iter[n];
        let ghost before = g_iter@.take(n as int);
        let ghost after = g_iter@.take(n + 1);
        proof {
            lemma_thinned_cell(g[p as int], mask);
            assert(after[n as int] == p);
            assert forall|i: int| listed(after, i) == (listed(before, i) || i == p) by {
                if listed(before, i) {
                    let k = choose|k: int| 0 <= k < before.len() && before[k] == i;
                    assert(after[k] == i);
                }
                if listed(after, i) {
                    let k = choose|k: int| 0 <= k < after.len() && after[k] == i;
                    if k < n {
                        assert(before[k] == i);
                    }
                }
            }
            lemma_count_bounds(thins(g, mask, after), 81);
            lemma_count_bounds(settles(g, mask, after), 81);
            if listed(before, p as int) {
                lemma_count_same(thins(g, mask, before), thins(g, mask, after), 81);
                lemma_count_same(settles(g, mask, before), settles(g, mask, after), 81);
            } else {
                if thins(g, mask, after)(p as int) {
                    lemma_count_gain(thins(g, mask, before), thins(g, mask, after), 81, p as int);
                } else {
                    lemma_count_same(thins(g, mask, before), thins(g, mask, after), 81);
                }
                if settles(g, mask, after)(p as int) {
                    lemma_count_gain(
                        settles(g, mask, before),
                        settles(g, mask, after),
                        81,
                        p as int,
                    );
                } else {
                    lemma_count_same(settles(g, mask, before), settles(g, mask, after), 81);
                }
            }
        }
        let (c, s) = remove_candidate(sudoku, mask, p);
        changed += c;
        solved += s;
        proof {
            assert(sudoku@ =~= thinned(g, mask, after));
        }
        n += 1;
    }
    proof {
        assert(g_iter@.take(g_iter@.len() as int) =~= g_iter@);
        lemma_thinned(g, mask, g_iter@);
        lemma_count_bounds(thins(g, mask, g_iter@), 81);
        if changed == 0 {
            assert forall|i: int| 0 <= i < 81 implies sudoku@[i] == g[i] by {
                assert(!thins(g, mask, g_iter@)(i));
            }
            assert(sudoku@ =~= g);
        } else {
            let i = choose|i: int| 0 <= i < 81 && #[trigger] thins(g, mask, g_iter@)(i);
            assert(sudoku@[i] != g[i]);
        }
        if solved > 0 {
            lemma_count_bounds(settles(g, mask, g_iter@), 81);
            let i = choose|i: int| 0 <= i < 81 && #[trigger] settles(g, mask, g_iter@)(i);
            assert(thins(g, mask, g_iter@)(i));
        }
    }
    if changed > 0 || solved > 0 {
        Some((changed, solved))
    } else {
        None
    }
}

/// Whether one of the first `n` cells of `sub` holds digit `d`.
pub open spec fn inside(g: Seq<usize>, sub: Seq<usize>, n: int, d: nat) -> bool {
    exists|j: int| 0 <= j < n && #[trigger] has_bit(g[sub[j] as int], d)
}

/// Whether one of the first `n` of `cells` that `sub` does not list holds
/// digit `d`.
pub open spec fn outside(g: Seq<usize>, cells: Seq<int>, sub: Seq<usize>, n: int, d: nat) -> bool {
    exists|p: int| 0 <= p < n && !listed(sub, cells[p]) && #[trigger] has_bit(g[cells[p]], d)
}

/// The digits that the cells of `sub` hold between them.
pub open spec fn sub_mask(g: Seq<usize>, sub: Seq<usize>) -> usize {
    from_bits(|d: nat| d < 9 && inside(g, sub, sub.len() as int, d))
}

/// The digits that the cells of the group outside `sub` hold between
/// them.
pub open spec fn other_mask(g: Seq<usize>, cells: Seq<int>, sub: Seq<usize>) -> usize {
    from_bits(|d: nat| d < 9 && outside(g, cells, sub, cells.len() as int, d))
}

/// A naked subset: as many cells as they hold digits between them, one of
/// which another cell of the group holds too.
pub open spec fn is_naked(g: Seq<usize>, cells: Seq<int>, sub: Seq<usize>) -> bool {
    &&& digit_count(sub_mask(g, sub)) == sub.len()
    &&& other_mask(g, cells, sub) & sub_mask(g, sub) != 0
}

/// A hidden subset: as many cells as there are digits that only they
/// hold, while they hold others besides.
pub open spec fn is_hidden(g: Seq<usize>, cells: Seq<int>, sub: Seq<usize>) -> bool {
    &&& !is_naked(g, cells, sub)
    &&& digit_count(sub_mask(g, sub) & !other_mask(g, cells, sub)) == sub.len()
    &&& digit_count(sub_mask(g, sub)) > sub.len()
}

/// The digits that the cells aimed at keep: for a naked subset, all but
/// those of the subset; for a hidden one, those that only the subset
/// holds.
pub open spec fn subset_keep(g: Seq<usize>, cells: Seq<int>, sub: Seq<usize>) -> usize {
    if is_naked(g, cells, sub) {
        !sub_mask(g, sub)
    } else {
        sub_mask(g, sub) & !other_mask(g, cells, sub)
    }
}

/// Whether cell `i` is aimed at: for a naked subset, the cells of the
/// group outside the subset; for a hidden one, the cells of the subset.
pub open spec fn aimed(cells: Seq<int>, sub: Seq<usize>, naked: bool, i: int) -> bool {
    if naked {
        cells.contains(i) && !listed(sub, i)
    } else {
        listed(sub, i)
    }
}

/// The grid with the cells aimed at thinned to the digits of `keep`.
pub open spec fn applied(
    g: Seq<usize>,
    keep: usize,
    cells: Seq<int>,
    sub: Seq<usize>,
    naked: bool,
) -> Seq<usize> {
    Seq::new(
        81,
        |i: int|
            if aimed(cells, sub, naked, i) {
                thinned_cell(g[i], keep)
            } else {
                g[i]
            },
    )
}

/// Whether cell `i` is aimed at and loses a candidate.
pub open spec fn applied_thins(
    g: Seq<usize>,
    keep: usize,
    cells: Seq<int>,
    sub: Seq<usize>,
    naked: bool,
) -> spec_fn(int) -> bool {
    |i: int| aimed(cells, sub, naked, i) && thinned_cell(g[i], keep) != g[i]
}

/// Whether cell `i` is aimed at and is taken down to a single candidate.
pub open spec fn applied_settles(
    g: Seq<usize>,
    keep: usize,
    cells: Seq<int>,
    sub: Seq<usize>,
    naked: bool,
) -> spec_fn(int) -> bool {
    |i: int|
        aimed(cells, sub, naked, i) && thinned_cell(g[i], keep) != g[i] && single(
            thinned_cell(g[i], keep),
        )
}

/// A subset found in a group.  The mask holds the digits that the cells
/// aimed at keep; the list holds the cells of the subset.
#[derive(Debug)]
pub enum Subset {
    /// Aims at the cells of the group outside the subset.
    Naked(usize, Vec<usize>),
    /// Aims at the cells of the subset.
    Hidden(usize, Vec<usize>),
}

/// Whether `v` lists `x`.
pub fn contains(v: &Vec<usize>, x: usize) -> (r: bool)
    ensures
        r == listed(v@, x as int),
{
    let mut j: usize = 0;
    while j < v.len()
        invariant
            j <= v@.len(),
            forall|k: int| 0 <= k < j ==> v@[k] != x,
        decreases v@.len() - j,
    {
        if v[j] == x {
            return true;
        }
        j += 1;
    }
    false
}

/// The cells that `g_iter` hands out and `subset` does not list.
pub fn others(g_iter: FastIndexIter, subset: &Vec<usize>) -> (r: Vec<usize>)
    requires
        g_iter.step() == 0,
        forall|k: int| 0 <= k < g_iter.cells().len() ==> 0 <= #[trigger] g_iter.cells()[k] < 81,
    ensures
        forall|k: int| 0 <= k < r@.len() ==> #[trigger] r@[k] < 81,
        forall|c: int|
            #[trigger] listed(r@, c) <==> g_iter.cells().contains(c) && !listed(subset@, c),
{
    let mut it = g_iter;
    let ghost cells = g_iter.cells();
    let mut r: Vec<usize> = Vec::new();
    loop
        invariant
            cells == g_iter.cells(),
            it.cells() == cells,
            0 <= it.step() <= cells.len(),
            forall|k: int| 0 <= k < cells.len() ==> 0 <= #[trigger] cells[k] < 81,
            forall|k: int| 0 <= k < r@.len() ==> #[trigger] r@[k] < 81,
            forall|c: int|
                #[trigger] listed(r@, c) <==> cells.take(it.step()).contains(c) && !listed(
                    subset@,
                    c,
                ),
        ensures
            it.step() == cells.len(),
        decreases cells.len() - it.step(),
    {
        let ghost t0 = it.step();
        let ghost before = r@;
        let i = match it.next() {
            None => {
                break ;
            },
            Some(i) => i,
        };
        assert(cells[t0] == i);
        if !contains(subset, i) {
            r.push(i);
        }
        proof {
            let after = r@;
            let seen0 = cells.take(t0);
            let seen1 = cells.take(t0 + 1);
            assert(seen1[t0] == i);
            assert forall|c: int| #[trigger] listed(after, c) <==> seen1.contains(c) && !listed(
                subset@,
                c,
            ) by {
                if listed(after, c) {
                    let k = choose|k: int| 0 <= k < after.len() && after[k] == c;
                    if k < before.len() {
                        assert(before[k] == c);
                        assert(listed(before, c));
                        let t = choose|t: int| 0 <= t < seen0.len() && seen0[t] == c;
                        assert(seen1[t] == c);
                    }
                }
                if seen1.contains(c) && !listed(subset@, c) {
                    let t = choose|t: int| 0 <= t < seen1.len() && seen1[t] == c;
                    if t < t0 {
                        assert(seen0[t] == c);
                        assert(listed(before, c));
                        let k = choose|k: int| 0 <= k < before.len() && before[k] == c;
                        assert(after[k] == c);
                    } else {
                        assert(after[after.len() - 1] == c);
                    }
                }
            }
        }
    }
    proof {
        assert(cells.take(cells.len() as int) =~= cells);
    }
    r
}

/// The digits that the listed cells hold between them.
pub fn union_mask(sudoku: &Sudoku, cells: &Vec<usize>) -> (m: usize)
    requires
        forall|k: int| 0 <= k < cells@.len() ==> #[trigger] cells@[k] < 81,
    ensures
        m == sub_mask(sudoku@, cells@),
        m <= ALL_CAND,
{
    let ghost g = sudoku@;
    let mut m: usize = 0;
    let mut j: usize = 0;
    while j < cells.len()
        invariant
            j <= cells@.len(),
            g == sudoku@,
            m <= ALL_CAND,
            forall|k: int| 0 <= k < cells@.len() ==> #[trigger] cells@[k] < 81,
            forall|d: nat| d < 9 ==> has_bit(m, d) == inside(g, cells@, j as int, d),
        decreases cells@.len() - j,
    {
        let c = sudoku.cell(cells[j]).get_candidates();
        let ghost m0 = m;
        proof {
            lemma_mask_bounds(m, c);
        }
        m = m | c;
        proof {
            assert forall|d: nat| d < 9 implies has_bit(m, d) == inside(g, cells@, j + 1, d) by {
                assert(has_bit(c, d) == has_bit(g[cells@[j as int] as int], d));
                if inside(g, cells@, j as int, d) {
                    let k = choose|k: int| 0 <= k < j && has_bit(g[cells@[k] as int], d);
                    assert(has_bit(g[cells@[k] as int], d));
                }
                if inside(g, cells@, j + 1, d) {
                    let k = choose|k: int| 0 <= k < j + 1 && has_bit(g[cells@[k] as int], d);
                    if k < j {
                        assert(has_bit(g[cells@[k] as int], d));
                    }
                }
                if has_bit(c, d) {
                    assert(has_bit(g[cells@[j as int] as int], d));
                }
            }
        }
        j += 1;
    }
    proof {
        let want = sub_mask(g, cells@);
        assert forall|d: nat| d < 10 implies has_bit(m, d) == has_bit(want, d) by {
            if d == 9 {
                lemma_digits_only(m, 9);
            }
        }
        lemma_mask_ext(m, want);
    }
    m
}

/// The digits that the cells outside a subset hold are those that the
/// list of these cells holds.
proof fn lemma_other_mask(g: Seq<usize>, cells: Seq<int>, sub: Seq<usize>, rest: Seq<usize>)
    requires
        forall|c: int| #[trigger] listed(rest, c) <==> cells.contains(c) && !listed(sub, c),
    ensures
        sub_mask(g, rest) == other_mask(g, cells, sub),
{
    let a = sub_mask(g, rest);
    let b = other_mask(g, cells, sub);
    assert forall|d: nat| d < 10 implies has_bit(a, d) == has_bit(b, d) by {
        if d < 9 {
            if inside(g, rest, rest.len() as int, d) {
                let j = choose|j: int| 0 <= j < rest.len() && has_bit(g[rest[j] as int], d);
                let c = rest[j] as int;
                assert(listed(rest, c));
                let p = choose|p: int| 0 <= p < cells.len() && cells[p] == c;
                assert(has_bit(g[cells[p]], d));
            }
            if outside(g, cells, sub, cells.len() as int, d) {
                let p = choose|p: int|
                    0 <= p < cells.len() && !listed(sub, cells[p]) && has_bit(g[cells[p]], d);
                assert(cells.contains(cells[p]));
                assert(listed(rest, cells[p]));
                let j = choose|j: int| 0 <= j < rest.len() && rest[j] == cells[p];
                assert(has_bit(g[rest[j] as int], d));
            }
        }
    }
    lemma_mask_ext(a, b);
}

/// Looks whether the cells of `subset` form a naked or a hidden subset of
/// the group that `g_iter` hands out.
pub fn gen_subset(sudoku: &Sudoku, subset: Vec<usize>, g_iter: FastIndexIter) -> (r: Option<
    Subset,
>)
    requires
        g_iter.step() == 0,
        forall|k: int| 0 <= k < g_iter.cells().len() ==> 0 <= #[trigger] g_iter.cells()[k] < 81,
        forall|k: int| 0 <= k < subset@.len() ==> #[trigger] subset@[k] < 81,
    ensures
        r.is_none() <==> !is_naked(sudoku@, g_iter.cells(), subset@) && !is_hidden(
            sudoku@,
            g_iter.cells(),
            subset@,
        ),
        match r {
            None => true,
            Some(Subset::Naked(keep, v)) => is_naked(sudoku@, g_iter.cells(), subset@) && keep
                == subset_keep(sudoku@, g_iter.cells(), subset@) && v@ == subset@,
            Some(Subset::Hidden(keep, v)) => is_hidden(sudoku@, g_iter.cells(), subset@) && keep
                == subset_keep(sudoku@, g_iter.cells(), subset@) && v@ == subset@,
        },
{
    let expected_count = subset.len();
    let mask: usize = union_mask(sudoku, &subset);
    let rest = others(g_iter, &subset);
    let other: usize = union_mask(sudoku, &rest);
    proof {
        lemma_other_mask(sudoku@, g_iter.cells(), subset@, rest@);
        lemma_mask_bounds(mask, !other);
        lemma_ones_is_digit_count(mask);
        lemma_ones_is_digit_count(mask & !other);
    }
    let m_count = mask.count_ones() as usize;
    let m_only_count = (mask & !other).count_ones() as usize;
    if m_count == expected_count && (other & mask) != 0 {
        // As many candidates as cells, and one of them elsewhere too: the
        // other cells can lose them.
        Some(Subset::Naked(!mask, subset))
    } else if m_only_count == expected_count && m_count > expected_count {
        // As many candidates as cells are found nowhere else: the cells of
        // the subset can lose the rest.
        Some(Subset::Hidden(mask & !other, subset))
    } else {
        None
    }
}

/// Thins the cells that the subset `m` aims at.  Returns the number of
/// cells that lost a candidate and the number of those taken down to a
/// single one; `None` if no cell lost any.
pub fn handle_subset(sudoku: &mut Sudoku, m: Subset, i: FastIndexIter) -> (r: Option<
    (usize, usize),
>)
    requires
        i.step() == 0,
        forall|k: int| 0 <= k < i.cells().len() ==> 0 <= #[trigger] i.cells()[k] < 81,
        forall|k: int| 0 <= k < subset_cells(m).len() ==> #[trigger] subset_cells(m)[k] < 81,
    ensures
        final(sudoku)@ == applied(
            old(sudoku)@,
            subset_mask(m),
            i.cells(),
            subset_cells(m),
            m is Naked,
        ),
        r.is_none() <==> final(sudoku)@ == old(sudoku)@,
        r.is_none() <==> count_cells(
            applied_thins(old(sudoku)@, subset_mask(m), i.cells(), subset_cells(m), m is Naked),
            81,
        ) == 0,
        r.is_some() ==> r.unwrap().0 == count_cells(
            applied_thins(old(sudoku)@, subset_mask(m), i.cells(), subset_cells(m), m is Naked),
            81,
        ) && r.unwrap().1 == count_cells(
            applied_settles(old(sudoku)@, subset_mask(m), i.cells(), subset_cells(m), m is Naked),
            81,
        ),
        shrunk(old(sudoku)@, final(sudoku)@),
        digit_total(final(sudoku)@, 81) <= digit_total(old(sudoku)@, 81),
{
    let ghost g = sudoku@;
    let ghost cells = i.cells();
    match m {
        Subset::Naked(mask, v) => {
            // For all cells other than those of the subset.
            let targets = others(i, &v);
            proof {
                lemma_retarget(g, mask, cells, v@, true, targets@);
            }
            remove_candidates(sudoku, mask, targets)
        },
        Subset::Hidden(mask, v) => {
            // For the cells of the subset.
            proof {
                lemma_retarget(g, mask, cells, v@, false, v@);
                assert forall|k: int| 0 <= k < v@.len() implies #[trigger] v@[k] < 81 by {
                    assert(subset_cells(m)[k] < 81);
                }
            }
            remove_candidates(sudoku, mask, v)
        },
    }
}

/// The mask of a subset found.
pub open spec fn subset_mask(m: Subset) -> usize {
    match m {
        Subset::Naked(mask, _) => mask,
        Subset::Hidden(mask, _) => mask,
    }
}

/// The cells of a subset found.
pub open spec fn subset_cells(m: Subset) -> Seq<usize> {
    match m {
        Subset::Naked(_, v) => v@,
        Subset::Hidden(_, v) => v@,
    }
}

/// Thinning a list of the cells aimed at is thinning the cells aimed at.
proof fn lemma_retarget(
    g: Seq<usize>,
    keep: usize,
    cells: Seq<int>,
    sub: Seq<usize>,
    naked: bool,
    targets: Seq<usize>,
)
    requires
        g.len() == 81,
        forall|c: int| #[trigger] listed(targets, c) <==> aimed(cells, sub, naked, c),
    ensures
        thinned(g, keep, targets) == applied(g, keep, cells, sub, naked),
        count_cells(thins(g, keep, targets), 81) == count_cells(
            applied_thins(g, keep, cells, sub, naked),
            81,
        ),
        count_cells(settles(g, keep, targets), 81) == count_cells(
            applied_settles(g, keep, cells, sub, naked),
            81,
        ),
{
    assert(thinned(g, keep, targets) =~= applied(g, keep, cells, sub, naked));
    lemma_count_same(thins(g, keep, targets), applied_thins(g, keep, cells, sub, naked), 81);
    lemma_count_same(settles(g, keep, targets), applied_settles(g, keep, cells, sub, naked), 81);
}

/// The cells at the positions `t` of a group.
pub open spec fn picked(cells: Seq<int>, t: Seq<int>) -> Seq<usize> {
    Seq::new(t.len(), |j: int| cells[t[j]] as usize)
}

/// The grid after the cells of `sub` have been used as a subset of their
/// group.
pub open spec fn subset_applied(g: Seq<usize>, cells: Seq<int>, sub: Seq<usize>) -> Seq<usize> {
    applied(g, subset_keep(g, cells, sub), cells, sub, is_naked(g, cells, sub))
}

/// The number of cells that lose a candidate when the cells of `sub` are
/// used as a subset of their group.
pub open spec fn subset_thinned(g: Seq<usize>, cells: Seq<int>, sub: Seq<usize>) -> nat {
    count_cells(
        applied_thins(g, subset_keep(g, cells, sub), cells, sub, is_naked(g, cells, sub)),
        81,
    )
}

/// The number of cells that are taken down to a single candidate when the
/// cells of `sub` are used as a subset of their group.
pub open spec fn subset_settled(g: Seq<usize>, cells: Seq<int>, sub: Seq<usize>) -> nat {
    count_cells(
        applied_settles(g, subset_keep(g, cells, sub), cells, sub, is_naked(g, cells, sub)),
        81,
    )
}

/// Whether the cells of `sub` are a naked or hidden subset of their group
/// that takes a candidate from a cell.
pub open spec fn works(g: Seq<usize>, cells: Seq<int>, sub: Seq<usize>) -> bool {
    (is_naked(g, cells, sub) || is_hidden(g, cells, sub)) && subset_thinned(g, cells, sub) > 0
}

/// A naked or hidden subset always takes a candidate from a cell: to be
/// one is to work.
pub proof fn lemma_subset_takes(g: Seq<usize>, cells: Seq<int>, sub: Seq<usize>)
    requires
        grid_ok(g),
        forall|k: int| 0 <= k < cells.len() ==> 0 <= #[trigger] cells[k] < 81,
        forall|k: int| 0 <= k < sub.len() ==> #[trigger] sub[k] < 81,
        is_naked(g, cells, sub) || is_hidden(g, cells, sub),
    ensures
        works(g, cells, sub),
{
    let mask = sub_mask(g, sub);
    let other = other_mask(g, cells, sub);
    let keep = subset_keep(g, cells, sub);
    let naked = is_naked(g, cells, sub);
    let hits = applied_thins(g, keep, cells, sub, naked);
    lemma_count_bounds(hits, 81);
    if naked {
        let x = other & mask;
        lemma_mask_bounds(other, mask);
        lemma_lowest_bit(x);
        let d = lowest_bit(x);
        assert(has_bit(x, d));
        assert(has_bit(other, d) && has_bit(mask, d));
        let p = choose|p: int|
            0 <= p < cells.len() && !listed(sub, cells[p]) && has_bit(g[cells[p]], d);
        let c = cells[p];
        assert(cells.contains(c));
        lemma_thinned_cell(g[c], keep);
        assert(!has_bit(keep, d));
        assert(hits(c));
    } else {
        let only = mask & !other;
        if forall|d: nat| d < 9 && has_bit(mask, d) ==> has_bit(only, d) {
            lemma_cell_digits(only, mask);
            assert forall|d: nat| d < 9 && has_bit(only, d) implies has_bit(mask, d) by {}
            lemma_cell_digits(mask, only);
        }
        let d = choose|d: nat| d < 9 && has_bit(mask, d) && !has_bit(only, d);
        let j = choose|j: int| 0 <= j < sub.len() && has_bit(g[sub[j] as int], d);
        let c = sub[j] as int;
        assert(listed(sub, c));
        lemma_thinned_cell(g[c], keep);
        assert(hits(c));
    }
}

/// The first subset after the slots `s`, in the order of the enumeration,
/// that works in the group of `cells`.
pub open spec fn find_in_group(g: Seq<usize>, cells: Seq<int>, s: Seq<int>) -> Option<Seq<int>>
    decreases behind(s),
    when sane(s)
    via find_in_group_decreases
{
    match advance(s) {
        None => None,
        Some(t) => if works(g, cells, picked(cells, t)) {
            Some(t)
        } else {
            find_in_group(g, cells, t)
        },
    }
}

#[via_fn]
proof fn find_in_group_decreases(g: Seq<usize>, cells: Seq<int>, s: Seq<int>) {
    lemma_advance_behind(s);
}

/// The first subset that works, from search step `m` on: the steps go
/// through the sizes 2, 3 and 4, for each size through the 27 groups, rows
/// first, then columns, then boxes.  The result names the step and the
/// positions of the subset in its group.
pub open spec fn find_subset_from(g: Seq<usize>, m: int) -> Option<(int, Seq<int>)>
    decreases 81 - m,
{
    if m < 0 || m >= 81 {
        None
    } else {
        match find_in_group(g, nth_group(m % 27), start_slots(2 + m / 27)) {
            Some(t) => Some((m, t)),
            None => find_subset_from(g, m + 1),
        }
    }
}

/// The grid after the search for a subset: the first subset that works
/// has been used, and no other.
pub open spec fn subset_result(g: Seq<usize>) -> Seq<usize> {
    match find_subset_from(g, 0) {
        None => g,
        Some((m, t)) => subset_applied(g, nth_group(m % 27), picked(nth_group(m % 27), t)),
    }
}

/// The number of cells that the search for a subset thins, and the number
/// of those that it takes down to a single candidate.
pub open spec fn subset_changes(g: Seq<usize>) -> (nat, nat) {
    match find_subset_from(g, 0) {
        None => (0, 0),
        Some((m, t)) => (
            subset_thinned(g, nth_group(m % 27), picked(nth_group(m % 27), t)),
            subset_settled(g, nth_group(m % 27), picked(nth_group(m % 27), t)),
        ),
    }
}

/// The group and the size that search step `m` looks at.
proof fn lemma_search_step(m: int)
    requires
        0 <= m < 81,
    ensures
        0 <= (m % 27) / 9 < 3,
        2 <= 2 + m / 27 <= 4,
        nth_group(m % 27) == ALL_GROUPINGS[(m % 27) / 9].members(m % 9),
        nth_group(m % 27).len() == 9,
        forall|k: int| 0 <= k < 9 ==> 0 <= #[trigger] nth_group(m % 27)[k] < 81,
        sane(start_slots(2 + m / 27)),
{
    let n = m % 27;
    assert(n % 9 == m % 9);
    let g = ALL_GROUPINGS[n / 9];
    assert forall|k: int| 0 <= k < 9 implies 0 <= #[trigger] nth_group(n)[k] < 81 by {
        lemma_cell_in_group(g, n % 9, k);
    }
    let k = 2 + m / 27;
    assert(k == 2 || k == 3 || k == 4);
}

/// Where no subset works in the group of search step `m`, the search goes
/// on with the next step.
proof fn lemma_search_on(g: Seq<usize>, m: int)
    requires
        0 <= m < 81,
        find_in_group(g, nth_group(m % 27), start_slots(2 + m / 27)).is_none(),
    ensures
        find_subset_from(g, m) == find_subset_from(g, m + 1),
{
}

/// Where a subset works in the group of search step `m`, the search ends
/// with it.
proof fn lemma_search_found(g: Seq<usize>, m: int, s: Seq<int>, t: Seq<int>)
    requires
        0 <= m < 81,
        sane(s),
        advance(s) == Some(t),
        works(g, nth_group(m % 27), picked(nth_group(m % 27), t)),
        find_in_group(g, nth_group(m % 27), start_slots(2 + m / 27)) == find_in_group(
            g,
            nth_group(m % 27),
            s,
        ),
    ensures
        find_subset_from(g, m) == Some((m, t)),
{
}

/// Where the subset after `s` does not work, the search in the group goes
/// on behind it.
proof fn lemma_search_next(g: Seq<usize>, cells: Seq<int>, s: Seq<int>, t: Seq<int>)
    requires
        sane(s),
        advance(s) == Some(t),
        !works(g, cells, picked(cells, t)),
    ensures
        find_in_group(g, cells, s) == find_in_group(g, cells, t),
{
    lemma_advance_behind(s);
    assert(advance(s).unwrap() == t);
}

/// Where the enumeration ends, the search in the group has found nothing.
proof fn lemma_search_end(g: Seq<usize>, cells: Seq<int>, s: Seq<int>)
    requires
        sane(s),
        advance(s).is_none(),
    ensures
        find_in_group(g, cells, s).is_none(),
{
}

/// Using a subset shrinks the grid.
pub proof fn lemma_applied(g: Seq<usize>, keep: usize, cells: Seq<int>, sub: Seq<usize>, naked: bool)
    requires
        grid_ok(g),
    ensures
        grid_ok(applied(g, keep, cells, sub, naked)),
        shrunk(g, applied(g, keep, cells, sub, naked)),
{
    let p = applied(g, keep, cells, sub, naked);
    assert forall|i: int| 0 <= i < 81 implies #[trigger] p[i] < MASK_LIMIT && cell_shrunk(
        g[i],
        p[i],
    ) by {
        lemma_thinned_cell(g[i], keep);
    }
}

/// A subset that the search in a group finds works.
pub proof fn lemma_found_works(g: Seq<usize>, cells: Seq<int>, s: Seq<int>)
    requires
        sane(s),
        find_in_group(g, cells, s).is_some(),
    ensures
        works(g, cells, picked(cells, find_in_group(g, cells, s).unwrap())),
    decreases behind(s),
{
    lemma_advance_behind(s);
    let t = advance(s).unwrap();
    if !works(g, cells, picked(cells, t)) {
        lemma_found_works(g, cells, t);
    }
}

/// A subset that the search finds works, in the group of its search step.
pub proof fn lemma_find_subset(g: Seq<usize>, m: int)
    requires
        0 <= m <= 81,
        find_subset_from(g, m).is_some(),
    ensures
        m <= find_subset_from(g, m).unwrap().0 < 81,
        works(
            g,
            nth_group(find_subset_from(g, m).unwrap().0 % 27),
            picked(
                nth_group(find_subset_from(g, m).unwrap().0 % 27),
                find_subset_from(g, m).unwrap().1,
            ),
        ),
    decreases 81 - m,
{
    if m < 81 {
        lemma_search_step(m);
        if find_in_group(g, nth_group(m % 27), start_slots(2 + m / 27)).is_some() {
            lemma_found_works(g, nth_group(m % 27), start_slots(2 + m / 27));
        } else {
            lemma_find_subset(g, m + 1);
        }
    }
}

/// The search for a subset shrinks the grid, and changes it exactly if it
/// takes a candidate from a cell.
pub proof fn lemma_subset_result(g: Seq<usize>)
    requires
        grid_ok(g),
    ensures
        grid_ok(subset_result(g)),
        shrunk(g, subset_result(g)),
        subset_changes(g).0 <= 81,
        subset_changes(g).0 == 0 <==> subset_result(g) == g,
{
    match find_subset_from(g, 0) {
        None => {
            lemma_applied(g, 0, Seq::empty(), Seq::empty(), false);
            assert(applied(g, 0, Seq::empty(), Seq::empty(), false) =~= g);
        },
        Some((m, t)) => {
            lemma_find_subset(g, 0);
            let cells = nth_group(m % 27);
            let sub = picked(cells, t);
            let keep = subset_keep(g, cells, sub);
            let naked = is_naked(g, cells, sub);
            lemma_applied(g, keep, cells, sub, naked);
            lemma_count_bounds(applied_thins(g, keep, cells, sub, naked), 81);
            let i = choose|i: int|
                0 <= i < 81 && #[trigger] applied_thins(g, keep, cells, sub, naked)(i);
            assert(subset_result(g)[i] != g[i]);
        },
    }
}

/// A subset that thins a cell leaves fewer candidates on the grid.
pub proof fn lemma_subset_strikes(g: Seq<usize>)
    requires
        grid_ok(g),
        subset_changes(g).0 > 0,
    ensures
        digit_total(subset_result(g), 81) < digit_total(g, 81),
{
    let m = find_subset_from(g, 0).unwrap().0;
    let t = find_subset_from(g, 0).unwrap().1;
    let cells = nth_group(m % 27);
    let sub = picked(cells, t);
    let keep = subset_keep(g, cells, sub);
    let naked = is_naked(g, cells, sub);
    let r = subset_result(g);
    lemma_applied(g, keep, cells, sub, naked);
    lemma_count_bounds(applied_thins(g, keep, cells, sub, naked), 81);
    let i = choose|i: int| 0 <= i < 81 && #[trigger] applied_thins(g, keep, cells, sub, naked)(i);
    lemma_thinned_cell(g[i], keep);
    let d = choose|d: nat| d < 9 && has_bit(g[i], d) && !has_bit(keep, d);
    assert(r[i] == thinned_cell(g[i], keep));
    assert(has_bit(g[i], d) && !has_bit(r[i], d));
    lemma_fewer(g, r, 81, i);
}

/// The positions that the search in a group finds are those of a subset:
/// as many as the search goes for, in ascending order.
pub proof fn lemma_found_ascending(g: Seq<usize>, cells: Seq<int>, s: Seq<int>)
    requires
        sane(s),
        ascending(s) || s == start_slots(s.len() as int),
        find_in_group(g, cells, s).is_some(),
    ensures
        find_in_group(g, cells, s).unwrap().len() == s.len(),
        ascending(find_in_group(g, cells, s).unwrap()),
    decreases behind(s),
{
    lemma_advance_behind(s);
    lemma_advance_ascending(s);
    let t = advance(s).unwrap();
    if !works(g, cells, picked(cells, t)) {
        lemma_found_ascending(g, cells, t);
    }
}

/// The subset that the search finds has two, three or four cells, at
/// ascending positions of the group of its search step.
pub proof fn lemma_find_ascending(g: Seq<usize>, m: int)
    requires
        0 <= m <= 81,
        find_subset_from(g, m).is_some(),
    ensures
        find_subset_from(g, m).unwrap().1.len() == 2 + find_subset_from(g, m).unwrap().0 / 27,
        ascending(find_subset_from(g, m).unwrap().1),
    decreases 81 - m,
{
    if m < 81 {
        lemma_search_step(m);
        if find_in_group(g, nth_group(m % 27), start_slots(2 + m / 27)).is_some() {
            lemma_found_ascending(g, nth_group(m % 27), start_slots(2 + m / 27));
        } else {
            lemma_find_ascending(g, m + 1);
        }
    }
}

/// What a naked subset does to the grid `g`, giving `r`: the subset holds
/// as many digits as it has cells; a cell of the group outside the subset
/// loses these digits, and every other cell stays as it is.
pub open spec fn naked_shape(g: Seq<usize>, r: Seq<usize>, cells: Seq<int>, sub: Seq<usize>) -> bool {
    &&& digit_count(sub_mask(g, sub)) == sub.len()
    &&& forall|i: int|
        0 <= i < 81 && #[trigger] r[i] != g[i] ==> cells.contains(i) && !listed(sub, i)
    &&& forall|i: int, d: nat|
        0 <= i < 81 && d < 9 && cells.contains(i) && !listed(sub, i) ==> #[trigger] has_bit(
            r[i],
            d,
        ) == (has_bit(g[i], d) && !has_bit(sub_mask(g, sub), d))
}

/// What a hidden subset does to the grid `g`, giving `r`: as many digits
/// as the subset has cells are held by no other cell of the group; a cell
/// of the subset is cut down to these digits, and every other cell stays
/// as it is.
pub open spec fn hidden_subset_shape(
    g: Seq<usize>,
    r: Seq<usize>,
    cells: Seq<int>,
    sub: Seq<usize>,
) -> bool {
    &&& digit_count(sub_mask(g, sub) & !other_mask(g, cells, sub)) == sub.len()
    &&& forall|i: int| 0 <= i < 81 && #[trigger] r[i] != g[i] ==> listed(sub, i)
    &&& forall|i: int, d: nat|
        0 <= i < 81 && d < 9 && listed(sub, i) ==> #[trigger] has_bit(r[i], d) == (has_bit(g[i], d)
            && has_bit(sub_mask(g, sub), d) && !has_bit(other_mask(g, cells, sub), d))
}

/// The shape of what the search for a subset changes: nothing where no
/// subset works; otherwise the cells of one group, by a naked or a hidden
/// subset of two to four of its cells.
pub proof fn lemma_subset_shape(g: Seq<usize>)
    requires
        grid_ok(g),
    ensures
        find_subset_from(g, 0).is_none() ==> subset_result(g) == g,
        find_subset_from(g, 0).is_some() ==> ({
            let m = find_subset_from(g, 0).unwrap().0;
            let t = find_subset_from(g, 0).unwrap().1;
            let cells = nth_group(m % 27);
            let sub = picked(cells, t);
            &&& 0 <= m < 81
            &&& 2 <= sub.len() <= 4
            &&& ascending(t)
            &&& forall|j: int| 0 <= j < sub.len() ==> cells.contains(#[trigger] sub[j] as int)
            &&& is_naked(g, cells, sub) || is_hidden(g, cells, sub)
            &&& is_naked(g, cells, sub) ==> naked_shape(g, subset_result(g), cells, sub)
            &&& is_hidden(g, cells, sub) ==> hidden_subset_shape(g, subset_result(g), cells, sub)
        }),
{
    if find_subset_from(g, 0).is_some() {
        let m = find_subset_from(g, 0).unwrap().0;
        let t = find_subset_from(g, 0).unwrap().1;
        lemma_find_subset(g, 0);
        lemma_find_ascending(g, 0);
        lemma_search_step(m);
        let cells = nth_group(m % 27);
        let sub = picked(cells, t);
        let r = subset_result(g);
        let keep = subset_keep(g, cells, sub);
        assert forall|j: int| 0 <= j < sub.len() implies cells.contains(
            #[trigger] sub[j] as int,
        ) by {
            assert(0 <= t[j] && t[j] + (t.len() - j) <= 9);
            assert(cells[t[j]] == sub[j] as int);
        }
        assert forall|i: int| 0 <= i < 81 implies #[trigger] r[i] == (if aimed(
            cells,
            sub,
            is_naked(g, cells, sub),
            i,
        ) {
            thinned_cell(g[i], keep)
        } else {
            g[i]
        }) by {}
        assert forall|i: int, d: nat| 0 <= i < 81 && d < 9 implies #[trigger] has_bit(
            thinned_cell(g[i], keep),
            d,
        ) == (has_bit(g[i], d) && has_bit(keep, d)) by {
            lemma_thinned_cell(g[i], keep);
        }
        if is_naked(g, cells, sub) {
            assert forall|i: int, d: nat|
                0 <= i < 81 && d < 9 && cells.contains(i) && !listed(sub, i) implies #[trigger] has_bit(
                r[i],
                d,
            ) == (has_bit(g[i], d) && !has_bit(sub_mask(g, sub), d)) by {
                assert(r[i] == thinned_cell(g[i], keep));
                assert(has_bit(thinned_cell(g[i], keep), d) == (has_bit(g[i], d) && has_bit(
                    keep,
                    d,
                )));
            }
        } else {
            assert forall|i: int| 0 <= i < 81 && #[trigger] r[i] != g[i] implies listed(sub, i) by {}
            assert forall|i: int, d: nat|
                0 <= i < 81 && d < 9 && listed(sub, i) implies #[trigger] has_bit(r[i], d) == (
                has_bit(g[i], d) && has_bit(sub_mask(g, sub), d) && !has_bit(
                    other_mask(g, cells, sub),
                    d,
                )) by {
                assert(r[i] == thinned_cell(g[i], keep));
                assert(has_bit(thinned_cell(g[i], keep), d) == (has_bit(g[i], d) && has_bit(
                    keep,
                    d,
                )));
            }
        }
    }
}

/// The search for naked and hidden subsets on a grid.
pub trait FindSubset {
    fn find_subset(&mut self) -> (usize, usize);
}

impl FindSubset for Sudoku {
    /// Goes through the subsets of two, three and four cells of every
    /// group, and uses the first that is a naked or a hidden subset and
    /// takes a candidate from a cell.  Returns the number of cells that
    /// lost a candidate and the number of those taken down to a single
    /// one.
    fn find_subset(&mut self) -> (r: (usize, usize))
        ensures
            final(self)@ == subset_result(old(self)@),
            r.0 == subset_changes(old(self)@).0,
            r.1 == subset_changes(old(self)@).1,
            r.0 == 0 <==> final(self)@ == old(self)@,
            shrunk(old(self)@, final(self)@),
            digit_total(final(self)@, 81) <= digit_total(old(self)@, 81),
    {
        let ghost grid = self@;
        self.well_formed();
        let mut m: usize = 0;
        proof {
            lemma_thinned(grid, 0, Seq::empty());
            assert(thinned(grid, 0, Seq::empty()) =~= grid);
        }
        while m < 81
            invariant
                m <= 81,
                grid == old(self)@,
                self@ == grid,
                grid_ok(grid),
                shrunk(grid, grid),
                find_subset_from(grid, 0) == find_subset_from(grid, m as int),
            decreases 81 - m,
        {
            proof {
                lemma_search_step(m as int);
            }
            let sub_size = 2 + m / 27;
            let g = ALL_GROUPINGS[(m % 27) / 9];
            let idx = m % 9;
            let ghost cells = nth_group(m as int % 27);
            let ghost start = start_slots(sub_size as int);
            let mut it = g.sub_iter(idx, sub_size);
            loop
                invariant
                    m < 81,
                    idx < 9,
                    grid == old(self)@,
                    self@ == grid,
                    grid_ok(grid),
                    shrunk(grid, grid),
                    find_subset_from(grid, 0) == find_subset_from(grid, m as int),
                    start == start_slots(2 + m as int / 27),
                    cells == nth_group(m as int % 27),
                    cells == g.members(idx as int),
                    cells.len() == 9,
                    forall|k: int| 0 <= k < 9 ==> 0 <= #[trigger] cells[k] < 81,
                    it.cells() == cells,
                    sane(it.slots()),
                    find_in_group(grid, cells, start) == find_in_group(grid, cells, it.slots()),
                ensures
                    find_in_group(grid, cells, start).is_none(),
                decreases behind(it.slots()),
            {
                let ghost s = it.slots();
                proof {
                    lemma_advance_behind(s);
                }
                let sub = match it.next() {
                    None => {
                        proof {
                            lemma_search_end(grid, cells, s);
                        }
                        break ;
                    },
                    Some(sub) => sub,
                };
                let ghost t = it.slots();
                proof {
                    assert forall|j: int| 0 <= j < t.len() implies 0 <= #[trigger] t[j] < 9 by {}
                    assert(sub@ =~= picked(cells, t));
                }
                let found = gen_subset(self, sub, g.iter(idx));
                if let Some(kind) = found {
                    if let Some(r) = handle_subset(self, kind, g.iter(idx)) {
                        proof {
                            assert(works(grid, cells, picked(cells, t)));
                            lemma_search_found(grid, m as int, s, t);
                        }
                        return r;
                    }
                }
                proof {
                    assert(!works(grid, cells, picked(cells, t)));
                    lemma_search_next(grid, cells, s, t);
                }
            }
            proof {
                lemma_search_on(grid, m as int);
            }
            m += 1;
        }
        (0, 0)
    }
}

} // verus!
