//! Striking candidates from a list of cells.

use vstd::prelude::*;
use crate::bits::{
    group_bits, has_bit, lemma_digits_only, lemma_mask_ext, lemma_strike, lemma_strike_digit,
    ALL_CAND, MASK_LIMIT,
};
use crate::candidate_set::CandidateSet;
use crate::index::listed;
use crate::progress::{
    cell_shrunk, count_cells, digit_total, lemma_never_more, lemma_cell_lost, lemma_count_bounds, lemma_count_gain,
    lemma_count_same, shrunk,
};
use crate::sudoku::{lemma_grid_len, Sudoku};

verus! {

broadcast use {group_bits, lemma_never_more, lemma_grid_len};

/// The grid `g` with the bits of `m` struck from the listed cells.
pub open spec fn struck(g: Seq<usize>, m: usize, cells: Seq<usize>) -> Seq<usize> {
    Seq::new(
        g.len(),
        |i: int|
            if listed(cells, i) {
                g[i] & !m
            } else {
                g[i]
            },
    )
}

/// Whether cell `i` is listed and holds a bit of `m`.
pub open spec fn hit(g: Seq<usize>, m: usize, cells: Seq<usize>) -> spec_fn(int) -> bool {
    |i: int| listed(cells, i) && g[i] & m != 0
}

/// A cell that lost digits, and no other bit, is closer to rest.
pub proof fn lemma_struck_cell(v: usize, m: usize)
    requires
        v < MASK_LIMIT,
        m <= ALL_CAND,
    ensures
        cell_shrunk(v, v & !m),
{
    let b = v & !m;
    lemma_strike(v, m);
    if b != v {
        if forall|d: nat| d < 9 ==> has_bit(b, d) == has_bit(v, d) {
            assert forall|d: nat| d < 10 implies has_bit(b, d) == has_bit(v, d) by {
                if d == 9 {
                    lemma_digits_only(m, 9);
                }
            }
            lemma_mask_ext(b, v);
        }
        let d = choose|d: nat| d < 9 && has_bit(b, d) != has_bit(v, d);
        assert(has_bit(v, d) && !has_bit(b, d));
        lemma_cell_lost(v, b);
    }
}

/// Striking digits from cells shrinks the grid.
pub proof fn lemma_struck_shrunk(g: Seq<usize>, m: usize, cells: Seq<usize>)
    requires
        forall|i: int| 0 <= i < g.len() ==> #[trigger] g[i] < MASK_LIMIT,
        m <= ALL_CAND,
    ensures
        shrunk(g, struck(g, m, cells)),
{
    assert forall|i: int| 0 <= i < g.len() implies cell_shrunk(
        #[trigger] g[i],
        struck(g, m, cells)[i],
    ) by {
        lemma_struck_cell(g[i], m);
    }
}

/// Striking one digit from cells takes as many candidates from the grid
/// as cells held it.
pub proof fn lemma_struck_digit(g: Seq<usize>, e: usize, cells: Seq<usize>, n: int)
    requires
        e < 9,
        0 <= n <= g.len(),
    ensures
        digit_total(struck(g, 1usize << e, cells), n) + count_cells(
            hit(g, 1usize << e, cells),
            n,
        ) == digit_total(g, n),
    decreases n,
{
    if n > 0 {
        lemma_struck_digit(g, e, cells, n - 1);
        lemma_strike_digit(g[n - 1], e);
    }
}

/// Striking a mask from the cells that something of type `T` lists.
pub trait RemoveMask<T> {
    /// Whether `iter` names cells of the grid only.
    spec fn on_grid(iter: &T) -> bool;

    fn remove_mask(&mut self, m: usize, iter: T) -> (changed: usize)
        requires
            Self::on_grid(&iter),
    ;
}

impl RemoveMask<Vec<usize>> for Sudoku {
    open spec fn on_grid(iter: &Vec<usize>) -> bool {
        forall|k: int| 0 <= k < iter@.len() ==> #[trigger] iter@[k] < 81
    }

    /// Strikes the bits of `m` from the cells that `iter` lists, and counts
    /// the cells that held one.
    fn remove_mask(&mut self, m: usize, iter: Vec<usize>) -> (changed: usize)
        ensures
            final(self)@ == struck(old(self)@, m, iter@),
            changed == count_cells(hit(old(self)@, m, iter@), 81),
            changed <= 81,
            m <= ALL_CAND ==> shrunk(old(self)@, final(self)@),
            m <= ALL_CAND ==> digit_total(final(self)@, 81) <= digit_total(old(self)@, 81),
    {
        let ghost g = self@;
        let mut changed: usize = 0;
        let mut n: usize = 0;
        self.well_formed();
        proof {
            let none = hit(g, m, iter@.take(0));
            assert forall|i: int| 0 <= i < 81 implies !#[trigger] none(i) by {}
            lemma_count_bounds(none, 81);
            assert(self@ =~= struck(g, m, iter@.take(0)));
        }
        while n < iter.len()
            invariant
                g == old(self)@,
                g.len() == 81,
                forall|i: int| 0 <= i < 81 ==> #[trigger] g[i] < MASK_LIMIT,
                n <= iter@.len(),
                forall|k: int| 0 <= k < iter@.len() ==> #[trigger] iter@[k] < 81,
                self@ == struck(g, m, iter@.take(n as int)),
                changed == count_cells(hit(g, m, iter@.take(n as int)), 81),
                changed <= 81,
            decreases iter@.len() - n,
        {
            let idx = iter[n];
            let cur = self.cell(idx).get();
            let ghost before = iter@.take(n as int);
            let ghost after = iter@.take(n + 1);
            proof {
                lemma_strike(g[idx as int], m);
                lemma_strike(cur, m);
                assert(after[n as int] == idx);
                assert forall|i: int| listed(after, i) == (listed(before, i) || i == idx) by {
                    if listed(before, i) {
                        let k = choose|k: int| 0 <= k < before.len() && before[k] == i;
                        assert(after[k] == i);
                    }
                    if listed(after, i) {
                        let k = choose|k: int| 0 <= k < after.len() && after[k] == i;
                        if k < n {
                            assert(before[k] == i);
                        }
                    }
                }
                lemma_count_bounds(hit(g, m, after), 81);
            }
            if cur & m != 0 {
                let new_cs = CandidateSet::new(cur & !m);
                self.set_cell(idx, new_cs);
                changed += 1;
                proof {
                    assert(!listed(before, idx as int));
                    lemma_count_gain(hit(g, m, before), hit(g, m, after), 81, idx as int);
                }
            } else {
                proof {
                    lemma_count_same(hit(g, m, before), hit(g, m, after), 81);
                }
            }
            proof {
                assert(self@ =~= struck(g, m, after));
            }
            n += 1;
        }
        proof {
            assert(iter@.take(iter@.len() as int) =~= iter@);
            if m <= ALL_CAND {
                lemma_struck_shrunk(g, m, iter@);
            }
        }
        changed
    }
}

} // verus!
