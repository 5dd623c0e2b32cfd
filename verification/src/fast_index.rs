//! Walks over the cells of a row, a column or a box, read from the
//! tabulated data.

use vstd::prelude::*;
use vstd::array::array_as_slice;
use vstd::slice::slice_subrange;
use crate::combinations::{
    advance, lemma_advance_behind, rest, sane, slots_of, start_slots, step_slots,
};
use crate::fast_index_data::{BOX_DATA, COLUMN_DATA, ROW_DATA};
use crate::index_helpers::{box_cell, column_cell, row_cell};

verus! {

/// Each table holds, for every group, the cells that the arithmetic of the
/// grid gives.
pub proof fn lemma_tables(g: int, k: int)
    requires
        0 <= g < 9,
        0 <= k < 9,
    ensures
        ROW_DATA[g * 9 + k] == row_cell(g, k),
        COLUMN_DATA[g * 9 + k] == column_cell(g, k),
        BOX_DATA[g * 9 + k] == box_cell(g, k),
{
}

/// The entries of a table as cells.
pub open spec fn as_cells(data: Seq<u8>) -> Seq<int> {
    Seq::new(data.len(), |k: int| data[k] as int)
}

/// The nine cells of a row.
pub open spec fn row_cells(idx: int) -> Seq<int> {
    Seq::new(9, |k: int| row_cell(idx, k))
}

/// The nine cells of a column.
pub open spec fn column_cells(idx: int) -> Seq<int> {
    Seq::new(9, |k: int| column_cell(idx, k))
}

/// The nine cells of a box.
pub open spec fn box_cells(idx: int) -> Seq<int> {
    Seq::new(9, |k: int| box_cell(idx, k))
}

/// Hands out the cells of one group, one by one.
#[derive(Debug)]
pub struct FastIndexIter {
    incr: usize,
    idx_pos: &'static [u8],
}

impl FastIndexIter {
    /// The cells walked over.
    pub closed spec fn cells(&self) -> Seq<int> {
        as_cells(self.idx_pos@)
    }

    /// How many cells have been handed out.
    pub closed spec fn step(&self) -> int {
        self.incr as int
    }

    /// The next cell; `None` once all have been handed out.
    pub fn next(&mut self) -> (r: Option<usize>)
        ensures
            final(self).cells() == old(self).cells(),
            old(self).step() < old(self).cells().len() ==> r == Some(
                old(self).cells()[old(self).step()] as usize,
            ) && final(self).step() == old(self).step() + 1,
            old(self).step() >= old(self).cells().len() ==> r.is_none() && final(self).step()
                == old(self).step(),
    {
        if self.incr >= self.idx_pos.len() {
            None
        } else {
            let res = Some(self.idx_pos[self.incr] as usize);
            self.incr += 1;
            res
        }
    }
}

/// The cells of row `idx`, from left to right.
pub fn row_iter(idx: usize) -> (it: FastIndexIter)
    requires
        idx < 9,
    ensures
        it.step() == 0,
        it.cells() == row_cells(idx as int),
{
    let start = idx * 9;
    let end = start + 9;
    proof {
        let sub = ROW_DATA@.subrange(start as int, end as int);
        assert forall|k: int| 0 <= k < 9 implies as_cells(sub)[k] == row_cell(idx as int, k) by {
            lemma_tables(idx as int, k);
        }
        assert(as_cells(sub) =~= row_cells(idx as int));
    }
    FastIndexIter { incr: 0, idx_pos: slice_subrange(array_as_slice(&ROW_DATA), start, end) }
}

/// The cells of column `idx`, from top to bottom.
pub fn column_iter(idx: usize) -> (it: FastIndexIter)
    requires
        idx < 9,
    ensures
        it.step() == 0,
        it.cells() == column_cells(idx as int),
{
    let start = idx * 9;
    let end = start + 9;
    proof {
        let sub = COLUMN_DATA@.subrange(start as int, end as int);
        assert forall|k: int| 0 <= k < 9 implies as_cells(sub)[k] == column_cell(idx as int, k) by {
            lemma_tables(idx as int, k);
        }
        assert(as_cells(sub) =~= column_cells(idx as int));
    }
    FastIndexIter { incr: 0, idx_pos: slice_subrange(array_as_slice(&COLUMN_DATA), start, end) }
}

/// The cells of box `idx`, row by row.
pub fn box_iter(idx: usize) -> (it: FastIndexIter)
    requires
        idx < 9,
    ensures
        it.step() == 0,
        it.cells() == box_cells(idx as int),
{
    let start = idx * 9;
    let end = start + 9;
    proof {
        let sub = BOX_DATA@.subrange(start as int, end as int);
        assert forall|k: int| 0 <= k < 9 implies as_cells(sub)[k] == box_cell(idx as int, k) by {
            lemma_tables(idx as int, k);
        }
        assert(as_cells(sub) =~= box_cells(idx as int));
    }
    FastIndexIter { incr: 0, idx_pos: slice_subrange(array_as_slice(&BOX_DATA), start, end) }
}

/// Hands out the subsets of a given size of the nine cells of a group, in
/// lexicographic order of their positions in the group.
#[derive(Debug)]
pub struct CombinationIterator {
    num_idx: usize,
    idx: [usize; 4],
    values: &'static [u8],
}

impl CombinationIterator {
    #[verifier::type_invariant]
    spec fn slots_sane(self) -> bool {
        2 <= self.num_idx <= 4 && sane(slots_of(self.idx, self.num_idx)) && self.values@.len()
            == 9
    }

    /// The positions of the subset handed out last; before the first, the
    /// start of the enumeration.
    pub closed spec fn slots(&self) -> Seq<int> {
        slots_of(self.idx, self.num_idx)
    }

    /// The cells of the group.
    pub closed spec fn cells(&self) -> Seq<int> {
        as_cells(self.values@)
    }

    /// An enumeration of the subsets of size `num_idx` of the nine cells
    /// in `values`.
    pub fn new(num_idx: usize, values: &'static [u8]) -> (it: Self)
        requires
            2 <= num_idx <= 4,
            values@.len() == 9,
        ensures
            it.slots() == start_slots(num_idx as int),
            it.cells() == as_cells(values@),
    {
        let mut idx: [usize; 4] = [0; 4];
        let mut i: usize = 0;
        while i < num_idx
            invariant
                2 <= num_idx <= 4,
                i <= num_idx,
                forall|j: int| 0 <= j < i ==> idx[j] == j,
            decreases num_idx - i,
        {
            idx[i] = i;
            i += 1;
        }
        idx[num_idx - 1] -= 1;
        proof {
            assert(slots_of(idx, num_idx) =~= start_slots(num_idx as int));
        }
        CombinationIterator { num_idx, idx, values }
    }

    /// The positions of the subsets still to come, in order.
    pub open spec fn remaining(&self) -> Seq<Seq<int>> {
        rest(self.slots())
    }

    /// The cells of the next subset; `None` once all have been handed out.
    pub fn next(&mut self) -> (r: Option<Vec<usize>>)
        ensures
            final(self).cells() == old(self).cells(),
            r.is_some() == advance(old(self).slots()).is_some(),
            old(self).remaining() == (if r.is_some() {
                seq![final(self).slots()] + final(self).remaining()
            } else {
                Seq::empty()
            }),
            r.is_none() ==> final(self).slots() == old(self).slots(),
            r.is_some() ==> final(self).slots() == advance(old(self).slots()).unwrap(),
            r.is_some() ==> r.unwrap()@.len() == final(self).slots().len(),
            r.is_some() ==> forall|j: int|
                0 <= j < r.unwrap()@.len() ==> r.unwrap()@[j] == final(self).cells()[
                    final(self).slots()[j]
                ],
    {
        proof {
            use_type_invariant(&*self);
            lemma_advance_behind(slots_of(self.idx, self.num_idx));
        }
        match step_slots(self.idx, self.num_idx) {
            None => None,
            Some(idx) => {
                self.idx = idx;
                let ghost t = slots_of(idx, self.num_idx);
                let mut v: Vec<usize> = Vec::new();
                let mut j: usize = 0;
                while j < self.num_idx
                    invariant
                        j <= self.num_idx <= 4,
                        self.idx == idx,
                        self.values@.len() == 9,
                        t == slots_of(idx, self.num_idx),
                        sane(t),
                        v@.len() == j,
                        forall|m: int|
                            0 <= m < j ==> 0 <= t[m] < 9 && v@[m] == as_cells(self.values@)[t[m]],
                    decreases self.num_idx - j,
                {
                    assert(0 <= t[j as int] && t[j as int] + (t.len() - j) <= 9);
                    let c = self.values[self.idx[j]] as usize;
                    v.push(c);
                    j += 1;
                }
                Some(v)
            },
        }
    }
}

/// The subsets of size `sz` of the cells of row `idx`.
pub fn row_comb_iter(idx: usize, sz: usize) -> (it: CombinationIterator)
    requires
        idx < 9,
        2 <= sz <= 4,
    ensures
        it.slots() == start_slots(sz as int),
        it.cells() == row_cells(idx as int),
{
    let start = idx * 9;
    let end = start + 9;
    proof {
        let sub = ROW_DATA@.subrange(start as int, end as int);
        assert forall|k: int| 0 <= k < 9 implies as_cells(sub)[k] == row_cell(idx as int, k) by {
            lemma_tables(idx as int, k);
        }
        assert(as_cells(sub) =~= row_cells(idx as int));
    }
    CombinationIterator::new(sz, slice_subrange(array_as_slice(&ROW_DATA), start, end))
}

/// The subsets of size `sz` of the cells of column `idx`.
pub fn column_comb_iter(idx: usize, sz: usize) -> (it: CombinationIterator)
    requires
        idx < 9,
        2 <= sz <= 4,
    ensures
        it.slots() == start_slots(sz as int),
        it.cells() == column_cells(idx as int),
{
    let start = idx * 9;
    let end = start + 9;
    proof {
        let sub = COLUMN_DATA@.subrange(start as int, end as int);
        assert forall|k: int| 0 <= k < 9 implies as_cells(sub)[k] == column_cell(idx as int, k) by {
            lemma_tables(idx as int, k);
        }
        assert(as_cells(sub) =~= column_cells(idx as int));
    }
    CombinationIterator::new(sz, slice_subrange(array_as_slice(&COLUMN_DATA), start, end))
}

/// The subsets of size `sz` of the cells of box `idx`.
pub fn box_comb_iter(idx: usize, sz: usize) -> (it: CombinationIterator)
    requires
        idx < 9,
        2 <= sz <= 4,
    ensures
        it.slots() == start_slots(sz as int),
        it.cells() == box_cells(idx as int),
{
    let start = idx * 9;
    let end = start + 9;
    proof {
        let sub = BOX_DATA@.subrange(start as int, end as int);
        assert forall|k: int| 0 <= k < 9 implies as_cells(sub)[k] == box_cell(idx as int, k) by {
            lemma_tables(idx as int, k);
        }
        assert(as_cells(sub) =~= box_cells(idx as int));
    }
    CombinationIterator::new(sz, slice_subrange(array_as_slice(&BOX_DATA), start, end))
}

} // verus!
