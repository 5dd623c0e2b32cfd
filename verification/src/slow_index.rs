//! Walks over the cells of a row, a column or a box, computed from the
//! arithmetic of the grid.

use vstd::prelude::*;
use crate::combinations::{
    advance, lemma_advance_behind, rest, sane, slots_of, start_slots, step_slots,
};
use crate::index_helpers::{box_cell, column_cell, row_cell, to_index};

verus! {

/// A way to walk over nine cells: the cell at each step.
pub trait GenPosition {
    /// The cell at step `inc`.
    spec fn position(&self, inc: int) -> int;

    /// The cell at step `inc`, computed.
    fn gen_position(&self, inc: usize) -> (i: usize)
        requires
            inc < 9,
        ensures
            i == self.position(inc as int),
    ;
}

/// Walks over a row, from left to right.
#[derive(Debug, Clone, Copy)]
pub struct RowGenPosition {
    start_row: usize,
    start_col: usize,
}

impl RowGenPosition {
    #[verifier::type_invariant]
    spec fn on_grid(self) -> bool {
        self.start_row < 9 && self.start_col == 0
    }

    /// The row walked over.
    pub closed spec fn row(&self) -> int {
        self.start_row as int
    }

    /// The walk over row `row`.
    pub fn new(row: usize) -> (gp: RowGenPosition)
        requires
            row < 9,
        ensures
            gp.row() == row,
    {
        RowGenPosition { start_row: row, start_col: 0 }
    }
}

impl GenPosition for RowGenPosition {
    open spec fn position(&self, inc: int) -> int {
        row_cell(self.row(), inc)
    }

    fn gen_position(&self, inc: usize) -> (i: usize) {
        proof {
            use_type_invariant(self);
        }
        to_index(self.start_row, self.start_col + inc)
    }
}

/// Walks over a column, from top to bottom.
#[derive(Debug, Clone, Copy)]
pub struct ColumnGenPosition {
    start_row: usize,
    start_col: usize,
}

impl ColumnGenPosition {
    #[verifier::type_invariant]
    spec fn on_grid(self) -> bool {
        self.start_row == 0 && self.start_col < 9
    }

    /// The column walked over.
    pub closed spec fn column(&self) -> int {
        self.start_col as int
    }

    /// The walk over column `col`.
    pub fn new(col: usize) -> (gp: ColumnGenPosition)
        requires
            col < 9,
        ensures
            gp.column() == col,
    {
        ColumnGenPosition { start_row: 0, start_col: col }
    }
}

impl GenPosition for ColumnGenPosition {
    open spec fn position(&self, inc: int) -> int {
        column_cell(self.column(), inc)
    }

    fn gen_position(&self, inc: usize) -> (i: usize) {
        proof {
            use_type_invariant(self);
        }
        to_index(self.start_row + inc, self.start_col)
    }
}

/// Walks over a box, row by row.
#[derive(Debug, Clone, Copy)]
pub struct BoxGenPosition {
    start_row: usize,
    start_col: usize,
}

impl BoxGenPosition {
    #[verifier::type_invariant]
    spec fn on_grid(self) -> bool {
        self.start_row < 9 && self.start_row % 3 == 0 && self.start_col < 9 && self.start_col % 3
            == 0
    }

    /// The box walked over.
    pub closed spec fn box_index(&self) -> int {
        self.start_row + self.start_col / 3
    }

    /// The walk over box `box_i`.
    pub fn new(box_i: usize) -> (gp: BoxGenPosition)
        requires
            box_i < 9,
        ensures
            gp.box_index() == box_i,
    {
        let start_row = (box_i / 3) * 3;
        let start_col = (box_i % 3) * 3;
        BoxGenPosition { start_row, start_col }
    }
}

impl GenPosition for BoxGenPosition {
    open spec fn position(&self, inc: int) -> int {
        box_cell(self.box_index(), inc)
    }

    fn gen_position(&self, inc: usize) -> (i: usize) {
        proof {
            use_type_invariant(self);
        }
        let row_inc = inc / 3;
        let col_inc = inc % 3;
        to_index(self.start_row + row_inc, self.start_col + col_inc)
    }
}

/// Hands out the nine cells of a walk, one by one.
pub struct RelatedIndexIterator<G: GenPosition> {
    pub incr: usize,
    pub gp: Box<G>,
}

impl<G: GenPosition> RelatedIndexIterator<G> {
    /// The cell at step `incr`, and on to the next step; `None` after nine
    /// steps.
    pub fn next(&mut self) -> (r: Option<usize>)
        ensures
            final(self).gp == old(self).gp,
            old(self).incr < 9 ==> r == Some(old(self).gp.position(old(self).incr as int) as usize)
                && final(self).incr == old(self).incr + 1,
            old(self).incr >= 9 ==> r.is_none() && final(self).incr == old(self).incr,
    {
        if self.incr < 9 {
            let i = self.gp.gen_position(self.incr);
            self.incr += 1;
            Some(i)
        } else {
            None
        }
    }
}

/// Hands out the subsets of a given size of the nine cells of a walk, in
/// lexicographic order of the steps.
pub struct MultiRelatedIndexIterator<G: GenPosition> {
    idx: [usize; 4],
    num_idx: usize,
    gp: Box<G>,
}

impl MultiRelatedIndexIterator<RowGenPosition> {
    /// An enumeration of the subsets of size `num_idx` of the first row.
    pub fn new(num_idx: usize) -> (it: Self)
        requires
            2 <= num_idx <= 4,
        ensures
            it.slots() == start_slots(num_idx as int),
            forall|inc: int| #[trigger] it.cell(inc) == row_cell(0, inc),
    {
        let mut idx: [usize; 4] = [0; 4];
        let mut i: usize = 0;
        while i < num_idx
            invariant
                2 <= num_idx <= 4,
                i <= num_idx,
                forall|j: int| 0 <= j < i ==> idx[j] == j,
            decreases num_idx - i,
        {
            idx[i] = i;
            i += 1;
        }
        idx[num_idx - 1] -= 1;
        proof {
            assert(slots_of(idx, num_idx) =~= start_slots(num_idx as int));
        }
        MultiRelatedIndexIterator { num_idx, idx, gp: Box::new(RowGenPosition::new(0)) }
    }
}

impl<G: GenPosition> MultiRelatedIndexIterator<G> {
    #[verifier::type_invariant]
    spec fn slots_sane(self) -> bool {
        2 <= self.num_idx <= 4 && sane(slots_of(self.idx, self.num_idx))
    }

    /// The steps of the subset handed out last; before the first, the
    /// start of the enumeration.
    pub closed spec fn slots(&self) -> Seq<int> {
        slots_of(self.idx, self.num_idx)
    }

    /// The cell at step `inc` of the walk.
    pub closed spec fn cell(&self, inc: int) -> int {
        self.gp.position(inc)
    }

    /// The same enumeration over another walk.
    pub fn set_gen_position<H: GenPosition>(self, gp: Box<H>) -> (it: MultiRelatedIndexIterator<H>)
        ensures
            it.slots() == self.slots(),
            forall|inc: int| #[trigger] it.cell(inc) == gp.position(inc),
    {
        proof {
            use_type_invariant(&self);
        }
        MultiRelatedIndexIterator { num_idx: self.num_idx, idx: self.idx, gp }
    }

    /// The positions of the subsets still to come, in order.
    pub open spec fn remaining(&self) -> Seq<Seq<int>> {
        rest(self.slots())
    }

    /// The cells of the next subset; `None` once all have been handed out.
    pub fn next(&mut self) -> (r: Option<Vec<usize>>)
        ensures
            forall|inc: int| #[trigger] final(self).cell(inc) == old(self).cell(inc),
            r.is_some() == advance(old(self).slots()).is_some(),
            old(self).remaining() == (if r.is_some() {
                seq![final(self).slots()] + final(self).remaining()
            } else {
                Seq::empty()
            }),
            r.is_none() ==> final(self).slots() == old(self).slots(),
            r.is_some() ==> final(self).slots() == advance(old(self).slots()).unwrap(),
            r.is_some() ==> r.unwrap()@.len() == final(self).slots().len(),
            r.is_some() ==> forall|j: int|
                0 <= j < r.unwrap()@.len() ==> r.unwrap()@[j] == final(self).cell(
                    final(self).slots()[j],
                ),
    {
        proof {
            use_type_invariant(&*self);
            lemma_advance_behind(slots_of(self.idx, self.num_idx));
        }
        match step_slots(self.idx, self.num_idx) {
            None => None,
            Some(idx) => {
                self.idx = idx;
                let ghost t = slots_of(idx, self.num_idx);
                let mut v: Vec<usize> = Vec::new();
                let mut j: usize = 0;
                while j < self.num_idx
                    invariant
                        j <= self.num_idx <= 4,
                        self.idx == idx,
                        t == slots_of(idx, self.num_idx),
                        sane(t),
                        v@.len() == j,
                        forall|m: int| 0 <= m < j ==> v@[m] == self.gp.position(t[m]),
                    decreases self.num_idx - j,
                {
                    assert(0 <= t[j as int] && t[j as int] + (t.len() - j) <= 9);
                    let c = self.gp.gen_position(self.idx[j]);
                    v.push(c);
                    j += 1;
                }
                Some(v)
            },
        }
    }
}

/// The cells of row `idx`, from left to right.
pub fn row_iter(idx: usize) -> (it: RelatedIndexIterator<RowGenPosition>)
    requires
        idx < 9,
    ensures
        it.incr == 0,
        forall|inc: int| #[trigger] it.gp.position(inc) == row_cell(idx as int, inc),
{
    RelatedIndexIterator { incr: 0, gp: Box::new(RowGenPosition::new(idx)) }
}

/// The cells of column `idx`, from top to bottom.
pub fn column_iter(idx: usize) -> (it: RelatedIndexIterator<ColumnGenPosition>)
    requires
        idx < 9,
    ensures
        it.incr == 0,
        forall|inc: int| #[trigger] it.gp.position(inc) == column_cell(idx as int, inc),
{
    RelatedIndexIterator { incr: 0, gp: Box::new(ColumnGenPosition::new(idx)) }
}

/// The cells of box `idx`, row by row.
pub fn box_iter(idx: usize) -> (it: RelatedIndexIterator<BoxGenPosition>)
    requires
        idx < 9,
    ensures
        it.incr == 0,
        forall|inc: int| #[trigger] it.gp.position(inc) == box_cell(idx as int, inc),
{
    RelatedIndexIterator { incr: 0, gp: Box::new(BoxGenPosition::new(idx)) }
}

/// The subsets of size `sz` of the cells of row `idx`.
pub fn row_comb_iter(idx: usize, sz: usize) -> (it: MultiRelatedIndexIterator<RowGenPosition>)
    requires
        idx < 9,
        2 <= sz <= 4,
    ensures
        it.slots() == start_slots(sz as int),
        forall|inc: int| #[trigger] it.cell(inc) == row_cell(idx as int, inc),
{
    MultiRelatedIndexIterator::new(sz).set_gen_position(Box::new(RowGenPosition::new(idx)))
}

/// The subsets of size `sz` of the cells of box `idx`.
pub fn box_comb_iter(idx: usize, sz: usize) -> (it: MultiRelatedIndexIterator<BoxGenPosition>)
    requires
        idx < 9,
        2 <= sz <= 4,
    ensures
        it.slots() == start_slots(sz as int),
        forall|inc: int| #[trigger] it.cell(inc) == box_cell(idx as int, inc),
{
    MultiRelatedIndexIterator::new(sz).set_gen_position(Box::new(BoxGenPosition::new(idx)))
}

/// The subsets of size `sz` of the cells of column `idx`.
pub fn column_comb_iter(idx: usize, sz: usize) -> (it: MultiRelatedIndexIterator<ColumnGenPosition>)
    requires
        idx < 9,
        2 <= sz <= 4,
    ensures
        it.slots() == start_slots(sz as int),
        forall|inc: int| #[trigger] it.cell(inc) == column_cell(idx as int, inc),
{
    MultiRelatedIndexIterator::new(sz).set_gen_position(Box::new(ColumnGenPosition::new(idx)))
}

} // verus!
