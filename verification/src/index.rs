//! The three kinds of group, rows, columns and boxes, and the cells of
//! each.

use vstd::prelude::*;
use crate::fast_index::{
    box_comb_iter, box_iter, column_comb_iter, column_iter, row_comb_iter, row_iter,
    CombinationIterator, FastIndexIter,
};
use crate::combinations::start_slots;
use crate::index_helpers::{
    box_cell, box_of, column_cell, column_of, get_index_tuple, row_cell, row_of,
};

verus! {

/// A kind of group.
#[derive(Clone, Copy, Debug, PartialEq, Eq)]
pub enum Grouping {
    Row,
    Column,
    Box,
}

/// The kinds of group in the order in which every technique visits them.
pub const ALL_GROUPINGS: [Grouping; 3] = [Grouping::Row, Grouping::Column, Grouping::Box];

impl Grouping {
    /// The `k`-th cell of group `idx` of this kind.
    pub open spec fn cell(self, idx: int, k: int) -> int {
        match self {
            Grouping::Row => row_cell(idx, k),
            Grouping::Column => column_cell(idx, k),
            Grouping::Box => box_cell(idx, k),
        }
    }

    /// The group of this kind that `cell` lies in.
    pub open spec fn group_of(self, cell: int) -> int {
        match self {
            Grouping::Row => row_of(cell),
            Grouping::Column => column_of(cell),
            Grouping::Box => box_of(cell),
        }
    }

    /// The position of `cell` within its group of this kind.
    pub open spec fn place_of(self, cell: int) -> int {
        match self {
            Grouping::Row => column_of(cell),
            Grouping::Column => row_of(cell),
            Grouping::Box => (row_of(cell) % 3) * 3 + column_of(cell) % 3,
        }
    }

    /// The nine cells of group `idx` of this kind, in order.
    pub open spec fn members(self, idx: int) -> Seq<int> {
        Seq::new(9, |k: int| self.cell(idx, k))
    }

    /// Whether `cell` is on the grid and lies in group `idx` of this kind.
    pub open spec fn holds(self, idx: int, cell: int) -> bool {
        0 <= cell < 81 && self.group_of(cell) == idx
    }

    /// The cells of group `i` of this kind, in order.
    pub fn iter(&self, i: usize) -> (it: FastIndexIter)
        requires
            i < 9,
        ensures
            it.step() == 0,
            it.cells() == self.members(i as int),
    {
        proof {
            assert(Grouping::Row.members(i as int) =~= crate::fast_index::row_cells(i as int));
            assert(Grouping::Column.members(i as int) =~= crate::fast_index::column_cells(
                i as int,
            ));
            assert(Grouping::Box.members(i as int) =~= crate::fast_index::box_cells(i as int));
        }
        match *self {
            Grouping::Row => row_iter(i),
            Grouping::Column => column_iter(i),
            Grouping::Box => box_iter(i),
        }
    }

    /// The subsets of size `subset_size` of the cells of group `i` of this
    /// kind, in lexicographic order of their positions in the group.
    pub fn sub_iter(&self, i: usize, subset_size: usize) -> (it: CombinationIterator)
        requires
            i < 9,
            2 <= subset_size <= 4,
        ensures
            it.slots() == start_slots(subset_size as int),
            it.cells() == self.members(i as int),
    {
        proof {
            assert(Grouping::Row.members(i as int) =~= crate::fast_index::row_cells(i as int));
            assert(Grouping::Column.members(i as int) =~= crate::fast_index::column_cells(
                i as int,
            ));
            assert(Grouping::Box.members(i as int) =~= crate::fast_index::box_cells(i as int));
        }
        match *self {
            Grouping::Row => row_comb_iter(i, subset_size),
            Grouping::Column => column_comb_iter(i, subset_size),
            Grouping::Box => box_comb_iter(i, subset_size),
        }
    }

    /// The first row that group `i` of this kind touches.
    pub fn start_row(&self, i: usize) -> (r: usize)
        ensures
            r == (match *self {
                Grouping::Row => i as int,
                Grouping::Column => 0,
                Grouping::Box => (i / 3) * 3,
            }),
            i < 9 ==> r == row_of(self.cell(i as int, 0)),
    {
        match *self {
            Grouping::Row => i,
            Grouping::Column => 0,
            Grouping::Box => (i / 3) * 3,
        }
    }

    /// The first column that group `i` of this kind touches.
    pub fn start_column(&self, i: usize) -> (c: usize)
        ensures
            c == (match *self {
                Grouping::Row => 0,
                Grouping::Column => i as int,
                Grouping::Box => (i % 3) * 3,
            }),
            i < 9 ==> c == column_of(self.cell(i as int, 0)),
    {
        match *self {
            Grouping::Row => 0,
            Grouping::Column => i,
            Grouping::Box => (i % 3) * 3,
        }
    }
}

/// Whether `cells` lists cell `i`.
pub open spec fn listed(cells: Seq<usize>, i: int) -> bool {
    exists|k: int| 0 <= k < cells.len() && #[trigger] cells[k] == i
}

/// The `k`-th cell of a group lies on the grid, in that group, at place
/// `k`.
pub proof fn lemma_cell_in_group(g: Grouping, idx: int, k: int)
    requires
        0 <= idx < 9,
        0 <= k < 9,
    ensures
        0 <= g.cell(idx, k) < 81,
        g.group_of(g.cell(idx, k)) == idx,
        g.place_of(g.cell(idx, k)) == k,
        g.holds(idx, g.cell(idx, k)),
{
}

/// Every cell of the grid is the cell at its place in its group.
pub proof fn lemma_group_of_cell(g: Grouping, cell: int)
    requires
        0 <= cell < 81,
    ensures
        0 <= g.group_of(cell) < 9,
        0 <= g.place_of(cell) < 9,
        g.cell(g.group_of(cell), g.place_of(cell)) == cell,
{
}

/// Every cell is among the members of its own row, of its own column and
/// of its own box.
pub proof fn lemma_coords_round_trip(idx: int)
    requires
        0 <= idx < 81,
    ensures
        Grouping::Row.members(row_of(idx)).contains(idx),
        Grouping::Column.members(column_of(idx)).contains(idx),
        Grouping::Box.members(box_of(idx)).contains(idx),
{
    lemma_group_of_cell(Grouping::Row, idx);
    lemma_group_of_cell(Grouping::Column, idx);
    lemma_group_of_cell(Grouping::Box, idx);
    assert(Grouping::Row.members(row_of(idx))[Grouping::Row.place_of(idx)] == idx);
    assert(Grouping::Column.members(column_of(idx))[Grouping::Column.place_of(idx)] == idx);
    assert(Grouping::Box.members(box_of(idx))[Grouping::Box.place_of(idx)] == idx);
}

/// The groups of one kind part the grid: each has nine distinct cells on
/// the grid, a cell belongs to a group exactly if it is the group of that
/// cell, and so two different groups share no cell while every cell lies
/// in one.
pub proof fn lemma_members_partition(g: Grouping, i: int)
    requires
        0 <= i < 9,
    ensures
        g.members(i).len() == 9,
        g.members(i).no_duplicates(),
        forall|k: int| 0 <= k < 9 ==> 0 <= #[trigger] g.members(i)[k] < 81,
        forall|cell: int| 0 <= cell < 81 ==> (g.members(i).contains(cell) <==> g.group_of(cell) == i),
        forall|j: int, cell: int|
            0 <= j < 9 && j != i && g.members(i).contains(cell) ==> !g.members(j).contains(cell),
{
    let m = g.members(i);
    assert forall|a: int, b: int| 0 <= a < 9 && 0 <= b < 9 && a != b implies m[a] != m[b] by {
        lemma_cell_in_group(g, i, a);
        lemma_cell_in_group(g, i, b);
    }
    assert forall|k: int| 0 <= k < 9 implies 0 <= #[trigger] m[k] < 81 by {
        lemma_cell_in_group(g, i, k);
    }
    assert forall|cell: int| 0 <= cell < 81 implies (m.contains(cell) <==> g.group_of(cell)
        == i) by {
        if m.contains(cell) {
            let k = choose|k: int| 0 <= k < 9 && m[k] == cell;
            lemma_cell_in_group(g, i, k);
        }
        if g.group_of(cell) == i {
            lemma_group_of_cell(g, cell);
            assert(m[g.place_of(cell)] == cell);
        }
    }
    assert forall|j: int, cell: int|
        0 <= j < 9 && j != i && m.contains(cell) implies !g.members(j).contains(cell) by {
        let k = choose|k: int| 0 <= k < 9 && m[k] == cell;
        lemma_cell_in_group(g, i, k);
        if g.members(j).contains(cell) {
            let k2 = choose|k2: int| 0 <= k2 < 9 && g.members(j)[k2] == cell;
            lemma_cell_in_group(g, j, k2);
        }
    }
}

/// In every group the cells come in ascending order.
pub proof fn lemma_cells_ascend(g: Grouping, idx: int, a: int, b: int)
    requires
        0 <= idx < 9,
        0 <= a < b < 9,
    ensures
        g.cell(idx, a) < g.cell(idx, b),
{
}

/// The cells of group `i` of kind `g` that lie outside group `j` of kind
/// `other`, in the order of the group, which is ascending.
pub fn members_outside(g: Grouping, i: usize, other: Grouping, j: usize) -> (cells: Vec<usize>)
    requires
        i < 9,
    ensures
        forall|k: int| 0 <= k < cells@.len() ==> #[trigger] cells@[k] < 81,
        forall|c: int|
            #[trigger] listed(cells@, c) <==> 0 <= c < 81 && g.group_of(c) == i && other.group_of(c)
                != j,
        forall|a: int, b: int| 0 <= a < b < cells@.len() ==> cells@[a] < cells@[b],
{
    let mut cells: Vec<usize> = Vec::new();
    let mut it = g.iter(i);
    let ghost members = it.cells();
    loop
        invariant
            i < 9,
            members == g.members(i as int),
            it.cells() == members,
            0 <= it.step() <= 9,
            forall|k: int| 0 <= k < cells@.len() ==> #[trigger] cells@[k] < 81,
            forall|c: int|
                listed(cells@, c) <==> exists|t: int|
                    0 <= t < it.step() && #[trigger] members[t] == c && other.group_of(c) != j,
            forall|a: int, b: int| 0 <= a < b < cells@.len() ==> cells@[a] < cells@[b],
            forall|k: int|
                0 <= k < cells@.len() && it.step() < 9 ==> #[trigger] cells@[k] < members[it.step()],
        ensures
            it.step() == 9,
        decreases 9 - it.step(),
    {
        let ghost t0 = it.step();
        let ghost before = cells@;
        let c = match it.next() {
            None => {
                break ;
            },
            Some(c) => c,
        };
        proof {
            lemma_cell_in_group(g, i as int, t0);
            assert(members[t0] == c);
            if t0 + 1 < 9 {
                lemma_cells_ascend(g, i as int, t0, t0 + 1);
            }
        }
        let (row, col, b) = get_index_tuple(c);
        let at = match other {
            Grouping::Row => row,
            Grouping::Column => col,
            Grouping::Box => b,
        };
        if at != j {
            cells.push(c);
        }
        proof {
            let after = cells@;
            assert forall|x: int| listed(after, x) <==> exists|t: int|
                0 <= t < t0 + 1 && #[trigger] members[t] == x && other.group_of(x) != j by {
                if listed(after, x) {
                    let k = choose|k: int| 0 <= k < after.len() && after[k] == x;
                    if k < before.len() {
                        assert(before[k] == x);
                        assert(listed(before, x));
                        let t = choose|t: int|
                            0 <= t < t0 && #[trigger] members[t] == x && other.group_of(x) != j;
                        assert(members[t] == x);
                    } else {
                        assert(members[t0] == x);
                    }
                }
                if exists|t: int|
                    0 <= t < t0 + 1 && #[trigger] members[t] == x && other.group_of(x) != j {
                    let t = choose|t: int|
                        0 <= t < t0 + 1 && #[trigger] members[t] == x && other.group_of(x) != j;
                    if t < t0 {
                        assert(members[t] == x);
                        assert(listed(before, x));
                        let k = choose|k: int| 0 <= k < before.len() && before[k] == x;
                        assert(after[k] == x);
                    } else {
                        assert(after[after.len() - 1] == x);
                    }
                }
            }
        }
    }
    proof {
        assert forall|c: int|
            #[trigger] listed(cells@, c) <==> 0 <= c < 81 && g.group_of(c) == i && other.group_of(c)
                != j by {
            if listed(cells@, c) {
                let t = choose|t: int|
                    0 <= t < 9 && #[trigger] members[t] == c && other.group_of(c) != j;
                lemma_cell_in_group(g, i as int, t);
            }
            if 0 <= c < 81 && g.group_of(c) == i && other.group_of(c) != j {
                lemma_group_of_cell(g, c);
                assert(members[g.place_of(c)] == c);
            }
        }
    }
    cells
}

} // verus!
