//! What every technique has in common: it only ever takes candidates
//! away, and each change brings the grid closer to a state in which
//! nothing is left to do.

use vstd::prelude::*;
use crate::bits::{digit_count, has_bit, lemma_mask_ext, MASK_LIMIT};
use crate::sudoku::flagged;

verus! {

/// The number of cells below `n` of which `p` holds.
pub open spec fn count_cells(p: spec_fn(int) -> bool, n: int) -> nat
    decreases n,
{
    if n <= 0 {
        0
    } else {
        count_cells(p, n - 1) + if p(n - 1) {
            1nat
        } else {
            0nat
        }
    }
}

/// The number of candidates of the first `n` cells together.
pub open spec fn digit_total(g: Seq<usize>, n: int) -> nat
    decreases n,
{
    if n <= 0 {
        0
    } else {
        digit_total(g, n - 1) + digit_count(g[n - 1])
    }
}

/// How far a cell is from rest: twice the number of its candidates, and
/// one more while its solved flag disagrees with its having exactly one.
pub open spec fn weight(v: usize) -> nat {
    2 * digit_count(v) + if (digit_count(v) == 1) != flagged(v) {
        1nat
    } else {
        0nat
    }
}

/// The weights of the first `n` cells together.
pub open spec fn grid_weight(g: Seq<usize>, n: int) -> nat
    decreases n,
{
    if n <= 0 {
        0
    } else {
        grid_weight(g, n - 1) + weight(g[n - 1])
    }
}

/// What a technique may do to a cell: leave it as it is, or take it closer
/// to rest; it never adds a candidate.
pub open spec fn cell_shrunk(a: usize, b: usize) -> bool {
    &&& forall|d: nat| d < 9 && has_bit(b, d) ==> has_bit(a, d)
    &&& b == a || weight(b) < weight(a)
}

/// What a technique may do to a grid: to each cell what [`cell_shrunk`]
/// allows.
pub open spec fn shrunk(old_grid: Seq<usize>, new_grid: Seq<usize>) -> bool {
    &&& old_grid.len() == new_grid.len()
    &&& forall|i: int|
        0 <= i < old_grid.len() ==> cell_shrunk(#[trigger] old_grid[i], new_grid[i])
}

/// A cell that lost no candidate and gained none has as many as before; one
/// that only lost some has no more.
pub proof fn lemma_cell_digits(a: usize, b: usize)
    requires
        forall|d: nat| d < 9 && has_bit(b, d) ==> has_bit(a, d),
    ensures
        digit_count(b) <= digit_count(a),
        (exists|d: nat| d < 9 && has_bit(a, d) && !has_bit(b, d)) ==> digit_count(b) < digit_count(
            a,
        ),
{
    assert(has_bit(b, 0) ==> has_bit(a, 0));
    assert(has_bit(b, 1) ==> has_bit(a, 1));
    assert(has_bit(b, 2) ==> has_bit(a, 2));
    assert(has_bit(b, 3) ==> has_bit(a, 3));
    assert(has_bit(b, 4) ==> has_bit(a, 4));
    assert(has_bit(b, 5) ==> has_bit(a, 5));
    assert(has_bit(b, 6) ==> has_bit(a, 6));
    assert(has_bit(b, 7) ==> has_bit(a, 7));
    assert(has_bit(b, 8) ==> has_bit(a, 8));
}

/// A cell that lost a candidate is closer to rest, whatever became of its
/// flag.
pub proof fn lemma_cell_lost(a: usize, b: usize)
    requires
        forall|d: nat| d < 9 && has_bit(b, d) ==> has_bit(a, d),
        exists|d: nat| d < 9 && has_bit(a, d) && !has_bit(b, d),
    ensures
        cell_shrunk(a, b),
        weight(b) < weight(a),
{
    lemma_cell_digits(a, b);
}

/// No technique ever raises the number of candidates on the grid, and the
/// weight of the grid falls with every change.
pub proof fn lemma_shrunk(old_grid: Seq<usize>, new_grid: Seq<usize>, n: int)
    requires
        shrunk(old_grid, new_grid),
        0 <= n <= old_grid.len(),
    ensures
        digit_total(new_grid, n) <= digit_total(old_grid, n),
        grid_weight(new_grid, n) <= grid_weight(old_grid, n),
        (exists|i: int| 0 <= i < n && old_grid[i] != new_grid[i]) ==> grid_weight(new_grid, n)
            < grid_weight(old_grid, n),
        (forall|i: int| 0 <= i < n ==> old_grid[i] == new_grid[i]) ==> digit_total(new_grid, n)
            == digit_total(old_grid, n),
    decreases n,
{
    if n > 0 {
        lemma_shrunk(old_grid, new_grid, n - 1);
        assert(cell_shrunk(old_grid[n - 1], new_grid[n - 1]));
        lemma_cell_digits(old_grid[n - 1], new_grid[n - 1]);
        if exists|i: int| 0 <= i < n && old_grid[i] != new_grid[i] {
            let i = choose|i: int| 0 <= i < n && old_grid[i] != new_grid[i];
            if i < n - 1 {
                assert(0 <= i < n - 1 && old_grid[i] != new_grid[i]);
            }
        }
    }
}

/// Monotonicity: a grid that a technique has worked on holds no more
/// candidates than before, and weighs no more.
pub broadcast proof fn lemma_never_more(old_grid: Seq<usize>, new_grid: Seq<usize>)
    requires
        #[trigger] shrunk(old_grid, new_grid),
        old_grid.len() == 81,
    ensures
        digit_total(new_grid, 81) <= digit_total(old_grid, 81),
        grid_weight(new_grid, 81) <= grid_weight(old_grid, 81),
{
    lemma_shrunk(old_grid, new_grid, 81);
}

/// A cell that changed while its flag stayed has lost a candidate.
pub proof fn lemma_changed_lost(a: usize, b: usize)
    requires
        a < MASK_LIMIT,
        b < MASK_LIMIT,
        forall|d: nat| d < 9 && has_bit(b, d) ==> has_bit(a, d),
        flagged(a) == flagged(b),
        a != b,
    ensures
        exists|d: nat| d < 9 && has_bit(a, d) && !has_bit(b, d),
{
    if forall|d: nat| d < 9 ==> has_bit(b, d) == has_bit(a, d) {
        assert forall|d: nat| d < 10 implies has_bit(b, d) == has_bit(a, d) by {}
        lemma_mask_ext(a, b);
    }
    let d = choose|d: nat| d < 9 && has_bit(b, d) != has_bit(a, d);
    assert(has_bit(a, d) && !has_bit(b, d));
}

/// A grid that shrank and lost a candidate in some cell holds fewer
/// candidates than before.
pub proof fn lemma_fewer(old_grid: Seq<usize>, new_grid: Seq<usize>, n: int, i: int)
    requires
        shrunk(old_grid, new_grid),
        0 <= i < n <= old_grid.len(),
        exists|d: nat| d < 9 && has_bit(old_grid[i], d) && !has_bit(new_grid[i], d),
    ensures
        digit_total(new_grid, n) < digit_total(old_grid, n),
    decreases n,
{
    lemma_shrunk(old_grid, new_grid, n - 1);
    assert(cell_shrunk(old_grid[n - 1], new_grid[n - 1]));
    lemma_cell_digits(old_grid[n - 1], new_grid[n - 1]);
    if i < n - 1 {
        lemma_fewer(old_grid, new_grid, n - 1, i);
    }
}

/// No cell has more than nine candidates.
pub proof fn lemma_digit_total_bound(g: Seq<usize>, n: int)
    requires
        0 <= n,
    ensures
        digit_total(g, n) <= 9 * n,
    decreases n,
{
    if n > 0 {
        lemma_digit_total_bound(g, n - 1);
    }
}

/// Shrinking twice is shrinking.
pub proof fn lemma_shrunk_trans(a: Seq<usize>, b: Seq<usize>, c: Seq<usize>)
    requires
        shrunk(a, b),
        shrunk(b, c),
    ensures
        shrunk(a, c),
{
    assert forall|i: int| 0 <= i < a.len() implies cell_shrunk(#[trigger] a[i], c[i]) by {
        assert(cell_shrunk(a[i], b[i]));
        assert(cell_shrunk(b[i], c[i]));
    }
}

/// Where two properties agree on the cells below `n`, as many cells have
/// the one as the other.
pub proof fn lemma_count_same(p: spec_fn(int) -> bool, q: spec_fn(int) -> bool, n: int)
    requires
        forall|i: int| 0 <= i < n ==> #[trigger] p(i) == q(i),
    ensures
        count_cells(p, n) == count_cells(q, n),
    decreases n,
{
    if n > 0 {
        lemma_count_same(p, q, n - 1);
    }
}

/// Where a property gains exactly the cell `c`, one more cell has it.
pub proof fn lemma_count_gain(p: spec_fn(int) -> bool, q: spec_fn(int) -> bool, n: int, c: int)
    requires
        0 <= c < n,
        !p(c),
        q(c),
        forall|i: int| 0 <= i < n && i != c ==> #[trigger] p(i) == q(i),
    ensures
        count_cells(q, n) == count_cells(p, n) + 1,
    decreases n,
{
    if c == n - 1 {
        lemma_count_same(p, q, n - 1);
    } else {
        lemma_count_gain(p, q, n - 1, c);
    }
}

/// Where no cell has two properties at once, as many cells have one of
/// them as have the first and have the second together.
pub proof fn lemma_count_split(
    p: spec_fn(int) -> bool,
    q: spec_fn(int) -> bool,
    both: spec_fn(int) -> bool,
    n: int,
)
    requires
        forall|i: int| 0 <= i < n ==> !(#[trigger] p(i) && q(i)),
        forall|i: int| 0 <= i < n ==> #[trigger] both(i) == (p(i) || q(i)),
    ensures
        count_cells(both, n) == count_cells(p, n) + count_cells(q, n),
    decreases n,
{
    if n > 0 {
        lemma_count_split(p, q, both, n - 1);
        assert(!(p(n - 1) && q(n - 1)));
        assert(both(n - 1) == (p(n - 1) || q(n - 1)));
    }
}

/// No more cells than there are have a property, and none has it exactly
/// if the count is zero.
pub proof fn lemma_count_bounds(p: spec_fn(int) -> bool, n: int)
    requires
        0 <= n,
    ensures
        count_cells(p, n) <= n,
        count_cells(p, n) == 0 <==> (forall|i: int| 0 <= i < n ==> !#[trigger] p(i)),
    decreases n,
{
    if n > 0 {
        lemma_count_bounds(p, n - 1);
        if count_cells(p, n) == 0 {
            assert forall|i: int| 0 <= i < n implies !#[trigger] p(i) by {
                if i < n - 1 {
                }
            }
        }
    }
}

} // verus!
