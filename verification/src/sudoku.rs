//! The grid: 81 candidate sets, one per cell, row by row.

use vstd::prelude::*;
use crate::bits::{
    digit_count, group_bits, has_bit, lemma_lowest_bit, lemma_mask_bounds, lemma_mask_ext, lowest_bit,
    ALL_CAND, MASK_LIMIT,
};
use crate::candidate_set::{mask_value, CandidateSet};
use crate::fast_index::FastIndexIter;
use crate::index::{lemma_cell_in_group, ALL_GROUPINGS};

verus! {

broadcast use group_bits;

/// A grid as the library reasons about it: the masks of its 81 cells, each
/// within the ten meaningful bits.
pub open spec fn grid_ok(g: Seq<usize>) -> bool {
    &&& g.len() == 81
    &&& forall|i: int| 0 <= i < 81 ==> #[trigger] g[i] < MASK_LIMIT
}

/// Whether the mask `v` carries the solved flag.
pub open spec fn flagged(v: usize) -> bool {
    has_bit(v, 9)
}

/// Whether the mask `v` holds exactly one candidate.
pub open spec fn single(v: usize) -> bool {
    digit_count(v) == 1
}

/// The number of cells among the first `n` that carry the solved flag.
pub open spec fn count_flagged(g: Seq<usize>, n: int) -> nat
    decreases n,
{
    if n <= 0 {
        0
    } else {
        count_flagged(g, n - 1) + if flagged(g[n - 1]) {
            1nat
        } else {
            0nat
        }
    }
}

/// Whether every cell of the grid carries the solved flag.
pub open spec fn all_flagged(g: Seq<usize>) -> bool {
    forall|i: int| 0 <= i < g.len() ==> flagged(#[trigger] g[i])
}

/// The character of a digit.
pub open spec fn digit_char(n: nat) -> char {
    if n == 0 {
        '0'
    } else if n == 1 {
        '1'
    } else if n == 2 {
        '2'
    } else if n == 3 {
        '3'
    } else if n == 4 {
        '4'
    } else if n == 5 {
        '5'
    } else if n == 6 {
        '6'
    } else if n == 7 {
        '7'
    } else if n == 8 {
        '8'
    } else {
        '9'
    }
}

/// How a cell shows in the one-line form of the grid: the digit that it
/// is settled to, a dot otherwise.
pub open spec fn cell_text(v: usize) -> char {
    match mask_value(v) {
        Some(d) => if 1 <= d <= 9 {
            digit_char(d as nat)
        } else {
            '.'
        },
        None => '.',
    }
}

/// The one-line form of the first `n` cells.
pub open spec fn line_text(g: Seq<usize>, n: int) -> Seq<char>
    decreases n,
{
    if n <= 0 {
        Seq::empty()
    } else {
        line_text(g, n - 1).push(cell_text(g[n - 1]))
    }
}

/// Whether one of the first `n` of `cells` holds digit `d`, as a candidate
/// or settled.
pub open spec fn offered(g: Seq<usize>, cells: Seq<int>, n: int, d: nat) -> bool {
    exists|k: int| 0 <= k < n && #[trigger] has_bit(g[cells[k]], d)
}

/// Whether one of the first `n` of `cells` is settled and holds digit `d`.
pub open spec fn settled(g: Seq<usize>, cells: Seq<int>, n: int, d: nat) -> bool {
    exists|k: int| 0 <= k < n && flagged(g[cells[k]]) && #[trigger] has_bit(g[cells[k]], d)
}

/// Whether two of the first `n` of `cells` are settled to a common digit.
pub open spec fn clash(g: Seq<usize>, cells: Seq<int>, n: int) -> bool {
    exists|a: int, b: int, d: nat|
        0 <= a < b < n && d < 9 && flagged(g[cells[a]]) && flagged(g[cells[b]]) && #[trigger] has_bit(
            g[cells[a]],
            d,
        ) && #[trigger] has_bit(g[cells[b]], d)
}

/// A group is valid when its cells offer every digit between them and no
/// two of them are settled to the same digit.
pub open spec fn cells_valid(g: Seq<usize>, cells: Seq<int>) -> bool {
    &&& !clash(g, cells, cells.len() as int)
    &&& forall|d: nat| d < 9 ==> offered(g, cells, cells.len() as int, d)
}

/// A grid is valid when every row, column and box is.
pub open spec fn grid_valid(g: Seq<usize>) -> bool {
    forall|n: int| 0 <= n < 27 ==> cells_valid(g, #[trigger] nth_group(n))
}

/// The groups in the order in which they are visited: the rows, then the
/// columns, then the boxes.
pub open spec fn nth_group(n: int) -> Seq<int> {
    ALL_GROUPINGS[n / 9].members(n % 9)
}

/// Whether the cells that `iter` hands out form a valid group.
pub fn valid_group(sudoku: &Sudoku, iter: FastIndexIter) -> (r: bool)
    requires
        iter.step() == 0,
        forall|k: int| 0 <= k < iter.cells().len() ==> 0 <= #[trigger] iter.cells()[k] < 81,
    ensures
        r == cells_valid(sudoku@, iter.cells()),
{
    let mut it = iter;
    let ghost g = sudoku@;
    let ghost cells = iter.cells();
    let ghost n = cells.len() as int;
    // The digits that the settled cells hold.
    let mut s: usize = 0;
    // The digits that any cell holds.
    let mut a: usize = 0;
    loop
        invariant
            g == sudoku@,
            cells == iter.cells(),
            cells == it.cells(),
            n == cells.len(),
            0 <= it.step() <= n,
            forall|k: int| 0 <= k < n ==> 0 <= #[trigger] cells[k] < 81,
            s <= ALL_CAND,
            a <= ALL_CAND,
            forall|d: nat| d < 9 ==> has_bit(a, d) == offered(g, cells, it.step(), d),
            forall|d: nat| d < 9 ==> has_bit(s, d) == settled(g, cells, it.step(), d),
            !clash(g, cells, it.step()),
        ensures
            it.step() == n,
        decreases n - it.step(),
    {
        let ghost j = it.step();
        match it.next() {
            None => {
                break ;
            },
            Some(i) => {
                let cs = sudoku.cell(i);
                let m = cs.get_candidates();
                let ghost a0 = a;
                let ghost s0 = s;
                a |= m;
                proof {
                    lemma_mask_bounds(a0, m);
                    assert forall|d: nat| d < 9 implies has_bit(a, d) == offered(
                        g,
                        cells,
                        j + 1,
                        d,
                    ) by {
                        assert(has_bit(m, d) == has_bit(g[cells[j]], d));
                        if offered(g, cells, j, d) {
                            let k = choose|k: int| 0 <= k < j && has_bit(g[cells[k]], d);
                            assert(has_bit(g[cells[k]], d));
                        }
                        if offered(g, cells, j + 1, d) && !has_bit(g[cells[j]], d) {
                            let k = choose|k: int| 0 <= k < j + 1 && has_bit(g[cells[k]], d);
                            assert(has_bit(g[cells[k]], d) && k < j);
                        }
                    }
                }
                if cs.is_solved() {
                    if (s & m) != 0 {
                        proof {
                            let x = s & m;
                            lemma_mask_bounds(s, m);
                            lemma_lowest_bit(x);
                            let d = lowest_bit(x);
                            assert(has_bit(x, d));
                            assert(has_bit(s, d) && has_bit(m, d));
                            assert(d < 9);
                            assert(settled(g, cells, j, d));
                            let k = choose|k: int|
                                0 <= k < j && flagged(g[cells[k]]) && has_bit(g[cells[k]], d);
                            assert(has_bit(g[cells[k]], d) && has_bit(g[cells[j]], d));
                            assert(clash(g, cells, n));
                        }
                        return false;
                    } else {
                        s |= m;
                        proof {
                            lemma_mask_bounds(s0, m);
                        }
                    }
                }
                proof {
                    assert forall|d: nat| d < 9 implies has_bit(s, d) == settled(
                        g,
                        cells,
                        j + 1,
                        d,
                    ) by {
                        assert(has_bit(m, d) == has_bit(g[cells[j]], d));
                        if settled(g, cells, j, d) {
                            let k = choose|k: int|
                                0 <= k < j && flagged(g[cells[k]]) && has_bit(g[cells[k]], d);
                            assert(has_bit(g[cells[k]], d));
                        }
                        if settled(g, cells, j + 1, d) && !(flagged(g[cells[j]]) && has_bit(
                            g[cells[j]],
                            d,
                        )) {
                            let k = choose|k: int|
                                0 <= k < j + 1 && flagged(g[cells[k]]) && has_bit(g[cells[k]], d);
                            assert(has_bit(g[cells[k]], d) && k < j);
                        }
                    }
                    if clash(g, cells, j + 1) {
                        let (x, y, d) = choose|x: int, y: int, d: nat|
                            0 <= x < y < j + 1 && d < 9 && flagged(g[cells[x]]) && flagged(
                                g[cells[y]],
                            ) && #[trigger] has_bit(g[cells[x]], d) && #[trigger] has_bit(
                                g[cells[y]],
                                d,
                            );
                        if y < j {
                            assert(has_bit(g[cells[x]], d) && has_bit(g[cells[y]], d));
                            assert(clash(g, cells, j));
                        } else {
                            assert(has_bit(g[cells[x]], d));
                            assert(settled(g, cells, j, d));
                            assert(has_bit(s0, d) && has_bit(m, d));
                            assert(has_bit(s0 & m, d));
                        }
                    }
                }
            },
        }
    }
    proof {
        if a == ALL_CAND {
            assert forall|d: nat| d < 9 implies offered(g, cells, n, d) by {
                assert(has_bit(a, d));
            }
        } else {
            if forall|d: nat| d < 9 ==> offered(g, cells, n, d) {
                assert forall|d: nat| d < 10 implies has_bit(a, d) == has_bit(ALL_CAND, d) by {
                    if d == 9 {
                        assert(a & ALL_CAND == a) by (bit_vector)
                            requires
                                a <= 0x1FF,
                        ;
                        assert(has_bit(a & ALL_CAND, 9) == false);
                    }
                }
                lemma_mask_ext(a, ALL_CAND);
            }
        }
    }
    a == ALL_CAND
}

/// The grid.  Its view is the sequence of the masks of its cells.
pub struct Sudoku([CandidateSet; 81]);

impl View for Sudoku {
    type V = Seq<usize>;

    closed spec fn view(&self) -> Seq<usize> {
        Seq::new(81, |i: int| self.0[i]@)
    }
}

/// Every grid has 81 cells.
pub broadcast proof fn lemma_grid_len(s: Sudoku)
    ensures
        #[trigger] s@.len() == 81,
{
}

impl Sudoku {
    #[verifier::type_invariant]
    spec fn cells_within_limit(self) -> bool {
        forall|i: int| 0 <= i < 81 ==> (#[trigger] self.0[i])@ < MASK_LIMIT
    }

    /// The grid with the given cells.
    pub fn new(positions: [CandidateSet; 81]) -> (s: Self)
        ensures
            s@.len() == 81,
            forall|i: int| 0 <= i < 81 ==> s@[i] == positions[i]@,
    {
        let mut i: usize = 0;
        while i < 81
            invariant
                i <= 81,
                forall|j: int| 0 <= j < i ==> (#[trigger] positions[j])@ < MASK_LIMIT,
            decreases 81 - i,
        {
            positions[i].bounded();
            i += 1;
        }
        Sudoku(positions)
    }

    /// Every grid has 81 cells, each within the ten meaningful bits.
    pub fn well_formed(&self)
        ensures
            grid_ok(self@),
    {
        proof {
            use_type_invariant(self);
        }
    }

    /// The candidate set of cell `i`.
    pub fn cell(&self, i: usize) -> (cs: CandidateSet)
        requires
            i < 81,
        ensures
            cs@ == self@[i as int],
            cs@ < MASK_LIMIT,
    {
        proof {
            use_type_invariant(self);
        }
        self.0[i]
    }

    /// Replaces the candidate set of cell `i`.
    pub fn set_cell(&mut self, i: usize, cs: CandidateSet)
        requires
            i < 81,
        ensures
            final(self)@ == old(self)@.update(i as int, cs@),
    {
        proof {
            use_type_invariant(&*self);
        }
        cs.bounded();
        self.0[i] = cs;
        proof {
            assert(self@ =~= old(self)@.update(i as int, cs@));
        }
    }

    /// The number of cells that carry the solved flag.
    pub fn num_solved(&self) -> (n: usize)
        ensures
            n == count_flagged(self@, 81),
    {
        let mut n: usize = 0;
        let mut i: usize = 0;
        while i < 81
            invariant
                i <= 81,
                n <= i,
                n == count_flagged(self@, i as int),
            decreases 81 - i,
        {
            if self.cell(i).is_solved() {
                n += 1;
            }
            i += 1;
        }
        n
    }

    /// Whether every cell carries the solved flag.
    pub fn is_solved(&self) -> (r: bool)
        ensures
            r == all_flagged(self@),
    {
        let mut i: usize = 0;
        while i < 81
            invariant
                i <= 81,
                self@.len() == 81,
                forall|j: int| 0 <= j < i ==> flagged(#[trigger] self@[j]),
            decreases 81 - i,
        {
            if !self.cell(i).is_solved() {
                return false;
            }
            i += 1;
        }
        true
    }

    /// The grid on one line of 81 characters: its digit for each settled
    /// cell, a dot for every other.
    pub fn oneline(&self) -> (line: String)
        ensures
            line@ == line_text(self@, 81),
            line@.len() == 81,
    {
        let mut line = String::new();
        let mut i: usize = 0;
        proof {
            reveal_strlit(".");
            reveal_strlit("1");
            reveal_strlit("2");
            reveal_strlit("3");
            reveal_strlit("4");
            reveal_strlit("5");
            reveal_strlit("6");
            reveal_strlit("7");
            reveal_strlit("8");
            reveal_strlit("9");
        }
        while i < 81
            invariant
                i <= 81,
                line@ == line_text(self@, i as int),
                line@.len() == i,
                "."@ == seq!['.'],
                "1"@ == seq!['1'],
                "2"@ == seq!['2'],
                "3"@ == seq!['3'],
                "4"@ == seq!['4'],
                "5"@ == seq!['5'],
                "6"@ == seq!['6'],
                "7"@ == seq!['7'],
                "8"@ == seq!['8'],
                "9"@ == seq!['9'],
            decreases 81 - i,
        {
            let p = self.cell(i);
            let text = match p.value() {
                None => ".",
                Some(v) => match v {
                    1 => "1",
                    2 => "2",
                    3 => "3",
                    4 => "4",
                    5 => "5",
                    6 => "6",
                    7 => "7",
                    8 => "8",
                    9 => "9",
                    _ => ".",
                },
            };
            assert(text@ =~= seq![cell_text(p@)]);
            line.append(text);
            proof {
                assert(line@ =~= line_text(self@, i + 1));
            }
            i += 1;
        }
        line
    }

    /// Whether no row, column or box rules the grid out: each offers every
    /// digit, and none has one digit settled twice.  A valid grid need not
    /// have a solution.
    pub fn is_valid(&self) -> (r: bool)
        ensures
            r == grid_valid(self@),
    {
        let mut n: usize = 0;
        while n < 27
            invariant
                n <= 27,
                forall|m: int| 0 <= m < n ==> cells_valid(self@, #[trigger] nth_group(m)),
            decreases 27 - n,
        {
            let g = ALL_GROUPINGS[n / 9];
            let idx = n % 9;
            let it = g.iter(idx);
            proof {
                assert forall|k: int| 0 <= k < it.cells().len() implies 0 <= #[trigger] it.cells()[k]
                    < 81 by {
                    lemma_cell_in_group(g, idx as int, k);
                }
            }
            proof {
                assert(it.cells() == nth_group(n as int));
            }
            if !valid_group(self, it) {
                return false;
            }
            n += 1;
        }
        true
    }
}

} // verus!
