use rs_sudoku::box_line::LineBoxReduction;
use rs_sudoku::candidate_set::{CandidateSet, CandidateSetIterator};
use rs_sudoku::hidden_singles::HiddenSingles;
use rs_sudoku::index::{members_outside, Grouping, ALL_GROUPINGS};
use rs_sudoku::index_helpers::{get_index_tuple, to_index};
use rs_sudoku::remove_candidates::RemoveCandidates;
use rs_sudoku::remove_mask::RemoveMask;
use rs_sudoku::subset::FindSubset;
use rs_sudoku::{parse_sudoku, Solveable, Sudoku};

const EASY: &str =
    ".1.....25.2.84.3.9.....91.84.....9.3.....6.......5....35..6.....6.1.....98......1";
const POINTING: &str =
    "010903600000080000900000507002010430000402000064070200701000005000030000005601020";

fn members(g: Grouping, i: usize) -> Vec<usize> {
    let mut it = g.iter(i);
    let mut v = Vec::new();
    while let Some(c) = it.next() {
        v.push(c);
    }
    v
}

fn subsets(g: Grouping, i: usize, k: usize) -> Vec<Vec<usize>> {
    let mut it = g.sub_iter(i, k);
    let mut v = Vec::new();
    while let Some(c) = it.next() {
        v.push(c);
    }
    v
}

fn masks(cs: CandidateSet) -> Vec<usize> {
    let mut it = cs.into_iter();
    let mut v = Vec::new();
    while let Some(m) = it.next() {
        v.push(m);
    }
    v
}

fn grid(masks: [usize; 81]) -> Sudoku {
    let mut cells = [CandidateSet::new(0); 81];
    for i in 0..81 {
        cells[i] = CandidateSet::new(masks[i]);
    }
    Sudoku::new(cells)
}

fn digits(s: &Sudoku) -> usize {
    (0..81).map(|i| s.cell(i).num_candidates()).sum()
}

#[test]
fn coordinates_have_exact_values() {
    assert_eq!((0, 0, 0), get_index_tuple(0));
    assert_eq!((4, 4, 4), get_index_tuple(40));
    assert_eq!((3, 8, 5), get_index_tuple(35));
    assert_eq!((8, 0, 6), get_index_tuple(72));
    assert_eq!((8, 8, 8), get_index_tuple(80));
    assert_eq!(21, to_index(2, 3));
    assert_eq!(80, to_index(8, 8));
}

#[test]
fn groups_come_in_their_order() {
    assert_eq!(vec![27, 28, 29, 30, 31, 32, 33, 34, 35], members(Grouping::Row, 3));
    assert_eq!(vec![5, 14, 23, 32, 41, 50, 59, 68, 77], members(Grouping::Column, 5));
    assert_eq!(vec![30, 31, 32, 39, 40, 41, 48, 49, 50], members(Grouping::Box, 4));
    assert_eq!(vec![60, 61, 62, 69, 70, 71, 78, 79, 80], members(Grouping::Box, 8));
}

#[test]
fn every_cell_is_in_its_own_groups() {
    for idx in 0..81 {
        let (row, col, b) = get_index_tuple(idx);
        assert!(members(Grouping::Row, row).contains(&idx));
        assert!(members(Grouping::Column, col).contains(&idx));
        assert!(members(Grouping::Box, b).contains(&idx));
    }
}

#[test]
fn the_groups_of_a_kind_part_the_grid() {
    for g in ALL_GROUPINGS {
        let mut seen = [0; 81];
        for i in 0..9 {
            let m = members(g, i);
            assert_eq!(9, m.len());
            for c in m {
                seen[c] += 1;
            }
        }
        assert!(seen.iter().all(|n| *n == 1));
    }
}

#[test]
fn groups_start_where_they_should() {
    assert_eq!((5, 0), (Grouping::Row.start_row(5), Grouping::Row.start_column(5)));
    assert_eq!((0, 5), (Grouping::Column.start_row(5), Grouping::Column.start_column(5)));
    assert_eq!((3, 6), (Grouping::Box.start_row(5), Grouping::Box.start_column(5)));
    assert_eq!((6, 0), (Grouping::Box.start_row(6), Grouping::Box.start_column(6)));
}

#[test]
fn members_outside_leave_the_other_group_out() {
    assert_eq!(
        vec![3, 4, 5, 6, 7, 8],
        members_outside(Grouping::Row, 0, Grouping::Box, 0)
    );
    assert_eq!(
        vec![30, 31, 32, 48, 49, 50],
        members_outside(Grouping::Box, 4, Grouping::Row, 4)
    );
    assert_eq!(
        vec![30, 32, 39, 41, 48, 50],
        members_outside(Grouping::Box, 4, Grouping::Column, 4)
    );
}

#[test]
fn subsets_are_counted() {
    for g in ALL_GROUPINGS {
        for i in 0..9 {
            assert_eq!(36, subsets(g, i, 2).len());
            assert_eq!(84, subsets(g, i, 3).len());
            assert_eq!(126, subsets(g, i, 4).len());
        }
    }
}

#[test]
fn subsets_are_distinct_and_in_order() {
    for k in 2..5 {
        let all = subsets(Grouping::Row, 0, k);
        for s in &all {
            assert_eq!(k, s.len());
            assert!(s.windows(2).all(|w| w[0] < w[1]));
            assert!(s.iter().all(|c| *c < 9));
        }
        // In the first row a cell is its own position, so the order of
        // the subsets is the order of the lists.
        assert!(all.windows(2).all(|w| w[0] < w[1]));
    }
    let pairs = subsets(Grouping::Row, 0, 2);
    assert_eq!(vec![0, 1], pairs[0]);
    assert_eq!(vec![0, 2], pairs[1]);
    assert_eq!(vec![0, 8], pairs[7]);
    assert_eq!(vec![1, 2], pairs[8]);
    assert_eq!(vec![7, 8], pairs[35]);
    let quads = subsets(Grouping::Box, 4, 4);
    assert_eq!(vec![30, 31, 32, 39], quads[0]);
    assert_eq!(vec![41, 48, 49, 50], quads[125]);
}

#[test]
fn an_exhausted_enumeration_stays_exhausted() {
    let mut it = Grouping::Column.sub_iter(2, 3);
    let mut n = 0;
    while it.next().is_some() {
        n += 1;
    }
    assert_eq!(84, n);
    assert_eq!(None, it.next());
    assert_eq!(None, it.next());
}

#[test]
fn a_settled_cell_yields_its_digit() {
    for (i, c) in "123456789".chars().enumerate() {
        let cs = CandidateSet::parse_position(c).unwrap();
        assert_eq!(vec![1 << i], masks(cs));
        assert_eq!(Some(i + 1), cs.value());
        assert_eq!(1, cs.num_candidates());
        assert_eq!(512 | 1 << i, cs.get());
        assert_eq!(1 << i, cs.get_candidates());
    }
}

#[test]
fn an_open_cell_yields_nine_digits() {
    let cs = CandidateSet::parse_position('.').unwrap();
    assert_eq!(vec![1, 2, 4, 8, 16, 32, 64, 128, 256], masks(cs));
    assert_eq!(9, cs.num_candidates());
    assert_eq!(None, cs.value());
    assert!(!cs.is_solved());
}

#[test]
fn iterating_leaves_the_set_as_it_was() {
    let cs = CandidateSet::new(0b0_1010_0001);
    assert_eq!(vec![1, 32, 128], masks(cs));
    assert_eq!(vec![1, 32, 128], masks(cs));
    assert_eq!(3, cs.num_candidates());
    assert_eq!(0, masks(CandidateSet::new(0)).len());
    assert_eq!(0, masks(CandidateSet::new(512)).len());
}

#[test]
fn an_iterator_takes_any_mask() {
    let mut it = CandidateSetIterator::new(usize::MAX);
    let mut n = 0;
    let mut last = 0;
    while let Some(m) = it.next() {
        assert!(m > last);
        assert_eq!(1, m.count_ones());
        last = m;
        n += 1;
    }
    assert_eq!(usize::BITS, n);
}

#[test]
fn setting_the_flag_keeps_the_digit() {
    let mut cs = CandidateSet::new(1 << 6);
    assert!(!cs.is_solved());
    assert_eq!(None, cs.value());
    cs.set_solved();
    assert!(cs.is_solved());
    assert_eq!(Some(7), cs.value());
    assert_eq!(512 | 64, cs.get());
    assert_eq!(CandidateSet::parse_position('7'), Some(cs));
}

#[test]
fn a_candidate_set_starts_empty() {
    assert_eq!(0, CandidateSet::default().get());
    assert_eq!(0, CandidateSet::default().num_candidates());
    assert_eq!(5, usize::from(CandidateSet::new(5)));
}

#[test]
fn propagating_again_changes_nothing() {
    for s in [EASY, POINTING] {
        let mut p = parse_sudoku(s).unwrap();
        let before = p.oneline();
        let total = digits(&p);
        assert_eq!((0, 0), p.remove_candidates(false));
        assert_eq!((0, 0), p.remove_candidates(false));
        assert_eq!(before, p.oneline());
        assert_eq!(total, digits(&p));
    }
}

#[test]
fn propagation_goes_by_the_settled_cells() {
    // Cell 0 holds 1 and 2, cell 1 is settled to 1, all else is open.
    let mut masks = [511; 81];
    masks[0] = 0b11;
    masks[1] = 512 | 1;
    let mut p = grid(masks);
    assert_eq!((20, 0), p.remove_candidates(false));
    assert_eq!(0b10, p.cell(0).get());
    assert_eq!(512 | 1, p.cell(1).get());
    assert_eq!(510, p.cell(2).get());
    assert_eq!(510, p.cell(10).get());
    assert_eq!(510, p.cell(73).get());
    assert_eq!(511, p.cell(30).get());
    // Cell 0 is left with a single candidate and no flag: it strikes
    // nothing.
    assert_eq!((0, 0), p.remove_candidates(false));
    assert_eq!(510, p.cell(2).get());
}

#[test]
fn an_open_cell_loses_what_a_settled_cell_beside_it_holds() {
    // A lone candidate without flag beside a cell settled to it.
    let mut masks = [511; 81];
    masks[0] = 1;
    masks[1] = 512 | 1;
    let mut p = grid(masks);
    assert_eq!((20, 0), p.remove_candidates(false));
    assert_eq!(0, p.cell(0).get());
    assert_eq!(512 | 1, p.cell(1).get());
}

#[test]
fn settling_brings_up_more_to_strike() {
    let mut masks = [511; 81];
    masks[0] = 1;
    masks[1] = 512 | 2;
    let mut p = grid(masks);
    assert_eq!((19, 1), p.remove_candidates(true));
    assert_eq!(512 | 1, p.cell(0).get());
    assert_eq!(509, p.cell(2).get());
    // The cell settled just now strikes its digit the next time.
    assert_eq!((19, 0), p.remove_candidates(false));
    assert_eq!(508, p.cell(2).get());
    assert_eq!((0, 0), p.remove_candidates(false));
    let mut q = parse_sudoku(EASY).unwrap();
    assert_eq!((0, 1), q.remove_candidates(true));
    assert_eq!((12, 0), q.remove_candidates(false));
    assert_eq!((0, 0), q.remove_candidates(false));
}

#[test]
fn no_technique_adds_a_candidate() {
    for s in [EASY, POINTING] {
        let mut p = parse_sudoku(s).unwrap();
        let mut total = digits(&p);
        for _ in 0..40 {
            p.remove_candidates(false);
            assert!(digits(&p) <= total);
            total = digits(&p);
            p.find_hidden();
            assert!(digits(&p) <= total);
            total = digits(&p);
            p.remove_candidates(true);
            assert!(digits(&p) <= total);
            total = digits(&p);
            if p.try_pointing().is_none() {
                break;
            }
            assert!(digits(&p) <= total);
            total = digits(&p);
            p.box_line_reduce();
            assert!(digits(&p) <= total);
            total = digits(&p);
            p.find_subset();
            assert!(digits(&p) <= total);
            total = digits(&p);
        }
    }
}

#[test]
fn striking_a_mask_counts_the_cells_hit() {
    let mut p = grid([511; 81]);
    assert_eq!(3, p.remove_mask(0b11, vec![0, 40, 80, 40]));
    assert_eq!(0b1_1111_1100, p.cell(0).get());
    assert_eq!(0b1_1111_1100, p.cell(40).get());
    assert_eq!(511, p.cell(1).get());
    assert_eq!(0, p.remove_mask(0b11, vec![0, 40, 80]));
    assert_eq!(81 * 9 - 6, digits(&p));
}

#[test]
fn pointing_stops_at_a_box_that_holds_too_much() {
    // The open cells of the first box lie in its first row and hold four
    // digits between them.
    let mut masks = [511; 81];
    for i in [0, 1, 2] {
        masks[i] = 0b1111;
    }
    for (i, d) in [(9, 5), (10, 6), (11, 7), (18, 8), (19, 9)] {
        masks[i] = 512 | 1 << (d - 1);
    }
    masks[20] = 0;
    let mut p = grid(masks);
    assert!(p.is_valid());
    let before = digits(&p);
    assert_eq!(None, p.try_pointing());
    assert_eq!(before, digits(&p));
    let sr = grid(masks).try_solve();
    assert_eq!(false, sr.is_solved);
    assert_eq!(false, sr.is_valid);
    assert_eq!(5, sr.given);
    assert_eq!(0, sr.num_pointing);
    assert_eq!(
        ".........567......89.............................................................",
        sr.state
    );
}

#[test]
fn a_grid_counts_its_settled_cells() {
    let p = parse_sudoku(EASY).unwrap();
    assert_eq!(24, p.num_solved());
    assert!(!p.is_solved());
    assert!(p.is_valid());
    assert_eq!(EASY, p.oneline());
    assert_eq!(512 | 1, p.cell(1).get());
}

#[test]
fn a_group_without_a_digit_is_invalid() {
    let mut masks = [511; 81];
    for i in 0..9 {
        masks[i] = 0b0_1111_1111;
    }
    assert!(!grid(masks).is_valid());
    masks[4] = 511;
    assert!(grid(masks).is_valid());
    // A digit settled twice in a box.
    masks[0] = 512 | 4;
    masks[10] = 512 | 4;
    assert!(!grid(masks).is_valid());
    masks[10] = 512 | 8;
    assert!(grid(masks).is_valid());
}

#[test]
fn the_line_has_a_character_for_each_cell() {
    let mut masks = [511; 81];
    // A flag without a digit is no digit.
    masks[0] = 512;
    masks[1] = 512 | 256;
    masks[80] = 1;
    let line = grid(masks).oneline();
    assert_eq!(81, line.len());
    assert!(line.starts_with(".9."));
    assert!(line.ends_with("."));
}
