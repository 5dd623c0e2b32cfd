use rs_sudoku::box_line::LineBoxReduction;
use rs_sudoku::candidate_set::CandidateSet;
use rs_sudoku::hidden_singles::HiddenSingles;
use rs_sudoku::pointing_pairs::Pointing;
use rs_sudoku::remove_candidates::RemoveCandidates;
use rs_sudoku::subset::FindSubset;
use rs_sudoku::{parse_sudoku, Solveable, Sudoku};

const EASY: &str =
    ".1.....25.2.84.3.9.....91.84.....9.3.....6.......5....35..6.....6.1.....98......1";
const NAKED: &str =
    "080090030030000000002060108020800500800907006004005070503040900000000010010050020";
const POINTING: &str =
    "010903600000080000900000507002010430000402000064070200701000005000030000005601020";
const BOX_LINE: &str =
    "016007803000800000070001060048000300600000002009000650060900020000002000904600510";
const ANOTHER: &str =
    "....4278..7.6...24...............675.4..8......1...2...64.....1..8.3....1.35.....";
const HARD: &str =
    "....5..6.9.5..82...4..97.5..64......5.2.8.7.1......63..8.52..1...39..4.2.2..6....";

fn grid(masks: [usize; 81]) -> Sudoku {
    let mut cells = [CandidateSet::new(0); 81];
    for i in 0..81 {
        cells[i] = CandidateSet::new(masks[i]);
    }
    Sudoku::new(cells)
}

fn checksum(s: &Sudoku) -> usize {
    (0..81).map(|i| (i + 1) * s.cell(i).get()).sum()
}

fn digits(s: &Sudoku) -> usize {
    (0..81).map(|i| s.cell(i).num_candidates()).sum()
}

#[test]
fn propagation_on_easy() {
    let mut p = parse_sudoku(EASY).unwrap();
    assert_eq!(1003772, checksum(&p));
    assert_eq!((0, 0), p.remove_candidates(false));
    assert_eq!(1003772, checksum(&p));
    assert_eq!((0, 1), p.remove_candidates(true));
    assert_eq!(1018620, checksum(&p));
    assert_eq!(".1.....25.2.84.3.9.....91.847....9.3.....6.......5....35..6.....6.1.....98......1", p.oneline());
}

#[test]
fn propagation_on_naked() {
    let mut p = parse_sudoku(NAKED).unwrap();
    assert_eq!(1058266, checksum(&p));
    assert_eq!((0, 0), p.remove_candidates(false));
    assert_eq!(1058266, checksum(&p));
    assert_eq!((0, 3), p.remove_candidates(true));
    assert_eq!(1132506, checksum(&p));
    assert_eq!(".8..9..3..3.........2.6.1.8.2.8..5..85.9.7.46..4..5.7.5.3.4.9.7.......1..1..5..2.", p.oneline());
}

#[test]
fn propagation_on_hard() {
    let mut p = parse_sudoku(HARD).unwrap();
    assert_eq!(1120776, checksum(&p));
    assert_eq!((0, 0), p.remove_candidates(false));
    assert_eq!(1120776, checksum(&p));
    assert_eq!((0, 1), p.remove_candidates(true));
    assert_eq!(1156104, checksum(&p));
    assert_eq!("....5..6.9.5..82...4..97.5..64......5.2.8.7.1......63..8.52..1...39.14.2.2..6....", p.oneline());
}

#[test]
fn hidden_singles_on_easy() {
    let mut p = parse_sudoku(EASY).unwrap();
    p.remove_candidates(false);
    assert_eq!(8, p.find_hidden());
    assert_eq!(1086246, checksum(&p));
    assert_eq!("819....25.2.8413.9.435.91.84.....9.3.....6.......5...6351.6.....6.1.....98......1", p.oneline());
}

#[test]
fn hidden_singles_on_pointing() {
    let mut p = parse_sudoku(POINTING).unwrap();
    p.remove_candidates(false);
    assert_eq!(5, p.find_hidden());
    assert_eq!(1339694, checksum(&p));
    assert_eq!(".179.36......8....9.....5.7.72.1.43....4.2....6437.2..7.1....65....3......56.172.", p.oneline());
}

#[test]
fn pointing_on_pointing() {
    let mut p = grid([
        154, 513, 576, 768, 26, 516, 544, 136, 138,
        62, 30, 36, 83, 640, 120, 261, 265, 271,
        768, 142, 164, 3, 42, 40, 528, 137, 576,
        144, 576, 514, 144, 513, 432, 520, 516, 416,
        149, 404, 388, 520, 304, 514, 385, 576, 417,
        129, 544, 520, 516, 576, 384, 514, 528, 385,
        576, 398, 513, 130, 266, 392, 388, 544, 528,
        170, 394, 416, 210, 516, 472, 385, 393, 393,
        140, 396, 528, 544, 264, 513, 576, 514, 396,
    ]);
    let before = digits(&p);
    assert_eq!(Some((3, 0)), p.try_pointing());
    let mut q = grid([
        154, 513, 576, 768, 26, 516, 544, 136, 138,
        62, 30, 36, 83, 640, 120, 261, 265, 271,
        768, 142, 164, 3, 42, 40, 528, 137, 576,
        144, 576, 514, 144, 513, 432, 520, 516, 416,
        149, 404, 388, 520, 304, 514, 385, 576, 417,
        129, 544, 520, 516, 576, 384, 514, 528, 385,
        576, 398, 513, 130, 266, 392, 388, 544, 528,
        170, 394, 416, 210, 516, 472, 385, 393, 393,
        140, 396, 528, 544, 264, 513, 576, 514, 396,
    ]);
    assert_eq!((3, 0), q.handle_pointing());
    assert_eq!(checksum(&p), checksum(&q));
    assert_eq!(1325281, checksum(&p));
    assert_eq!(3, before - digits(&p));
    assert_eq!(".179.36......8....9.....5.7.72.1.43....4.2.7..6437.25.7.1....65....3......56.172.", p.oneline());
}

#[test]
fn box_line_on_box_line() {
    let mut p = grid([
        24, 513, 544, 26, 282, 576, 640, 264, 516,
        28, 768, 22, 640, 62, 60, 75, 72, 89,
        640, 576, 22, 30, 286, 513, 10, 544, 280,
        67, 520, 640, 83, 115, 48, 516, 320, 321,
        544, 528, 65, 77, 77, 768, 73, 640, 514,
        67, 516, 768, 75, 203, 136, 544, 528, 73,
        85, 544, 85, 768, 209, 144, 72, 514, 200,
        81, 640, 81, 89, 89, 514, 768, 516, 544,
        768, 514, 520, 544, 196, 132, 528, 513, 192,
    ]);
    let before = digits(&p);
    assert_eq!((3, 0), p.box_line_reduce());
    assert_eq!(1154307, checksum(&p));
    assert_eq!(3, before - digits(&p));
    assert_eq!(".16..78.3.9.8.....87...1.6..48...3..65...9.82.39...65..6.9...2..8...29369246..51.", p.oneline());
}

#[test]
fn subset_on_naked() {
    let mut p = grid([
        105, 640, 112, 91, 768, 3, 74, 516, 10,
        73, 516, 80, 91, 192, 131, 74, 544, 768,
        768, 72, 514, 72, 544, 516, 513, 528, 640,
        96, 514, 96, 640, 5, 520, 528, 768, 5,
        640, 528, 513, 768, 6, 576, 6, 520, 544,
        516, 768, 520, 544, 3, 528, 640, 576, 3,
        528, 544, 516, 3, 520, 3, 768, 640, 576,
        514, 72, 448, 68, 192, 416, 44, 513, 528,
        72, 513, 448, 68, 528, 416, 44, 514, 12,
    ]);
    let before = digits(&p);
    assert_eq!((2, 0), p.find_subset());
    assert_eq!(1244052, checksum(&p));
    assert_eq!(2, before - digits(&p));
    assert_eq!(".8..9..3..3.....699.2.63158.2.8.459.8519.7.463946.587.563.4.9872......15.1..5..2.", p.oneline());
}

#[test]
fn subset_on_pointing() {
    let mut p = grid([
        154, 513, 576, 768, 24, 516, 544, 136, 138,
        26, 24, 544, 81, 640, 88, 261, 265, 15,
        768, 140, 132, 3, 42, 40, 528, 137, 576,
        144, 576, 514, 144, 513, 432, 520, 516, 416,
        149, 404, 388, 520, 48, 514, 129, 576, 161,
        129, 544, 520, 516, 576, 384, 514, 528, 385,
        576, 398, 513, 130, 266, 136, 388, 544, 528,
        544, 394, 384, 210, 516, 216, 385, 393, 137,
        140, 396, 528, 544, 264, 513, 576, 514, 140,
    ]);
    let before = digits(&p);
    assert_eq!((2, 0), p.find_subset());
    assert_eq!(1232495, checksum(&p));
    assert_eq!(3, before - digits(&p));
    assert_eq!(".179.36....6.8....9.....5.7.72.1.43....4.2.7..6437.25.7.1....656...3......56.172.", p.oneline());
}

#[test]
fn subset_on_hard() {
    let mut p = grid([
        196, 68, 192, 9, 528, 514, 257, 544, 264,
        768, 513, 528, 544, 12, 640, 514, 72, 76,
        514, 520, 544, 5, 768, 576, 133, 528, 132,
        133, 544, 520, 576, 5, 272, 400, 514, 400,
        528, 260, 514, 12, 640, 544, 576, 264, 513,
        193, 320, 193, 514, 9, 272, 544, 516, 408,
        72, 640, 320, 528, 514, 12, 260, 513, 544,
        544, 528, 516, 768, 576, 513, 520, 640, 514,
        9, 514, 257, 640, 544, 12, 276, 320, 340,
    ]);
    let before = digits(&p);
    assert_eq!((1, 0), p.find_subset());
    assert_eq!(1333755, checksum(&p));
    assert_eq!(1, before - digits(&p));
    assert_eq!("....52.6.9156.82..246.97.5..647...2.5.2.867.1...2..63..8.52..16653971482.2.86....", p.oneline());
}

#[test]
fn report_on_easy() {
    let sr = parse_sudoku(EASY).unwrap().try_solve();
    assert_eq!(true, sr.is_solved);
    assert_eq!(true, sr.is_valid);
    assert_eq!(24, sr.given);
    assert_eq!(46, sr.hidden_singles);
    assert_eq!(11, sr.naked_singles);
    assert_eq!(0, sr.num_pointing);
    assert_eq!(0, sr.box_line);
    assert_eq!(0, sr.subsets_used);
    assert_eq!("819637425527841369643529178476218953135796284298354716351962847764183592982475631", sr.state);
}

#[test]
fn report_on_naked() {
    let sr = parse_sudoku(NAKED).unwrap().try_solve();
    assert_eq!(true, sr.is_solved);
    assert_eq!(true, sr.is_valid);
    assert_eq!(26, sr.given);
    assert_eq!(34, sr.hidden_singles);
    assert_eq!(21, sr.naked_singles);
    assert_eq!(2, sr.num_pointing);
    assert_eq!(0, sr.box_line);
    assert_eq!(2, sr.subsets_used);
    assert_eq!("486591732135278469972463158627814593851937246394625871563142987249786315718359624", sr.state);
}

#[test]
fn report_on_pointing() {
    let sr = parse_sudoku(POINTING).unwrap().try_solve();
    assert_eq!(false, sr.is_solved);
    assert_eq!(true, sr.is_valid);
    assert_eq!(26, sr.given);
    assert_eq!(9, sr.hidden_singles);
    assert_eq!(1, sr.naked_singles);
    assert_eq!(15, sr.num_pointing);
    assert_eq!(3, sr.box_line);
    assert_eq!(5, sr.subsets_used);
    assert_eq!(".179.36....6.8....9.....5.7.72.1.43....4.2.7..6437.25.7.1....6562..3......56.172.", sr.state);
}

#[test]
fn report_on_box_line() {
    let sr = parse_sudoku(BOX_LINE).unwrap().try_solve();
    assert_eq!(false, sr.is_solved);
    assert_eq!(true, sr.is_valid);
    assert_eq!(26, sr.given);
    assert_eq!(19, sr.hidden_singles);
    assert_eq!(4, sr.naked_singles);
    assert_eq!(8, sr.num_pointing);
    assert_eq!(11, sr.box_line);
    assert_eq!(0, sr.subsets_used);
    assert_eq!(".16..78.3.928..1..87...126..48...3..65...9482.39.8465..6.9.8724.8...2936924673518", sr.state);
}

#[test]
fn report_on_another() {
    let sr = parse_sudoku(ANOTHER).unwrap().try_solve();
    assert_eq!(true, sr.is_solved);
    assert_eq!(true, sr.is_valid);
    assert_eq!(23, sr.given);
    assert_eq!(41, sr.hidden_singles);
    assert_eq!(17, sr.naked_singles);
    assert_eq!(4, sr.num_pointing);
    assert_eq!(4, sr.box_line);
    assert_eq!(0, sr.subsets_used);
    assert_eq!("315942786879651324426378159982413675647285913531769248264897531758136492193524867", sr.state);
}

#[test]
fn report_on_hard() {
    let sr = parse_sudoku(HARD).unwrap().try_solve();
    assert_eq!(false, sr.is_solved);
    assert_eq!(true, sr.is_valid);
    assert_eq!(29, sr.given);
    assert_eq!(14, sr.hidden_singles);
    assert_eq!(2, sr.naked_singles);
    assert_eq!(13, sr.num_pointing);
    assert_eq!(0, sr.box_line);
    assert_eq!(1, sr.subsets_used);
    assert_eq!("....52.6.9156.82..246.97.5..647...2.5.2.867.1...2..63..8.52..16653971482.2.86....", sr.state);
}
