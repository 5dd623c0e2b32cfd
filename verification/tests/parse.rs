use rs_sudoku::remove_candidates::RemoveCandidates;
use rs_sudoku::{parse_sudoku, SudokuErr};

const ONE_LINE: &str =
    ".1.....25.2.84.3.9.....91.84.....9.3.....6.......5....35..6.....6.1.....98......1";

const MULTI_LINE: &str = "
. 1 . | . . . | . 2 5
. 2 . | 8 4 . | 3 . 9
. . . | . . 9 | 1 . 8
------+-------+------
4 . . | . . . | 9 . 3
. . . | . . 6 | . . .
. . . | . 5 . | . . .
------+-------+------
3 5 . | . 6 . | . . .
. 6 . | 1 . . | . . .
9 8 . | . . . | . . 1
";

#[test]
fn error() {
    // Shouldn't be valid as it's not enough chars.
    let r = parse_sudoku("badd");
    assert!(r.is_err())
}

#[test]
fn test_parse_good_oneline() {
    let r = parse_sudoku(ONE_LINE);
    assert!(r.is_ok())
}

#[test]
fn test_good_multiline() {
    let r = parse_sudoku(MULTI_LINE);
    assert!(r.is_ok());
}

#[test]
fn test_not_solved() {
    let p = parse_sudoku(ONE_LINE).unwrap();
    assert!(!p.is_solved());
}

#[test]
fn test_weird() {
    let s = "000.00..00..00..00....00..000.0000000.0..0.0.0..000...0000000001.1101111.2....0.0";
    let p = parse_sudoku(s);
    assert!(p.is_err());
}

#[test]
fn test_remove_candidates() {
    let mut p = parse_sudoku(ONE_LINE).unwrap();
    // Reading has propagated once already: a second time changes nothing.
    let (c, _s) = p.remove_candidates(false);
    assert_eq!(0, c);
}

#[test]
fn multiline_reads_as_oneline() {
    let a = parse_sudoku(ONE_LINE).unwrap();
    let b = parse_sudoku(MULTI_LINE).unwrap();
    assert_eq!(a.oneline(), b.oneline());
    assert_eq!(ONE_LINE, a.oneline());
    assert_eq!(24, a.num_solved());
}

#[test]
fn too_few_cells_is_a_parse_error() {
    let eighty = ".".repeat(80);
    assert_eq!(Some(SudokuErr::Parse()), parse_sudoku(&eighty).err());
    assert_eq!(Some(SudokuErr::Parse()), parse_sudoku("").err());
    assert_eq!(Some(SudokuErr::Parse()), parse_sudoku("badd").err());
}

#[test]
fn too_many_cells_is_a_parse_error() {
    let many = ".".repeat(82);
    assert_eq!(Some(SudokuErr::Parse()), parse_sudoku(&many).err());
}

#[test]
fn other_characters_are_passed_over() {
    let spaced = format!("{} |-+\n", ".".repeat(81));
    assert!(parse_sudoku(&spaced).is_ok());
    let blanks = format!("{}{}{}", "0".repeat(27), "*".repeat(27), "x".repeat(27));
    assert!(parse_sudoku(&blanks).is_ok());
}

#[test]
fn text_beyond_ascii_is_an_encoding_error() {
    let s = format!("{}\u{e9}", ".".repeat(81));
    assert_eq!(Some(SudokuErr::Ascii()), parse_sudoku(&s).err());
    // The encoding is looked at first.
    assert_eq!(Some(SudokuErr::Ascii()), parse_sudoku("\u{e9}").err());
}

#[test]
fn a_digit_twice_in_a_row_is_invalid() {
    let s = format!("11{}", ".".repeat(79));
    assert_eq!(Some(SudokuErr::InvalidPuzzle()), parse_sudoku(&s).err());
}

#[test]
fn a_digit_twice_in_a_column_or_box_is_invalid() {
    let column = format!("7{}7{}", ".".repeat(8), ".".repeat(71));
    assert_eq!(Some(SudokuErr::InvalidPuzzle()), parse_sudoku(&column).err());
    let in_box = format!("7{}7{}", ".".repeat(9), ".".repeat(70));
    assert_eq!(Some(SudokuErr::InvalidPuzzle()), parse_sudoku(&in_box).err());
}

#[test]
fn errors_say_what_is_wrong() {
    assert_eq!("the puzzle is not pure ASCII", SudokuErr::Ascii().message());
    assert_eq!(
        "the puzzle does not hold exactly 81 cells",
        SudokuErr::Parse().message()
    );
    assert_eq!("the puzzle is invalid", SudokuErr::InvalidPuzzle().message());
}
