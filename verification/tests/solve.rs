use rs_sudoku::{parse_sudoku, Solveable};

const ONE_LINE: &str =
    ".1.....25.2.84.3.9.....91.84.....9.3.....6.......5....35..6.....6.1.....98......1";

#[test]
fn test_try_solve_easy() {
    let p = parse_sudoku(ONE_LINE).unwrap();
    let sr = p.try_solve();
    assert_eq!(true, sr.is_solved);
    assert_eq!(true, sr.is_valid);
    assert_eq!(46, sr.hidden_singles);
    assert_eq!(11, sr.naked_singles);
    assert_eq!(
        "819637425527841369643529178476218953135796284298354716351962847764183592982475631",
        sr.state
    );
}

#[test]
fn test_bad_fuzz_a() {
    let s = "
            2 . 4 | 7 . . | . . 6
            . . . | . . . | 1 . 4
            . 1 . | 6 5 . | . 8 .
            -------|-------|-------
            . 6 . | . . . | . 1 5
            . . 3 | . 8 . | . 7 .
            . . . | 2 6 . | . . .
            -------|-------|-------
            . . . | 3 4 . | . . .
            . . . | . .. | 6 5 . | 5 . . | . . . | . . 1

            ";
    if let Ok(p) = parse_sudoku(s) {
        p.try_solve();
    }
}

#[test]
fn test_find_naked() {
    let s = "080090030030000000002060108020800500800907006004005070503040900000000010010050020";
    if let Ok(p) = parse_sudoku(s) {
        let sr = p.try_solve();
        assert_eq!(true, sr.is_solved);
        assert_eq!(
            "486591732135278469972463158627814593851937246394625871563142987249786315718359624",
            sr.state
        );
    }
}

#[test]
fn test_pointing() {
    let s = "010903600000080000900000507002010430000402000064070200701000005000030000005601020";
    if let Ok(p) = parse_sudoku(s) {
        let sr = p.try_solve();
        assert!(sr.num_pointing > 4);
        assert!(sr.is_valid);
    }
}

#[test]
fn test_box_line() {
    let s = "016007803000800000070001060048000300600000002009000650060900020000002000904600510";
    if let Ok(p) = parse_sudoku(s) {
        let sr = p.try_solve();
        assert!(sr.is_valid);
        assert!(sr.num_pointing > 4);
        assert!(sr.box_line > 2);
    }
}

#[test]
fn test_another_line_box() {
    let s = "....4278..7.6...24...............675.4..8......1...2...64.....1..8.3....1.35.....";
    if let Ok(p) = parse_sudoku(s) {
        let sr = p.try_solve();
        assert!(sr.is_valid);
        assert!(sr.box_line > 2);
        assert_eq!(
            "315942786879651324426378159982413675647285913531769248264897531758136492193524867",
            sr.state
        );
        assert!(sr.is_solved);
    }
}

#[test]
fn the_puzzles_of_the_tests_parse() {
    for s in [
        "080090030030000000002060108020800500800907006004005070503040900000000010010050020",
        "010903600000080000900000507002010430000402000064070200701000005000030000005601020",
        "016007803000800000070001060048000300600000002009000650060900020000002000904600510",
        "....4278..7.6...24...............675.4..8......1...2...64.....1..8.3....1.35.....",
    ] {
        assert!(parse_sudoku(s).is_ok());
    }
}

#[test]
fn an_empty_grid_is_stuck_and_valid() {
    let sr = parse_sudoku(&".".repeat(81)).unwrap().try_solve();
    assert_eq!(false, sr.is_solved);
    assert_eq!(true, sr.is_valid);
    assert_eq!(0, sr.given);
    assert_eq!(0, sr.hidden_singles + sr.naked_singles);
    assert_eq!(0, sr.num_pointing + sr.box_line + sr.subsets_used);
    assert_eq!(".".repeat(81), sr.state);
}

#[test]
fn a_solved_grid_stays_as_it_is() {
    let solved =
        "819637425527841369643529178476218953135796284298354716351962847764183592982475631";
    let p = parse_sudoku(solved).unwrap();
    assert!(p.is_solved());
    assert!(p.is_valid());
    let sr = p.try_solve();
    assert_eq!(true, sr.is_solved);
    assert_eq!(true, sr.is_valid);
    assert_eq!(81, sr.given);
    assert_eq!(0, sr.hidden_singles + sr.naked_singles);
    assert_eq!(solved, sr.state);
}

#[test]
fn solving_is_reproducible() {
    let a = parse_sudoku(ONE_LINE).unwrap().try_solve();
    let b = parse_sudoku(ONE_LINE).unwrap().try_solve();
    assert_eq!(a.state, b.state);
    assert_eq!(a.hidden_singles, b.hidden_singles);
    assert_eq!(a.naked_singles, b.naked_singles);
    assert_eq!(24, a.given);
}
