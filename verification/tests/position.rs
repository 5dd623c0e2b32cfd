use rs_sudoku::position::Position;

const ALL_CAND: i16 = 1 | 1 << 1 | 1 << 2 | 1 << 3 | 1 << 4 | 1 << 5 | 1 << 6 | 1 << 7 | 1 << 8;

#[test]
fn position_test_new_numbers() {
    for i in 1..9 {
        let c = char::from_digit(i, 10).unwrap();
        let p = Position::new(c).unwrap();
        assert_eq!(1 << i - 1, p.candidates);
    }
}

#[test]
fn position_test_new_none() {
    assert_eq!(None, Position::new('/'));
}

#[test]
fn position_test_new_zero() {
    for c in ['.', '0', '*'].iter() {
        assert_eq!(ALL_CAND, Position::new(c.clone()).unwrap().candidates);
    }
}

#[test]
fn position_counts_its_candidates() {
    assert_eq!(1, Position::new('9').unwrap().num_candidates());
    assert_eq!(256, Position::new('9').unwrap().candidates);
    assert_eq!(9, Position::new('x').unwrap().num_candidates());
    assert_eq!(0, Position { candidates: 0 }.num_candidates());
    assert_eq!(3, Position { candidates: 0b1_0100_0001 }.num_candidates());
    assert_eq!(16, Position { candidates: -1 }.num_candidates());
}
