use rs_sudoku::candidate_set::{CandidateSet, CandidateSetIterator};

const ALL_CAND: usize = 1 | 1 << 1 | 1 << 2 | 1 << 3 | 1 << 4 | 1 << 5 | 1 << 6 | 1 << 7 | 1 << 8;

#[test]
fn candidate_set_test_new_numbers() {
    for i in 1..10 {
        let c = char::from_digit(i, 10).unwrap();
        let p = CandidateSet::parse_position(c).unwrap();
        assert!(p.is_solved());
        if let Some(v) = p.value() {
            // Values should be equal
            assert_eq!(i as usize, v);
            // We should get the mask back
            let mut it = p.into_iter();
            while let Some(iv) = it.next() {
                assert_eq!(1 << (i - 1), iv);
            }
        }
    }
}

#[test]
fn candidate_set_test_new_none() {
    assert_eq!(None, CandidateSet::parse_position('/'));
}

#[test]
fn candidate_set_test_new_zero() {
    for c in ['.', '0', '*'].iter() {
        let v: usize = CandidateSet::parse_position(*c).unwrap().into();
        assert_eq!(ALL_CAND, v);
    }
}

#[test]
fn test_iterator_one() {
    let mut iter = CandidateSetIterator::new(1 << 1);
    assert_eq!(Some(2), iter.next());
    assert_eq!(None, iter.next());
}

#[test]
fn test_multiple() {
    let mut iter = CandidateSetIterator::new(1 | 1 << 4 | 1 << 5);
    assert_eq!(Some(1), iter.next());
    assert_eq!(Some(1 << 4), iter.next());
    assert_eq!(Some(1 << 5), iter.next());
    assert_eq!(None, iter.next());
}
