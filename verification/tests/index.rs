use rs_sudoku::fast_index;
use rs_sudoku::index_helpers::get_index_tuple;
use rs_sudoku::slow_index;
use rs_sudoku::slow_index::{
    BoxGenPosition, ColumnGenPosition, MultiRelatedIndexIterator, RelatedIndexIterator,
    RowGenPosition,
};

#[test]
fn test_iter() {
    for row in 0..9 {
        let mut fast = fast_index::row_iter(row);
        let mut slow = slow_index::row_iter(row);
        let mut seen = 0;
        while let (Some(f), Some(s)) = (fast.next(), slow.next()) {
            assert_eq!(f, s);
            seen += 1;
        }
        assert_eq!(9, seen);
    }
    for col in 0..9 {
        let mut fast = fast_index::column_iter(col);
        let mut slow = slow_index::column_iter(col);
        let mut seen = 0;
        while let (Some(f), Some(s)) = (fast.next(), slow.next()) {
            assert_eq!(f, s);
            seen += 1;
        }
        assert_eq!(9, seen);
    }
    for box_i in 0..9 {
        let mut fast = fast_index::box_iter(box_i);
        let mut slow = slow_index::box_iter(box_i);
        let mut seen = 0;
        while let (Some(f), Some(s)) = (fast.next(), slow.next()) {
            assert_eq!(f, s);
            seen += 1;
        }
        assert_eq!(9, seen);
    }
}

#[test]
fn test_comb_iter() {
    for sz in 2..5 {
        for row in 0..9 {
            let mut fast = fast_index::row_comb_iter(row, sz);
            let mut slow = slow_index::row_comb_iter(row, sz);
            while let (Some(f), Some(s)) = (fast.next(), slow.next()) {
                assert_eq!(f, s);
            }
        }
        for col in 0..9 {
            let mut fast = fast_index::column_comb_iter(col, sz);
            let mut slow = slow_index::column_comb_iter(col, sz);
            while let (Some(f), Some(s)) = (fast.next(), slow.next()) {
                assert_eq!(f, s);
            }
        }
        for box_i in 0..9 {
            let mut fast = fast_index::box_comb_iter(box_i, sz);
            let mut slow = slow_index::box_comb_iter(box_i, sz);
            while let (Some(f), Some(s)) = (fast.next(), slow.next()) {
                assert_eq!(f, s);
            }
        }
    }
}

#[test]
fn test_first_row() {
    let mut i = RelatedIndexIterator {
        incr: 0 as usize,
        gp: Box::new(RowGenPosition::new(0)),
    };
    let mut idx = 0;
    while let Some(item) = i.next() {
        assert_eq!(idx, item);
        idx += 1;
    }
    assert_eq!(9, idx);
}

#[test]
fn test_first_col() {
    let mut idx = 0;
    let mut i = RelatedIndexIterator {
        incr: 0 as usize,
        gp: Box::new(ColumnGenPosition::new(0)),
    };
    while let Some(i) = i.next() {
        assert_eq!(idx, i);
        idx += 9;
    }
    assert_eq!(81, idx);
}

#[test]
fn test_first_box() {
    let mut i = RelatedIndexIterator {
        incr: 0,
        gp: Box::new(BoxGenPosition::new(0)),
    };
    while let Some(idx) = i.next() {
        assert!(idx < 27);
    }
}

#[test]
fn test_all_row() {
    for row in 0..9 {
        let mut i = RelatedIndexIterator {
            incr: 0,
            gp: Box::new(RowGenPosition::new(row)),
        };
        while let Some(idx) = i.next() {
            let (row_i, _col_i, _box_i) = get_index_tuple(idx);
            assert_eq!(row, row_i);
        }
    }
}

#[test]
fn test_all_col() {
    for col in 0..9 {
        let mut i = RelatedIndexIterator {
            incr: 0,
            gp: Box::new(ColumnGenPosition::new(col)),
        };
        while let Some(idx) = i.next() {
            let (_row_i, col_i, _box_i) = get_index_tuple(idx);
            assert_eq!(col, col_i);
        }
    }
}

#[test]
fn test_all_box() {
    for b in 0..9 {
        let mut i = RelatedIndexIterator {
            incr: 0,
            gp: Box::new(BoxGenPosition::new(b)),
        };
        while let Some(idx) = i.next() {
            let (_row_i, _col_i, box_i) = get_index_tuple(idx);
            assert_eq!(b, box_i);
        }
    }
}

fn count<G: slow_index::GenPosition>(mut si: MultiRelatedIndexIterator<G>) -> usize {
    let mut n = 0;
    while si.next().is_some() {
        n += 1;
    }
    n
}

#[test]
fn test_box_quad_iter() {
    for i in 0..9 {
        // 9 choose 4 = 126
        let si = MultiRelatedIndexIterator::new(4)
            .set_gen_position(Box::new(BoxGenPosition::new(i)));
        assert_eq!(126, count(si));
    }
}

#[test]
fn test_col_quad_iter() {
    for i in 0..9 {
        // 9 choose 4 = 126
        let si = MultiRelatedIndexIterator::new(4)
            .set_gen_position(Box::new(ColumnGenPosition::new(i)));
        assert_eq!(126, count(si));
    }
}

#[test]
fn test_row_quad_iter() {
    for i in 0..9 {
        // 9 choose 4 = 126
        let si = MultiRelatedIndexIterator::new(4)
            .set_gen_position(Box::new(RowGenPosition::new(i)));
        assert_eq!(126, count(si));
    }
}
