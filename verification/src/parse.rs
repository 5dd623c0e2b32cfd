//! Reading a puzzle from text.

use vstd::prelude::*;
use vstd::string::StrSliceExecFns;
use vstd::utf8::is_ascii_chars;
use crate::candidate_set::{char_mask, CandidateSet};
use crate::error::SudokuErr;
use crate::remove_candidates::{propagated, RemoveCandidates};
use crate::sudoku::{grid_valid, lemma_grid_len, Sudoku};

verus! {

broadcast use lemma_grid_len;

/// The masks of the characters of `s` that stand for a cell, in order.
/// Every other character is passed over.
pub open spec fn recognized(s: Seq<char>) -> Seq<usize>
    decreases s.len(),
{
    if s.len() == 0 {
        Seq::empty()
    } else {
        match char_mask(s.last()) {
            Some(m) => recognized(s.drop_last()).push(m),
            None => recognized(s.drop_last()),
        }
    }
}

/// What reading the text `s` gives: an error if the text is not pure
/// ASCII, if it does not hold exactly 81 cells, or if the grid, after one
/// propagation, is not valid; that grid otherwise.
pub open spec fn parse_outcome(s: Seq<char>) -> Result<Seq<usize>, SudokuErr> {
    if !is_ascii_chars(s) {
        Err(SudokuErr::Ascii())
    } else if recognized(s).len() != 81 {
        Err(SudokuErr::Parse())
    } else if !grid_valid(propagated(recognized(s), false)) {
        Err(SudokuErr::InvalidPuzzle())
    } else {
        Ok(propagated(recognized(s), false))
    }
}

/// Reading one more character.
proof fn lemma_recognized_step(s: Seq<char>, i: int)
    requires
        0 <= i < s.len(),
    ensures
        recognized(s.take(i + 1)) == (match char_mask(s[i]) {
            Some(m) => recognized(s.take(i)).push(m),
            None => recognized(s.take(i)),
        }),
        recognized(s.take(0)) == Seq::<usize>::empty(),
{
    assert(s.take(i + 1).drop_last() =~= s.take(i));
    assert(s.take(i + 1).last() == s[i]);
}

/// Reads a puzzle from text: `'1'` to `'9'` for a given digit, `'0'`,
/// `'.'`, `'*'` or `'x'` for a blank; every other character is passed
/// over.  The grid is propagated once, and has to be valid then.
pub fn parse_sudoku(pzl: &str) -> (r: Result<Sudoku, SudokuErr>)
    ensures
        match r {
            Ok(sudoku) => parse_outcome(pzl@) == Ok::<Seq<usize>, SudokuErr>(sudoku@),
            Err(e) => parse_outcome(pzl@) == Err::<Seq<usize>, SudokuErr>(e),
        },
{
    // ASCII only.
    if !pzl.is_ascii() {
        return Err(SudokuErr::Ascii());
    }
    // Decode the cells.
    let mut p: [CandidateSet; 81] = vstd::array::array_fill_for_copy_types(CandidateSet::default());
    let mut used: usize = 0;
    let len = pzl.unicode_len();
    let mut i: usize = 0;
    let ghost s = pzl@;
    while i < len
        invariant
            s == pzl@,
            len == s.len(),
            i <= len,
            used <= i,
            used == recognized(s.take(i as int)).len(),
            forall|k: int|
                0 <= k < used && k < 81 ==> (#[trigger] p[k])@ == recognized(s.take(i as int))[k],
        decreases len - i,
    {
        let c = pzl.get_char(i);
        proof {
            lemma_recognized_step(s, i as int);
        }
        if let Some(cs) = CandidateSet::parse_position(c) {
            if used < 81 {
                p[used] = cs;
            }
            used += 1;
        }
        i += 1;
    }
    proof {
        assert(s.take(len as int) =~= s);
    }
    // Too few or too many.
    if used != 81 {
        return Err(SudokuErr::Parse());
    }
    let mut sudoku = Sudoku::new(p);
    proof {
        assert(sudoku@ =~= recognized(s));
    }
    // After one propagation the grid has to be valid.
    sudoku.remove_candidates(false);
    if sudoku.is_valid() {
        Ok(sudoku)
    } else {
        Err(SudokuErr::InvalidPuzzle())
    }
}

} // verus!
