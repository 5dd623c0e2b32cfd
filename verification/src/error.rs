//! What can be wrong with a puzzle handed in as text.

use vstd::prelude::*;

verus! {

/// Why a text is not a puzzle.
#[derive(Debug, Clone, Copy, PartialEq, Eq)]
pub enum SudokuErr {
    /// The text is not pure ASCII.
    Ascii(),
    /// The text does not hold exactly 81 cells.
    Parse(),
    /// A row, a column or a box rules the puzzle out.
    InvalidPuzzle(),
}

impl SudokuErr {
    /// What is wrong, in words.
    pub fn message(&self) -> (text: &'static str)
        ensures
            text@ == (match *self {
                SudokuErr::Ascii() => "the puzzle is not pure ASCII"@,
                SudokuErr::Parse() => "the puzzle does not hold exactly 81 cells"@,
                SudokuErr::InvalidPuzzle() => "the puzzle is invalid"@,
            }),
    {
        match *self {
            SudokuErr::Ascii() => "the puzzle is not pure ASCII",
            SudokuErr::Parse() => "the puzzle does not hold exactly 81 cells",
            SudokuErr::InvalidPuzzle() => "the puzzle is invalid",
        }
    }
}

} // verus!
