//! A constraint-propagation solver for classic 9x9 Sudoku puzzles.
//!
//! A puzzle is read from text into a grid of candidate sets.  Solving
//! applies a fixed battery of techniques, each of which only ever strikes
//! candidates, until none makes progress, and reports what each achieved.

pub mod bits;
pub mod box_line;
pub mod candidate_set;
pub mod combinations;
pub mod error;
pub mod fast_index;
pub mod fast_index_data;
pub mod hidden_singles;
pub mod index;
pub mod index_helpers;
pub mod parse;
pub mod pointing_pairs;
pub mod position;
pub mod progress;
pub mod remove_candidates;
pub mod remove_mask;
pub mod slow_index;
pub mod solve;
pub mod subset;
pub mod sudoku;

pub use self::error::SudokuErr;
pub use self::parse::parse_sudoku;
pub use self::solve::{SolveReport, Solveable};
pub use self::sudoku::Sudoku;
