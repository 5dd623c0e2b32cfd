//! A cell as a plain mask of candidates, without a solved flag.

use vstd::prelude::*;
use crate::bits::ones;

verus! {

/// The candidates of a cell, one bit for each digit.
#[derive(Debug, Clone, Copy, PartialEq)]
pub struct Position {
    pub candidates: i16,
}

// All candidates possible.
const ALL_CAND: i16 = 0x1FF;

/// The mask that a puzzle character stands for: the bit of the digit for
/// `'1'` to `'9'`, every digit for a blank, nothing for any other
/// character.
pub open spec fn position_mask(c: char) -> Option<i16> {
    if c == '1' {
        Some(1i16)
    } else if c == '2' {
        Some(2i16)
    } else if c == '3' {
        Some(4i16)
    } else if c == '4' {
        Some(8i16)
    } else if c == '5' {
        Some(16i16)
    } else if c == '6' {
        Some(32i16)
    } else if c == '7' {
        Some(64i16)
    } else if c == '8' {
        Some(128i16)
    } else if c == '9' {
        Some(256i16)
    } else if c == '0' || c == '.' || c == '*' || c == 'x' {
        Some(0x1FFi16)
    } else {
        None
    }
}

impl Position {
    /// The position that a puzzle character stands for, if it stands for
    /// a cell.
    pub fn new(c: char) -> (r: Option<Position>)
        ensures
            r.is_some() == position_mask(c).is_some(),
            r.is_some() ==> r.unwrap().candidates == position_mask(c).unwrap(),
    {
        match c {
            '1' => Some(Position { candidates: 1 }),
            '2' => Some(Position { candidates: 2 }),
            '3' => Some(Position { candidates: 4 }),
            '4' => Some(Position { candidates: 8 }),
            '5' => Some(Position { candidates: 16 }),
            '6' => Some(Position { candidates: 32 }),
            '7' => Some(Position { candidates: 64 }),
            '8' => Some(Position { candidates: 128 }),
            '9' => Some(Position { candidates: 256 }),
            '0' => Some(Position { candidates: ALL_CAND }),
            '.' => Some(Position { candidates: ALL_CAND }),
            '*' => Some(Position { candidates: ALL_CAND }),
            'x' => Some(Position { candidates: ALL_CAND }),
            _ => None,
        }
    }

    /// The number of bits set in the mask, taken as 16 bits.
    pub fn num_candidates(&self) -> (r: u32)
        ensures
            r == ones((self.candidates as u16) as nat),
    {
        (self.candidates as u16 as usize).count_ones()
    }
}

} // verus!
