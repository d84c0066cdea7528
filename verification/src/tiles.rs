//! Letters on the rack and on the board, placements, directions and errors.
use vstd::prelude::*;
use crate::letters::is_letter;

verus! {

/// A letter on the rack: a concrete character, or a blank that may stand for
/// any letter once it is played.
#[derive(Copy, Clone, Debug, PartialEq, Eq, Hash)]
pub enum RackLetter {
    Blank,
    Char(char),
}

/// A letter on a tile of the board.  A blank on the board always stands for
/// a character.
#[derive(Copy, Clone, Debug, PartialEq, Eq, Hash)]
pub enum TileLetter {
    Blank(char),
    Char(char),
}

impl TileLetter {
    /// The character that the tile shows.
    pub open spec fn letter(self) -> char {
        match self {
            TileLetter::Blank(ch) => ch,
            TileLetter::Char(ch) => ch,
        }
    }

    /// The rack letter that is used up when this tile is laid.
    pub open spec fn rack_letter(self) -> RackLetter {
        match self {
            TileLetter::Blank(_) => RackLetter::Blank,
            TileLetter::Char(ch) => RackLetter::Char(ch),
        }
    }

    /// Whether the tile is a realised blank.
    pub open spec fn is_blank(self) -> bool {
        self is Blank
    }

    /// The character that the tile shows.
    pub fn to_char(&self) -> (ch: char)
        ensures
            ch == self.letter(),
    {
        match self {
            TileLetter::Blank(ch) => *ch,
            TileLetter::Char(ch) => *ch,
        }
    }
}

/// A single placement of a letter on a cell, with 0-indexed row and column.
#[derive(Copy, Clone, Debug, PartialEq, Eq, Hash)]
pub struct TilePlacement {
    pub letter: TileLetter,
    pub row: usize,
    pub col: usize,
}

/// The direction of a play: along a row, or down a column.
#[derive(Copy, Clone, Debug, PartialEq, Eq, Hash)]
pub enum Direction {
    Horizontal,
    Vertical,
}

impl Direction {
    /// The direction that crosses this one.
    pub open spec fn cross(self) -> Direction {
        match self {
            Direction::Horizontal => Direction::Vertical,
            Direction::Vertical => Direction::Horizontal,
        }
    }

    /// The direction that crosses this one.
    pub fn crossing(&self) -> (d: Direction)
        ensures
            d == self.cross(),
    {
        match self {
            Direction::Horizontal => Direction::Vertical,
            Direction::Vertical => Direction::Horizontal,
        }
    }
}

/// Why the solver refused an input.
#[derive(Copy, Clone, Debug, PartialEq, Eq, Hash)]
pub enum SolverError {
    /// The number of rows or of columns is even or zero.
    InvalidDimensions,
    /// The word is empty or holds a character outside the alphabet.
    InvalidWord,
    /// A placement lies outside the grid.
    OutOfBounds,
    /// A placement targets a cell that is taken.
    OccupiedCell,
    /// The placements are not in one line, or leave a gap.
    DiscontiguousMove,
    /// The first move misses the centre or has fewer than two letters.
    IllegalFirstMove,
    /// A later move touches no tile on the board.
    DisconnectedMove,
}

/// Whether the tile shows a letter of the alphabet.
pub open spec fn valid_tile(t: TileLetter) -> bool {
    is_letter(t.letter())
}

} // verus!
