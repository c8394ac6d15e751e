//! Error conditions reported by the puzzle operations.

use vstd::prelude::*;

verus! {

/// Every way a puzzle operation can fail.
#[derive(Clone, Copy, Debug, PartialEq, Eq, Structural, Hash, PartialOrd, Ord)]
pub enum ErrorKind {
    InvalidInput,
    InvalidNoSize,
    InvalidChar,
    InvalidValue,
    InvalidNoZero,
    InvalidMode,
    InvalidPoint,
    InvalidMove,
    OutOfBounds,
    EmptyInput,
    Unsolvable,
}

impl ErrorKind {
    /// The human-readable message of each error, as a sequence of characters.
    pub open spec fn message(self) -> Seq<char> {
        match self {
            ErrorKind::InvalidInput => "Invalid N-puzzle state: General Error"@,
            ErrorKind::InvalidNoSize => "Invalid N-puzzle state: No size given"@,
            ErrorKind::InvalidChar => "Invalid N-puzzle state: Invalid character"@,
            ErrorKind::InvalidValue => "Invalid N-puzzle state: Invalid value - too high or duplicate"@,
            ErrorKind::InvalidNoZero => "Invalid N-puzzle state: Invalid value - zero not found"@,
            ErrorKind::InvalidMode => "Invalid program mode"@,
            ErrorKind::InvalidPoint => "Invalid point: not a unit offset"@,
            ErrorKind::InvalidMove => "Invalid move: no tile in that direction"@,
            ErrorKind::OutOfBounds => "Position out of bounds"@,
            ErrorKind::EmptyInput => "Invalid N-puzzle state: Empty input"@,
            ErrorKind::Unsolvable => "Given state is unsolvable"@,
        }
    }

    /// True for the one error that is about solvability rather than input.
    pub open spec fn is_unsolvable(self) -> bool {
        self == ErrorKind::Unsolvable
    }

    pub fn as_str(&self) -> (s: &'static str)
        ensures
            s@ == self.message(),
    {
        match *self {
            ErrorKind::InvalidInput => "Invalid N-puzzle state: General Error",
            ErrorKind::InvalidNoSize => "Invalid N-puzzle state: No size given",
            ErrorKind::InvalidChar => "Invalid N-puzzle state: Invalid character",
            ErrorKind::InvalidValue => "Invalid N-puzzle state: Invalid value - too high or duplicate",
            ErrorKind::InvalidNoZero => "Invalid N-puzzle state: Invalid value - zero not found",
            ErrorKind::InvalidMode => "Invalid program mode",
            ErrorKind::InvalidPoint => "Invalid point: not a unit offset",
            ErrorKind::InvalidMove => "Invalid move: no tile in that direction",
            ErrorKind::OutOfBounds => "Position out of bounds",
            ErrorKind::EmptyInput => "Invalid N-puzzle state: Empty input",
            ErrorKind::Unsolvable => "Given state is unsolvable",
        }
    }

    /// The family an error belongs to: `"Unsolvable"` for the solvability
    /// error, `"InvalidInput"` for all the others.
    pub fn err_name(&self) -> (s: &'static str)
        ensures
            s@ == (if self.is_unsolvable() {
                "Unsolvable"@
            } else {
                "InvalidInput"@
            }),
    {
        match *self {
            ErrorKind::Unsolvable => "Unsolvable",
            _ => "InvalidInput",
        }
    }
}

} // verus!
