use vstd::prelude::*;

verus! {

/// Everything that can go wrong in the puzzle model, its text form and the solver.
#[derive(Debug, Clone, Copy, PartialEq, Eq, Structural)]
pub enum PuzzleError {
    /// A push onto a vial whose four slots are all taken.
    VialFull,
    /// A pop from a vial with nothing in it.
    VialEmpty,
    /// A push or pop of a color that does not match the vial's top.
    ColorMismatch,
    /// A move names a vial that the puzzle does not have.
    IndexOutOfRange,
    /// A move names the same vial as source and destination.
    SameVial,
    /// A vial token of the text form has more than four letters.
    TooManyColorsInVial,
    /// A character of the text form is not an uppercase letter.
    UnknownColorSymbol,
    /// A letter whose ordinal names no color.
    ColorOutOfRange,
    /// The search ran out of states without reaching a sorted puzzle.
    NoSolution,
}

/// The description that `message` gives of each error.
pub open spec fn message_of(e: PuzzleError) -> Seq<char> {
    match e {
        PuzzleError::VialFull => "vial is full"@,
        PuzzleError::VialEmpty => "vial is empty"@,
        PuzzleError::ColorMismatch => "top color does not match"@,
        PuzzleError::IndexOutOfRange => "vial index out of range"@,
        PuzzleError::SameVial => "cannot pour a vial into itself"@,
        PuzzleError::TooManyColorsInVial => "too many colors in one vial"@,
        PuzzleError::UnknownColorSymbol => "unknown color symbol"@,
        PuzzleError::ColorOutOfRange => "color out of range"@,
        PuzzleError::NoSolution => "no solution"@,
    }
}

impl PuzzleError {
    /// A short human-readable description of the error.
    pub fn message(self) -> (r: &'static str)
        ensures
            r@ == message_of(self),
    {
        match self {
            PuzzleError::VialFull => "vial is full",
            PuzzleError::VialEmpty => "vial is empty",
            PuzzleError::ColorMismatch => "top color does not match",
            PuzzleError::IndexOutOfRange => "vial index out of range",
            PuzzleError::SameVial => "cannot pour a vial into itself",
            PuzzleError::TooManyColorsInVial => "too many colors in one vial",
            PuzzleError::UnknownColorSymbol => "unknown color symbol",
            PuzzleError::ColorOutOfRange => "color out of range",
            PuzzleError::NoSolution => "no solution",
        }
    }
}

} // verus!
