use vstd::prelude::*;

use crate::error::PuzzleError;

verus! {

/// The closed set of liquid colors.
#[derive(Debug, Clone, Copy, PartialEq, Eq, Structural, Hash)]
pub enum Color {
    Cornflower,
    Grey,
    Mint,
    Navy,
    Orange,
    Pickle,
    Pink,
    Purple,
    Red,
}

/// Every color, in ordinal order.
pub const COLORS: [Color; 9] = [
    Color::Cornflower,
    Color::Grey,
    Color::Mint,
    Color::Navy,
    Color::Orange,
    Color::Pickle,
    Color::Pink,
    Color::Purple,
    Color::Red,
];

/// The number of colors.
pub const NUM_COLORS: u8 = 9;

/// The stable ordinal of a color, used by the text form.
pub open spec fn ordinal_of(c: Color) -> nat {
    match c {
        Color::Cornflower => 0,
        Color::Grey => 1,
        Color::Mint => 2,
        Color::Navy => 3,
        Color::Orange => 4,
        Color::Pickle => 5,
        Color::Pink => 6,
        Color::Purple => 7,
        Color::Red => 8,
    }
}

/// The color with a given ordinal, if there is one.
pub open spec fn color_with_ordinal(n: nat) -> Option<Color> {
    if n == 0 {
        Some(Color::Cornflower)
    } else if n == 1 {
        Some(Color::Grey)
    } else if n == 2 {
        Some(Color::Mint)
    } else if n == 3 {
        Some(Color::Navy)
    } else if n == 4 {
        Some(Color::Orange)
    } else if n == 5 {
        Some(Color::Pickle)
    } else if n == 6 {
        Some(Color::Pink)
    } else if n == 7 {
        Some(Color::Purple)
    } else if n == 8 {
        Some(Color::Red)
    } else {
        None
    }
}

/// The letter that stands for a color in the text form: `A` for ordinal 0, and so on.
pub open spec fn letter_of(c: Color) -> char {
    (('A' as u32) + ordinal_of(c)) as char
}

/// How the text form reads one character.
pub open spec fn color_from_letter(ch: char) -> Result<Color, PuzzleError> {
    if 'A' <= ch && ch <= 'Z' {
        match color_with_ordinal((ch as u32 - 'A' as u32) as nat) {
            Some(c) => Ok(c),
            None => Err(PuzzleError::ColorOutOfRange),
        }
    } else {
        Err(PuzzleError::UnknownColorSymbol)
    }
}

/// The display name of a color.
pub open spec fn name_of(c: Color) -> Seq<char> {
    match c {
        Color::Cornflower => "cornflower"@,
        Color::Grey => "grey"@,
        Color::Mint => "mint"@,
        Color::Navy => "navy"@,
        Color::Orange => "orange"@,
        Color::Pickle => "pickle"@,
        Color::Pink => "pink"@,
        Color::Purple => "purple"@,
        Color::Red => "red"@,
    }
}

/// The everyday name of a color's hue.
pub open spec fn simple_name_of(c: Color) -> Seq<char> {
    match c {
        Color::Cornflower => "blue"@,
        Color::Grey => "grey"@,
        Color::Mint => "green"@,
        Color::Navy => "blue"@,
        Color::Orange => "orange"@,
        Color::Pickle => "green"@,
        Color::Pink => "pink"@,
        Color::Purple => "purple"@,
        Color::Red => "red"@,
    }
}

/// The red, green and blue components used to draw a color.
pub open spec fn rgb_of(c: Color) -> (u8, u8, u8) {
    match c {
        Color::Cornflower => (118, 162, 226),
        Color::Grey => (99, 99, 100),
        Color::Mint => (146, 210, 126),
        Color::Navy => (61, 56, 191),
        Color::Orange => (205, 138, 69),
        Color::Pickle => (128, 147, 33),
        Color::Pink => (200, 97, 120),
        Color::Purple => (99, 52, 144),
        Color::Red => (164, 50, 37),
    }
}

/// Reading a color's letter gives the color back.
pub proof fn lemma_letter_round_trip(c: Color)
    ensures
        'A' <= letter_of(c) <= 'Z',
        letter_of(c) != ',',
        color_from_letter(letter_of(c)) == Ok::<Color, PuzzleError>(c),
{
}

impl Color {
    /// The color's stable ordinal.
    pub fn ordinal(self) -> (r: u8)
        ensures
            r as nat == ordinal_of(self),
            r < NUM_COLORS,
    {
        match self {
            Color::Cornflower => 0,
            Color::Grey => 1,
            Color::Mint => 2,
            Color::Navy => 3,
            Color::Orange => 4,
            Color::Pickle => 5,
            Color::Pink => 6,
            Color::Purple => 7,
            Color::Red => 8,
        }
    }

    /// The color with ordinal `n`, or `None` when no color has it.
    pub fn from_ordinal(n: u8) -> (r: Option<Color>)
        ensures
            r == color_with_ordinal(n as nat),
    {
        match n {
            0 => Some(Color::Cornflower),
            1 => Some(Color::Grey),
            2 => Some(Color::Mint),
            3 => Some(Color::Navy),
            4 => Some(Color::Orange),
            5 => Some(Color::Pickle),
            6 => Some(Color::Pink),
            7 => Some(Color::Purple),
            8 => Some(Color::Red),
            _ => None,
        }
    }

    /// The letter that stands for this color in the text form.
    pub fn ser(self) -> (r: char)
        ensures
            r == letter_of(self),
    {
        let n = self.ordinal();
        (('A' as u8) + n) as char
    }

    /// Reads one letter of the text form.
    pub fn deser(ch: char) -> (r: Result<Color, PuzzleError>)
        ensures
            r == color_from_letter(ch),
    {
        if 'A' <= ch && ch <= 'Z' {
            let n: u8 = ((ch as u32) - ('A' as u32)) as u8;
            match Color::from_ordinal(n) {
                Some(c) => Ok(c),
                None => Err(PuzzleError::ColorOutOfRange),
            }
        } else {
            Err(PuzzleError::UnknownColorSymbol)
        }
    }

    /// The display name of the color.
    pub fn name(self) -> (r: &'static str)
        ensures
            r@ == name_of(self),
    {
        match self {
            Color::Cornflower => "cornflower",
            Color::Grey => "grey",
            Color::Mint => "mint",
            Color::Navy => "navy",
            Color::Orange => "orange",
            Color::Pickle => "pickle",
            Color::Pink => "pink",
            Color::Purple => "purple",
            Color::Red => "red",
        }
    }

    /// The everyday name of the color's hue; two colors may share one.
    pub fn simple_name(self) -> (r: &'static str)
        ensures
            r@ == simple_name_of(self),
    {
        match self {
            Color::Cornflower => "blue",
            Color::Grey => "grey",
            Color::Mint => "green",
            Color::Navy => "blue",
            Color::Orange => "orange",
            Color::Pickle => "green",
            Color::Pink => "pink",
            Color::Purple => "purple",
            Color::Red => "red",
        }
    }

    /// The red, green and blue components used to draw the color.
    pub fn rgb(self) -> (r: (u8, u8, u8))
        ensures
            r == rgb_of(self),
    {
        match self {
            Color::Cornflower => (118, 162, 226),
            Color::Grey => (99, 99, 100),
            Color::Mint => (146, 210, 126),
            Color::Navy => (61, 56, 191),
            Color::Orange => (205, 138, 69),
            Color::Pickle => (128, 147, 33),
            Color::Pink => (200, 97, 120),
            Color::Purple => (99, 52, 144),
            Color::Red => (164, 50, 37),
        }
    }
}

} // verus!
