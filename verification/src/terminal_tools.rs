use vstd::prelude::*;

verus! {

/// The colours of the classic terminal palette, plus a reset entry.
#[derive(Copy, Clone, Debug, PartialEq, Eq, Structural)]
pub enum Colour {
    Reset,
    Black,
    Red,
    Green,
    Yellow,
    Blue,
    Magenta,
    Cyan,
    White,
}

impl Colour {
    /// The ANSI foreground code of the colour; 0 resets all attributes.
    pub open spec fn spec_code(self) -> u8 {
        match self {
            Colour::Reset => 0,
            Colour::Black => 30,
            Colour::Red => 31,
            Colour::Green => 32,
            Colour::Yellow => 33,
            Colour::Blue => 34,
            Colour::Magenta => 35,
            Colour::Cyan => 36,
            Colour::White => 37,
        }
    }

    /// The ANSI foreground code of the colour.
    pub fn code(self) -> (r: u8)
        ensures
            r == self.spec_code(),
    {
        match self {
            Colour::Reset => 0,
            Colour::Black => 30,
            Colour::Red => 31,
            Colour::Green => 32,
            Colour::Yellow => 33,
            Colour::Blue => 34,
            Colour::Magenta => 35,
            Colour::Cyan => 36,
            Colour::White => 37,
        }
    }
}

/// The ANSI background code of the colour: the foreground code shifted by
/// ten, except that a reset stays a reset.
pub fn as_bg_colour(colour: Colour) -> (r: u8)
    ensures
        r == (if colour == Colour::Reset {
            0u8
        } else {
            (colour.spec_code() + 10) as u8
        }),
{
    if colour == Colour::Reset {
        0
    } else {
        colour.code() + 10
    }
}

} // verus!
