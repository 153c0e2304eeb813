//! What stands on one square of the board.
use vstd::prelude::*;
use crate::color::Color;

verus! {

#[derive(Clone, Copy, Debug, PartialEq, Eq, Hash, Structural)]
pub enum Square {
    Empty,
    WhitePawn,
    WhiteRook,
    WhiteKnight,
    WhiteBishop,
    WhiteQueen,
    WhiteKing,
    BlackPawn,
    BlackRook,
    BlackKnight,
    BlackBishop,
    BlackQueen,
    BlackKing,
}

impl Square {
    pub open spec fn spec_color(self) -> Option<Color> {
        match self {
            Square::WhitePawn | Square::WhiteKnight | Square::WhiteBishop | Square::WhiteRook
            | Square::WhiteQueen | Square::WhiteKing => Some(Color::White),
            Square::BlackPawn | Square::BlackKnight | Square::BlackBishop | Square::BlackRook
            | Square::BlackQueen | Square::BlackKing => Some(Color::Black),
            Square::Empty => None,
        }
    }

    pub open spec fn spec_value(self) -> i32 {
        match self {
            Square::WhitePawn | Square::BlackPawn => 1,
            Square::WhiteKnight | Square::BlackKnight => 3,
            Square::WhiteBishop | Square::BlackBishop => 3,
            Square::WhiteRook | Square::BlackRook => 5,
            Square::WhiteQueen | Square::BlackQueen => 9,
            Square::WhiteKing | Square::BlackKing => 0,
            Square::Empty => 0,
        }
    }

    pub open spec fn spec_char(self) -> char {
        match self {
            Square::Empty => '.',
            Square::WhitePawn => 'P',
            Square::WhiteKnight => 'N',
            Square::WhiteBishop => 'B',
            Square::WhiteRook => 'R',
            Square::WhiteQueen => 'Q',
            Square::WhiteKing => 'K',
            Square::BlackPawn => 'p',
            Square::BlackKnight => 'n',
            Square::BlackBishop => 'b',
            Square::BlackRook => 'r',
            Square::BlackQueen => 'q',
            Square::BlackKing => 'k',
        }
    }

    /// The side that owns the piece, `None` for an empty square.
    #[verifier::when_used_as_spec(spec_color)]
    pub fn color(self) -> (r: Option<Color>)
        ensures
            r == self.spec_color(),
    {
        match self {
            Square::WhitePawn | Square::WhiteKnight | Square::WhiteBishop | Square::WhiteRook
            | Square::WhiteQueen | Square::WhiteKing => Some(Color::White),
            Square::BlackPawn | Square::BlackKnight | Square::BlackBishop | Square::BlackRook
            | Square::BlackQueen | Square::BlackKing => Some(Color::Black),
            Square::Empty => None,
        }
    }

    /// Material value in pawns (the king and an empty square count 0).
    #[verifier::when_used_as_spec(spec_value)]
    pub fn value(self) -> (r: i32)
        ensures
            r == self.spec_value(),
    {
        match self {
            Square::WhitePawn | Square::BlackPawn => 1,
            Square::WhiteKnight | Square::BlackKnight => 3,
            Square::WhiteBishop | Square::BlackBishop => 3,
            Square::WhiteRook | Square::BlackRook => 5,
            Square::WhiteQueen | Square::BlackQueen => 9,
            Square::WhiteKing | Square::BlackKing => 0,
            Square::Empty => 0,
        }
    }

    /// The letter of the piece (upper case for White), '.' for an empty square.
    #[verifier::when_used_as_spec(spec_char)]
    pub fn to_char(self) -> (r: char)
        ensures
            r == self.spec_char(),
    {
        match self {
            Square::Empty => '.',
            Square::WhitePawn => 'P',
            Square::WhiteKnight => 'N',
            Square::WhiteBishop => 'B',
            Square::WhiteRook => 'R',
            Square::WhiteQueen => 'Q',
            Square::WhiteKing => 'K',
            Square::BlackPawn => 'p',
            Square::BlackKnight => 'n',
            Square::BlackBishop => 'b',
            Square::BlackRook => 'r',
            Square::BlackQueen => 'q',
            Square::BlackKing => 'k',
        }
    }

    pub fn is_empty(self) -> (r: bool)
        ensures
            r == (self == Square::Empty),
    {
        matches!(self, Square::Empty)
    }
}

} // verus!
