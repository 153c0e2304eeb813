//! A piece with its kind, side and bitboard position.
use vstd::prelude::*;
use crate::color::Color;

verus! {

/// A piece's position: the bitboard of its square.
pub type PiecePos = u64;

#[derive(Debug, PartialEq, Eq, Clone, Copy, Structural)]
pub enum PieceType {
    Pawn,
    Rook,
    Knight,
    Bishop,
    Queen,
    King,
}

#[derive(Debug, PartialEq, Eq, Structural)]
pub struct Piece {
    position: PiecePos,
    color: Color,
    piece_type: PieceType,
}

impl View for Piece {
    type V = (PiecePos, Color, PieceType);

    closed spec fn view(&self) -> (PiecePos, Color, PieceType) {
        (self.position, self.color, self.piece_type)
    }
}

/// The lower-case letter of a piece kind.
pub open spec fn kind_letter(t: PieceType) -> char {
    match t {
        PieceType::Pawn => 'p',
        PieceType::Rook => 'r',
        PieceType::Knight => 'n',
        PieceType::Bishop => 'b',
        PieceType::Queen => 'q',
        PieceType::King => 'k',
    }
}

/// The upper-case letter of a piece kind.
pub open spec fn kind_capital(t: PieceType) -> char {
    match t {
        PieceType::Pawn => 'P',
        PieceType::Rook => 'R',
        PieceType::Knight => 'N',
        PieceType::Bishop => 'B',
        PieceType::Queen => 'Q',
        PieceType::King => 'K',
    }
}

impl Piece {
    pub fn new(position: PiecePos, color: Color, piece_type: PieceType) -> (r: Piece)
        ensures
            r@ == (position, color, piece_type),
    {
        Piece { position: position, color: color, piece_type: piece_type }
    }

    /// The piece's letter (upper case for White) followed by a space.
    pub fn to_string(&self) -> (r: String)
        ensures
            r@ == seq![
                if self@.1 == Color::White { kind_capital(self@.2) } else { kind_letter(self@.2) },
                ' ',
            ],
    {
        let white = self.color == Color::White;
        let c: char = match self.piece_type {
            PieceType::Pawn => if white { 'P' } else { 'p' },
            PieceType::Rook => if white { 'R' } else { 'r' },
            PieceType::Knight => if white { 'N' } else { 'n' },
            PieceType::Bishop => if white { 'B' } else { 'b' },
            PieceType::Queen => if white { 'Q' } else { 'q' },
            PieceType::King => if white { 'K' } else { 'k' },
        };
        let mut result = String::new();
        crate::text::push_char(&mut result, c);
        crate::text::push_char(&mut result, ' ');
        assert(result@ =~= seq![c, ' ']);
        result
    }

    pub fn position(&self) -> (r: PiecePos)
        ensures
            r == self@.0,
    {
        self.position
    }

    pub fn color(&self) -> (r: Color)
        ensures
            r == self@.1,
    {
        self.color
    }

    pub fn piece_type(&self) -> (r: PieceType)
        ensures
            r == self@.2,
    {
        self.piece_type
    }
}

} // verus!
