//! What a board view shows: piece images, which pieces are one's own, and the squares of a
//! bitboard picked for display.
use vstd::prelude::*;
use crate::bits::holds;
use crate::chess::Chess;
use crate::color::Color;
use crate::square::Square;
use crate::utils::BitBoard;

verus! {

/// Which piece bitboard a debug overlay highlights.
#[derive(Clone, Copy, PartialEq, Eq, Debug, Structural)]
pub enum DebugBitboard {
    WhitePawns,
    WhiteKnights,
    WhiteBishops,
    WhiteRooks,
    WhiteQueens,
    WhiteKing,
    BlackPawns,
    BlackKnights,
    BlackBishops,
    BlackRooks,
    BlackQueens,
    BlackKing,
}

/// The piece kind whose bitboard an overlay shows.
pub open spec fn overlay_piece(d: DebugBitboard) -> Square {
    match d {
        DebugBitboard::WhitePawns => Square::WhitePawn,
        DebugBitboard::WhiteKnights => Square::WhiteKnight,
        DebugBitboard::WhiteBishops => Square::WhiteBishop,
        DebugBitboard::WhiteRooks => Square::WhiteRook,
        DebugBitboard::WhiteQueens => Square::WhiteQueen,
        DebugBitboard::WhiteKing => Square::WhiteKing,
        DebugBitboard::BlackPawns => Square::BlackPawn,
        DebugBitboard::BlackKnights => Square::BlackKnight,
        DebugBitboard::BlackBishops => Square::BlackBishop,
        DebugBitboard::BlackRooks => Square::BlackRook,
        DebugBitboard::BlackQueens => Square::BlackQueen,
        DebugBitboard::BlackKing => Square::BlackKing,
    }
}

impl DebugBitboard {
    /// The overlay's name as the view shows it.
    pub fn label(&self) -> (r: &'static str)
        ensures
            r@ == match *self {
                DebugBitboard::WhitePawns => "White Pawns"@,
                DebugBitboard::WhiteKnights => "White Knights"@,
                DebugBitboard::WhiteBishops => "White Bishops"@,
                DebugBitboard::WhiteRooks => "White Rooks"@,
                DebugBitboard::WhiteQueens => "White Queens"@,
                DebugBitboard::WhiteKing => "White King"@,
                DebugBitboard::BlackPawns => "Black Pawns"@,
                DebugBitboard::BlackKnights => "Black Knights"@,
                DebugBitboard::BlackBishops => "Black Bishops"@,
                DebugBitboard::BlackRooks => "Black Rooks"@,
                DebugBitboard::BlackQueens => "Black Queens"@,
                DebugBitboard::BlackKing => "Black King"@,
            },
    {
        match self {
            DebugBitboard::WhitePawns => "White Pawns",
            DebugBitboard::WhiteKnights => "White Knights",
            DebugBitboard::WhiteBishops => "White Bishops",
            DebugBitboard::WhiteRooks => "White Rooks",
            DebugBitboard::WhiteQueens => "White Queens",
            DebugBitboard::WhiteKing => "White King",
            DebugBitboard::BlackPawns => "Black Pawns",
            DebugBitboard::BlackKnights => "Black Knights",
            DebugBitboard::BlackBishops => "Black Bishops",
            DebugBitboard::BlackRooks => "Black Rooks",
            DebugBitboard::BlackQueens => "Black Queens",
            DebugBitboard::BlackKing => "Black King",
        }
    }

    /// The board's bitboard of the overlay's piece kind.
    pub fn bitboard(&self, chess: &Chess) -> (r: u64)
        ensures
            r == chess.bitboard_of(overlay_piece(*self)),
    {
        match self {
            DebugBitboard::WhitePawns => chess.white_pawns,
            DebugBitboard::WhiteKnights => chess.white_knights,
            DebugBitboard::WhiteBishops => chess.white_bishops,
            DebugBitboard::WhiteRooks => chess.white_rooks,
            DebugBitboard::WhiteQueens => chess.white_queens,
            DebugBitboard::WhiteKing => chess.white_king,
            DebugBitboard::BlackPawns => chess.black_pawns,
            DebugBitboard::BlackKnights => chess.black_knights,
            DebugBitboard::BlackBishops => chess.black_bishops,
            DebugBitboard::BlackRooks => chess.black_rooks,
            DebugBitboard::BlackQueens => chess.black_queens,
            DebugBitboard::BlackKing => chess.black_king,
        }
    }
}

/// The image file of a piece ("" for an empty square).
pub fn piece_svg(square: Square) -> (r: &'static str)
    ensures
        r@ == match square {
            Square::WhitePawn => "pieces/pawn-w.svg"@,
            Square::WhiteKnight => "pieces/knight-w.svg"@,
            Square::WhiteBishop => "pieces/bishop-w.svg"@,
            Square::WhiteRook => "pieces/rook-w.svg"@,
            Square::WhiteQueen => "pieces/queen-w.svg"@,
            Square::WhiteKing => "pieces/king-w.svg"@,
            Square::BlackPawn => "pieces/pawn-b.svg"@,
            Square::BlackKnight => "pieces/knight-b.svg"@,
            Square::BlackBishop => "pieces/bishop-b.svg"@,
            Square::BlackRook => "pieces/rook-b.svg"@,
            Square::BlackQueen => "pieces/queen-b.svg"@,
            Square::BlackKing => "pieces/king-b.svg"@,
            Square::Empty => ""@,
        },
{
    match square {
        Square::WhitePawn => "pieces/pawn-w.svg",
        Square::WhiteKnight => "pieces/knight-w.svg",
        Square::WhiteBishop => "pieces/bishop-w.svg",
        Square::WhiteRook => "pieces/rook-w.svg",
        Square::WhiteQueen => "pieces/queen-w.svg",
        Square::WhiteKing => "pieces/king-w.svg",
        Square::BlackPawn => "pieces/pawn-b.svg",
        Square::BlackKnight => "pieces/knight-b.svg",
        Square::BlackBishop => "pieces/bishop-b.svg",
        Square::BlackRook => "pieces/rook-b.svg",
        Square::BlackQueen => "pieces/queen-b.svg",
        Square::BlackKing => "pieces/king-b.svg",
        Square::Empty => "",
    }
}

/// Whether the piece on `square` belongs to `color`.
pub fn is_own_piece(square: Square, color: Color) -> (r: bool)
    ensures
        r == (square.spec_color() == Some(color)),
{
    match color {
        Color::White => matches!(
            square,
            Square::WhitePawn | Square::WhiteKnight | Square::WhiteBishop | Square::WhiteRook
                | Square::WhiteQueen | Square::WhiteKing
        ),
        Color::Black => matches!(
            square,
            Square::BlackPawn | Square::BlackKnight | Square::BlackBishop | Square::BlackRook
                | Square::BlackQueen | Square::BlackKing
        ),
    }
}

/// The squares below `n` that are set in `b`, in increasing order.
pub open spec fn set_squares(b: u64, n: int) -> Seq<usize>
    decreases n,
{
    if n <= 0 {
        Seq::empty()
    } else if holds(b, n - 1) {
        set_squares(b, n - 1).push((n - 1) as usize)
    } else {
        set_squares(b, n - 1)
    }
}

/// The squares set in a bitboard, in increasing order.
pub fn bitboard_squares(bitboard: BitBoard) -> (r: Vec<usize>)
    ensures
        r@ == set_squares(bitboard, 64),
{
    let mut r: Vec<usize> = Vec::new();
    let mut i: usize = 0;
    while i < 64
        invariant
            i <= 64,
            r@ == set_squares(bitboard, i as int),
        decreases 64 - i,
    {
        if (bitboard >> i) & 1 == 1 {
            r.push(i);
        }
        i = i + 1;
    }
    r
}

} // verus!
