//! Moves in UCI notation ("e2e4", "e7e8q"), and the check that a move can be played.
use vstd::prelude::*;
use vstd::string::StringSliceAdditionalSpecFns;
use crate::apply_undo_move::{
    Move, MoveFlags, Flags, has_flag, apply_ok, capture_square, castle_ok, castle_rook,
    squares_before_landing, rook_from, rook_to, rook_of,
};
use crate::bits::lowest;
use crate::chess::{Chess, Position};
use crate::color::Color;
use crate::square::Square;
use crate::text::push_char;
use crate::utils::{algebraic, bit_scan, index_to_algebraic};

verus! {

/// Square index named by a file byte and a rank byte ("e" and "4" give 28).
pub open spec fn square_of(file: u8, rank: u8) -> int {
    (rank - 49) * 8 + (file - 97)
}

/// The first four bytes name two squares of the board (so the text can be read as a move).
pub open spec fn uci_readable(b: Seq<u8>) -> bool {
    b.len() >= 4 ==> {
        &&& b[0] >= 97
        &&& b[1] >= 49
        &&& square_of(b[0], b[1]) < 64
        &&& b[2] >= 97
        &&& b[3] >= 49
        &&& square_of(b[2], b[3]) < 64
    }
}

/// Capture and en-passant bits: a pawn landing on the en-passant square captures en passant,
/// any other piece landing on an occupied square captures.
pub open spec fn capture_bits(p: Position, from: int, to: int) -> u8 {
    let mover = p.squares[from];
    if p.en_passent != 0 && lowest(p.en_passent) == to
        && (mover == Square::WhitePawn || mover == Square::BlackPawn) {
        MoveFlags::EN_PASSENT | MoveFlags::CAPTURE
    } else if p.squares[to] != Square::Empty {
        MoveFlags::CAPTURE
    } else {
        0
    }
}

/// Castling bits: a king moving two files from its home square castles.
pub open spec fn castle_bits(mover: Square, from: int, to: int) -> u8 {
    if (mover == Square::WhiteKing && from == 4 && to == 6)
        || (mover == Square::BlackKing && from == 60 && to == 62) {
        MoveFlags::CASTLE_KINGSIDE
    } else if (mover == Square::WhiteKing && from == 4 && to == 2)
        || (mover == Square::BlackKing && from == 60 && to == 58) {
        MoveFlags::CASTLE_QUEENSIDE
    } else {
        0
    }
}

/// Promotion bit named by a fifth byte `q`, `r`, `b` or `n`.
pub open spec fn promotion_bits(b: Seq<u8>) -> u8 {
    if b.len() >= 5 {
        if b[4] == 113 {
            MoveFlags::PROMOTION_QUEEN
        } else if b[4] == 114 {
            MoveFlags::PROMOTION_ROOK
        } else if b[4] == 98 {
            MoveFlags::PROMOTION_BISHOP
        } else if b[4] == 110 {
            MoveFlags::PROMOTION_KNIGHT
        } else {
            0
        }
    } else {
        0
    }
}

/// The move a UCI text names on a board: none when the text is shorter than four bytes or
/// the start square is empty.
pub open spec fn uci_move(b: Seq<u8>, p: Position) -> Option<Move> {
    if b.len() < 4 {
        None
    } else {
        let from = square_of(b[0], b[1]);
        let to = square_of(b[2], b[3]);
        let mover = p.squares[from];
        if mover == Square::Empty {
            None
        } else {
            Some(Move {
                from: from as usize,
                to: to as usize,
                flags: capture_bits(p, from, to) | castle_bits(mover, from, to) | promotion_bits(b),
            })
        }
    }
}

/// The UCI suffix of a promotion: the letter of the first promotion flag set
/// (queen, rook, bishop, knight), or nothing.
pub open spec fn promotion_suffix(flags: u8) -> Seq<char> {
    if has_flag(flags, MoveFlags::PROMOTION_QUEEN) {
        seq!['q']
    } else if has_flag(flags, MoveFlags::PROMOTION_ROOK) {
        seq!['r']
    } else if has_flag(flags, MoveFlags::PROMOTION_BISHOP) {
        seq!['b']
    } else if has_flag(flags, MoveFlags::PROMOTION_KNIGHT) {
        seq!['n']
    } else {
        seq![]
    }
}

/// The UCI text of a move: both square names, then the promotion letter.
pub open spec fn uci_text(m: Move) -> Seq<char> {
    algebraic(m.from as nat) + algebraic(m.to as nat) + promotion_suffix(m.flags)
}

/// Square index of the two bytes at `i`.
fn square_at(b: &[u8], i: usize) -> (r: usize)
    requires
        i + 1 < b@.len(),
        b@[i as int] >= 97,
        b@[i + 1] >= 49,
        square_of(b@[i as int], b@[i + 1]) < 64,
    ensures
        r == square_of(b@[i as int], b@[i + 1]),
{
    let file = (b[i] - 97) as usize;
    let rank = (b[i + 1] - 49) as usize;
    rank * 8 + file
}

/// Reads a move in UCI notation on `board`: the flags follow from the pieces on the board
/// (capture, en passant, castling) and from a fifth promotion letter.
pub fn uci_to_move(s: &str, board: &Chess) -> (r: Option<Move>)
    requires
        uci_readable(s.spec_bytes()),
    ensures
        r == uci_move(s.spec_bytes(), board@),
{
    let b = s.as_bytes();
    if b.len() < 4 {
        return None;
    }
    let from = square_at(b, 0);
    let to = square_at(b, 2);
    let moving_piece = board.squares[from];
    if moving_piece == Square::Empty {
        return None;
    }
    let cap: u8 = if board.en_passent != 0 && moving_piece.color() == Some(Color::White)
        && to == bit_scan(board.en_passent) && moving_piece == Square::WhitePawn {
        MoveFlags::EN_PASSENT | MoveFlags::CAPTURE
    } else if board.en_passent != 0 && moving_piece.color() == Some(Color::Black)
        && to == bit_scan(board.en_passent) && moving_piece == Square::BlackPawn {
        MoveFlags::EN_PASSENT | MoveFlags::CAPTURE
    } else if board.squares[to] != Square::Empty {
        MoveFlags::CAPTURE
    } else {
        0
    };
    let castle: u8 = if (moving_piece == Square::WhiteKing && from == 4 && to == 6)
        || (moving_piece == Square::BlackKing && from == 60 && to == 62) {
        MoveFlags::CASTLE_KINGSIDE
    } else if (moving_piece == Square::WhiteKing && from == 4 && to == 2)
        || (moving_piece == Square::BlackKing && from == 60 && to == 58) {
        MoveFlags::CASTLE_QUEENSIDE
    } else {
        0
    };
    let mut promotion: u8 = 0;
    if b.len() >= 5 {
        promotion = if b[4] == 113 {
            MoveFlags::PROMOTION_QUEEN
        } else if b[4] == 114 {
            MoveFlags::PROMOTION_ROOK
        } else if b[4] == 98 {
            MoveFlags::PROMOTION_BISHOP
        } else if b[4] == 110 {
            MoveFlags::PROMOTION_KNIGHT
        } else {
            0
        };
    }
    let mut flags: u8 = cap | castle | promotion;
    if b.len() >= 5 && board.squares[to] != Square::Empty && !flags.contains(MoveFlags::CAPTURE) {
        // a piece on the destination has set the capture bit already, so this adds nothing
        assert(has_flag(flags, MoveFlags::CAPTURE)) by {
            assert(cap == (2u8 | 1u8) || cap == 1u8);
            assert((cap == (2u8 | 1u8) || cap == 1u8) ==> (cap | castle | promotion) & 1 == 1)
                by (bit_vector);
        }
        flags = flags | MoveFlags::CAPTURE;
    }
    Some(Move { from, to, flags })
}

/// Writes a move in UCI notation.
pub fn move_to_uci(m: &Move) -> (r: String)
    requires
        (m.from / 8) % 256 != 255,
        (m.to / 8) % 256 != 255,
    ensures
        r@ == uci_text(*m),
{
    let mut s = index_to_algebraic(m.from);
    let to = index_to_algebraic(m.to);
    let ghost s0 = s@;
    let mut i: usize = 0;
    let n = to.as_str().unicode_len();
    while i < n
        invariant
            n == to@.len(),
            i <= n,
            s@ == s0 + to@.subrange(0, i as int),
        decreases n - i,
    {
        push_char(&mut s, to.as_str().get_char(i));
        i = i + 1;
        assert(s@ =~= s0 + to@.subrange(0, i as int));
    }
    assert(to@.subrange(0, n as int) =~= to@);
    let ghost s1 = s@;
    if m.flags.contains(MoveFlags::PROMOTION_QUEEN) {
        push_char(&mut s, 'q');
    } else if m.flags.contains(MoveFlags::PROMOTION_ROOK) {
        push_char(&mut s, 'r');
    } else if m.flags.contains(MoveFlags::PROMOTION_BISHOP) {
        push_char(&mut s, 'b');
    } else if m.flags.contains(MoveFlags::PROMOTION_KNIGHT) {
        push_char(&mut s, 'n');
    }
    assert(s@ =~= s1 + promotion_suffix(m.flags));
    s
}

impl Chess {
    /// Whether `apply_move` can play `m` on this board (see `apply_ok`).
    pub fn is_playable(&self, m: &Move) -> (r: bool)
        ensures
            r == apply_ok(self@, *m),
    {
        if m.from >= 64 || m.to >= 64 || m.from == m.to {
            return false;
        }
        let mover = self.squares[m.from];
        if mover == Square::Empty {
            return false;
        }
        let white = mover.color() == Some(Color::White);
        let ghost p = self@;
        let mut s: [Square; 64] = self.squares;
        if m.flags.contains(MoveFlags::CAPTURE) {
            let c: usize = if m.flags.contains(MoveFlags::EN_PASSENT) {
                if white {
                    if m.to < 8 {
                        return false;
                    }
                    m.to - 8
                } else {
                    if m.to + 8 >= 64 {
                        return false;
                    }
                    m.to + 8
                }
            } else {
                m.to
            };
            assert(c == capture_square(*m, mover));
            if c == m.from {
                return false;
            }
            s[c] = Square::Empty;
        }
        let ghost s1 = s@;
        assert(s1 == (if has_flag(m.flags, MoveFlags::CAPTURE) {
            p.squares.update(capture_square(*m, mover), Square::Empty)
        } else {
            p.squares
        }));
        if m.flags.contains(MoveFlags::CASTLE_KINGSIDE) {
            let (rf, rt): (usize, usize) = if white { (7, 5) } else { (63, 61) };
            let rook = if white { Square::WhiteRook } else { Square::BlackRook };
            if !(s[rf] == rook && s[rt] == Square::Empty && m.from != rf && m.from != rt && m.to != rf
                && m.to != rt) {
                assert(!castle_ok(s1, *m, white, true));
                return false;
            }
            s[rf] = Square::Empty;
            s[rt] = rook;
        }
        let ghost s2 = s@;
        assert(s2 == castle_rook(s1, m.flags, MoveFlags::CASTLE_KINGSIDE, white, true));
        if m.flags.contains(MoveFlags::CASTLE_QUEENSIDE) {
            let (rf, rt): (usize, usize) = if white { (0, 3) } else { (56, 59) };
            let rook = if white { Square::WhiteRook } else { Square::BlackRook };
            if !(s[rf] == rook && s[rt] == Square::Empty && m.from != rf && m.from != rt && m.to != rf
                && m.to != rt) {
                assert(!castle_ok(s2, *m, white, false));
                return false;
            }
            s[rf] = Square::Empty;
            s[rt] = rook;
        }
        s[m.from] = Square::Empty;
        assert(s@ == squares_before_landing(p.squares, *m));
        if s[m.to] != Square::Empty {
            return false;
        }
        if !(m.flags.contains(MoveFlags::CAPTURE) || mover == Square::WhitePawn || mover == Square::BlackPawn)
            && self.halfmove_clock == usize::MAX {
            return false;
        }
        if self.active_color == Color::Black && self.fullmove_number == usize::MAX {
            return false;
        }
        true
    }
}

} // verus!
