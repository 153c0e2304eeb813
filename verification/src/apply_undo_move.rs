//! Moves, and playing and taking back a move on the board.
use vstd::prelude::*;
use crate::castling_rights::CastlingRights;
use crate::chess::{Chess, Position, is_piece, lemma_wf_kept};
use crate::color::Color;
use crate::square::Square;
use crate::utils::BitBoard;
use crate::sums::{count_where, sum_to, indicator};
use crate::zobrist_hash::{
    black_to_move_hash, castling_hash, en_passant_hash, get_en_passant_index, piece_hash,
    square_to_piece_index, piece_key, castling_key, en_passant_key, black_to_move_key, en_passant_index,
    square_key, squares_key, position_key, lemma_squares_key_update,
};

pub use crate::uci::{move_to_uci, uci_to_move};

verus! {

#[derive(Debug, Clone, Copy, PartialEq, Eq, Structural)]
pub struct Move {
    pub from: usize,
    pub to: usize,
    pub flags: u8,
}

/// The flag bits of a move.
pub struct MoveFlags;

impl MoveFlags {
    pub const CAPTURE: u8 = 1u8;
    pub const EN_PASSENT: u8 = 2u8;
    pub const CASTLE_KINGSIDE: u8 = 4u8;
    pub const CASTLE_QUEENSIDE: u8 = 8u8;
    pub const PROMOTION_QUEEN: u8 = 16u8;
    pub const PROMOTION_ROOK: u8 = 32u8;
    pub const PROMOTION_BISHOP: u8 = 64u8;
    pub const PROMOTION_KNIGHT: u8 = 128u8;

    /// No flag set.
    pub fn empty() -> (r: u8)
        ensures
            r == 0,
    {
        0
    }
}

/// All bits of `f` are set in `flags`.
pub open spec fn has_flag(flags: u8, f: u8) -> bool {
    flags & f == f
}

/// Flag tests on a flags byte.
pub trait Flags {
    fn contains(&self, other: u8) -> bool;
}

impl Flags for u8 {
    fn contains(&self, other: u8) -> (r: bool)
        ensures
            r == has_flag(*self, other),
    {
        *self & other == other
    }
}

/// What `undo_move` needs to restore the position before a move.
pub struct History {
    pub m: Move,
    pub captured_square: Square,
    pub castling_rights: u8,
    pub en_passent: BitBoard,
    pub halfmove_clock: usize,
    pub previous_hash: u64,
}

impl History {
    pub fn new(m: Move) -> (r: Self)
        ensures
            r.m == m,
            r.captured_square == Square::Empty,
            r.castling_rights == 0,
            r.en_passent == 0,
            r.halfmove_clock == 0,
            r.previous_hash == 0,
    {
        History {
            m: m,
            captured_square: Square::Empty,
            castling_rights: CastlingRights::NONE,
            en_passent: 0,
            halfmove_clock: 0,
            previous_hash: 0,
        }
    }
}

pub open spec fn is_pawn(p: Square) -> bool {
    p == Square::WhitePawn || p == Square::BlackPawn
}

/// The square whose piece a capture removes: behind the destination for en passant.
pub open spec fn capture_square(m: Move, mover: Square) -> int {
    if has_flag(m.flags, MoveFlags::EN_PASSENT) {
        if mover.spec_color() == Some(Color::White) {
            m.to - 8
        } else {
            m.to + 8
        }
    } else {
        m.to as int
    }
}

/// The piece that arrives on the destination: a pawn becomes the piece its promotion flag names
/// (queen first, then rook, bishop, knight).
pub open spec fn promoted(mover: Square, flags: u8) -> Square {
    if mover == Square::WhitePawn {
        if has_flag(flags, MoveFlags::PROMOTION_QUEEN) {
            Square::WhiteQueen
        } else if has_flag(flags, MoveFlags::PROMOTION_ROOK) {
            Square::WhiteRook
        } else if has_flag(flags, MoveFlags::PROMOTION_BISHOP) {
            Square::WhiteBishop
        } else if has_flag(flags, MoveFlags::PROMOTION_KNIGHT) {
            Square::WhiteKnight
        } else {
            mover
        }
    } else if mover == Square::BlackPawn {
        if has_flag(flags, MoveFlags::PROMOTION_QUEEN) {
            Square::BlackQueen
        } else if has_flag(flags, MoveFlags::PROMOTION_ROOK) {
            Square::BlackRook
        } else if has_flag(flags, MoveFlags::PROMOTION_BISHOP) {
            Square::BlackBishop
        } else if has_flag(flags, MoveFlags::PROMOTION_KNIGHT) {
            Square::BlackKnight
        } else {
            mover
        }
    } else {
        mover
    }
}

/// Squares of the castling rook: (from, to) for the given side and wing.
pub open spec fn rook_from(white: bool, kingside: bool) -> int {
    if white {
        if kingside { 7 } else { 0 }
    } else {
        if kingside { 63 } else { 56 }
    }
}

pub open spec fn rook_to(white: bool, kingside: bool) -> int {
    if white {
        if kingside { 5 } else { 3 }
    } else {
        if kingside { 61 } else { 59 }
    }
}

pub open spec fn rook_of(white: bool) -> Square {
    if white { Square::WhiteRook } else { Square::BlackRook }
}

/// Moves the castling rook of a wing when the flag is set.
pub open spec fn castle_rook(s: Seq<Square>, flags: u8, f: u8, white: bool, kingside: bool) -> Seq<Square> {
    if has_flag(flags, f) {
        s.update(rook_from(white, kingside), Square::Empty).update(rook_to(white, kingside), rook_of(white))
    } else {
        s
    }
}

/// The squares once the capture is taken off and the rooks of a castling are moved.
pub open spec fn squares_before_landing(s: Seq<Square>, m: Move) -> Seq<Square> {
    let mover = s[m.from as int];
    let white = mover.spec_color() == Some(Color::White);
    let s1 = if has_flag(m.flags, MoveFlags::CAPTURE) {
        s.update(capture_square(m, mover), Square::Empty)
    } else {
        s
    };
    let s2 = castle_rook(s1, m.flags, MoveFlags::CASTLE_KINGSIDE, white, true);
    let s3 = castle_rook(s2, m.flags, MoveFlags::CASTLE_QUEENSIDE, white, false);
    s3.update(m.from as int, Square::Empty)
}

/// The squares after the move.
pub open spec fn squares_after(s: Seq<Square>, m: Move) -> Seq<Square> {
    squares_before_landing(s, m).update(m.to as int, promoted(s[m.from as int], m.flags))
}

/// Clears bits of a castling-rights byte.
pub open spec fn without(cr: u8, f: u8) -> u8 {
    cr & !f
}

/// The en-passant square after the move: the square a pawn's double step passed over.
pub open spec fn en_passant_after(m: Move, mover: Square) -> u64 {
    if is_pawn(mover) && (m.from == m.to + 16 || m.to == m.from + 16) {
        1u64 << (((m.from + m.to) / 2) as u64)
    } else {
        0
    }
}

/// XOR `k` into `h` when `c` holds.
pub open spec fn xor_if(h: u64, c: bool, k: u64) -> u64 {
    if c {
        h ^ k
    } else {
        h
    }
}

/// First the clocks, the path and the en-passant square (with its hash key) are updated.
pub open spec fn phase_clocks(p: Position, m: Move) -> Position {
    let mover = p.squares[m.from as int];
    let ep = en_passant_after(m, mover);
    Position {
        halfmove_clock: if has_flag(m.flags, MoveFlags::CAPTURE) || is_pawn(mover) {
            0
        } else {
            (p.halfmove_clock + 1) as usize
        },
        en_passent: ep,
        hash: p.hash ^ en_passant_key(en_passant_index(p.en_passent)) ^ en_passant_key(
            en_passant_index(ep),
        ),
        path: p.path.push(p.hash),
        ..p
    }
}

/// Castling rights after a capture on a rook's home square.
pub open spec fn rights_after_capture(cr: u8, m: Move, mover: Square) -> u8 {
    let t = capture_square(m, mover);
    if has_flag(m.flags, MoveFlags::CAPTURE) {
        if t == 0 {
            without(cr, CastlingRights::WHITEQUEENSIDE)
        } else if t == 7 {
            without(cr, CastlingRights::WHITEKINGSIDE)
        } else if t == 56 {
            without(cr, CastlingRights::BLACKQUEENSIDE)
        } else if t == 63 {
            without(cr, CastlingRights::BLACKKINGSIDE)
        } else {
            cr
        }
    } else {
        cr
    }
}

/// Castling rights after a king move or a rook move from its home square.
pub open spec fn rights_after_leaving(c1: u8, from: int, mover: Square) -> u8 {
    let c2 = if mover == Square::WhiteKing {
        without(without(c1, CastlingRights::WHITEKINGSIDE), CastlingRights::WHITEQUEENSIDE)
    } else {
        c1
    };
    let c3 = if mover == Square::BlackKing {
        without(without(c2, CastlingRights::BLACKKINGSIDE), CastlingRights::BLACKQUEENSIDE)
    } else {
        c2
    };
    let c4 = if mover == Square::WhiteRook {
        if from == 0 {
            without(c3, CastlingRights::WHITEQUEENSIDE)
        } else if from == 7 {
            without(c3, CastlingRights::WHITEKINGSIDE)
        } else {
            c3
        }
    } else {
        c3
    };
    if mover == Square::BlackRook {
        if from == 56 {
            without(c4, CastlingRights::BLACKQUEENSIDE)
        } else if from == 63 {
            without(c4, CastlingRights::BLACKKINGSIDE)
        } else {
            c4
        }
    } else {
        c4
    }
}

/// The castling rights once the piece of move `m` has left its square.
pub open spec fn rights_after_move(c1: u8, m: Move, mover: Square) -> u8 {
    rights_after_leaving(c1, m.from as int, mover)
}

/// Then a captured piece leaves the board (and its key the hash).
pub open spec fn phase_capture(p: Position, m: Move, mover: Square) -> Position {
    let t = capture_square(m, mover);
    if has_flag(m.flags, MoveFlags::CAPTURE) {
        Position {
            squares: p.squares.update(t, Square::Empty),
            castling_rights: rights_after_capture(p.castling_rights, m, mover),
            hash: xor_if(p.hash, p.squares[t] != Square::Empty, square_key(t, p.squares[t])),
            ..p
        }
    } else {
        p
    }
}

/// Hash keys of a castling rook on its home square and on its destination.
pub open spec fn rook_keys(white: bool, kingside: bool) -> u64 {
    if white {
        piece_key(0, rook_from(true, kingside), 3) ^ piece_key(0, rook_to(true, kingside), 3)
    } else {
        piece_key(1, rook_from(false, kingside), 9) ^ piece_key(1, rook_to(false, kingside), 9)
    }
}

/// Then the rook of a castling wing moves.
pub open spec fn phase_castle(p: Position, m: Move, white: bool, kingside: bool) -> Position {
    let f = if kingside { MoveFlags::CASTLE_KINGSIDE } else { MoveFlags::CASTLE_QUEENSIDE };
    if has_flag(m.flags, f) {
        Position {
            squares: castle_rook(p.squares, m.flags, f, white, kingside),
            hash: p.hash ^ rook_keys(white, kingside),
            ..p
        }
    } else {
        p
    }
}

/// Then the castling rights lose what a king or rook move gives up; the hash trades the key of
/// the rights before the move for the key of the new rights.
pub open spec fn phase_rights(p: Position, m: Move, mover: Square, old_rights: u8) -> Position {
    let cr = rights_after_move(p.castling_rights, m, mover);
    Position {
        castling_rights: cr,
        hash: p.hash ^ castling_key(old_rights as int) ^ castling_key(cr as int),
        ..p
    }
}

/// Then the piece leaves its square and lands (promoted) on the destination.
pub open spec fn phase_land(p: Position, m: Move, mover: Square) -> Position {
    let landed = promoted(mover, m.flags);
    Position {
        squares: p.squares.update(m.from as int, Square::Empty).update(m.to as int, landed),
        hash: p.hash ^ square_key(m.from as int, mover) ^ square_key(m.to as int, landed),
        ..p
    }
}

/// Finally the turn passes to the other side.
pub open spec fn phase_turn(p: Position) -> Position {
    Position {
        active_color: p.active_color.opponent(),
        fullmove_number: if p.active_color == Color::Black {
            (p.fullmove_number + 1) as usize
        } else {
            p.fullmove_number
        },
        hash: p.hash ^ black_to_move_key(),
        ..p
    }
}

/// The position after the move.
pub open spec fn position_after(p: Position, m: Move) -> Position {
    let mover = p.squares[m.from as int];
    let white = mover.spec_color() == Some(Color::White);
    let p1 = phase_clocks(p, m);
    let p2 = phase_capture(p1, m, mover);
    let p3 = phase_castle(p2, m, white, true);
    let p4 = phase_castle(p3, m, white, false);
    let p5 = phase_rights(p4, m, mover, p.castling_rights);
    let p6 = phase_land(p5, m, mover);
    phase_turn(p6)
}

/// The fifty-move clock after a move: back to 0 after a capture or a pawn move, else one more.
pub proof fn lemma_halfmove_after(p: Position, m: Move)
    ensures
        has_flag(m.flags, MoveFlags::CAPTURE) ==> position_after(p, m).halfmove_clock == 0,
        is_pawn(p.squares[m.from as int]) ==> position_after(p, m).halfmove_clock == 0,
        !has_flag(m.flags, MoveFlags::CAPTURE) && !is_pawn(p.squares[m.from as int]) && p.halfmove_clock < usize::MAX
            ==> position_after(p, m).halfmove_clock == p.halfmove_clock + 1,
{
}

/// The side to move passes to the other colour; the move number grows by one after Black moves
/// and stays after White moves.
pub proof fn lemma_turn_after(p: Position, m: Move)
    ensures
        p.active_color == Color::White ==> position_after(p, m).active_color == Color::Black
            && position_after(p, m).fullmove_number == p.fullmove_number,
        p.active_color == Color::Black ==> position_after(p, m).active_color == Color::White,
        p.active_color == Color::Black && p.fullmove_number < usize::MAX ==> position_after(
            p,
            m,
        ).fullmove_number == p.fullmove_number + 1,
{
}

/// Only a pawn's double step leaves an en-passant square, the square it passed over; after any
/// other move there is none.
pub proof fn lemma_en_passant_after(p: Position, m: Move)
    ensures
        is_pawn(p.squares[m.from as int]) && m.to == m.from + 16 ==> position_after(p, m).en_passent == 1u64 << ((
        m.from + 8) as u64),
        is_pawn(p.squares[m.from as int]) && m.from == m.to + 16 ==> position_after(p, m).en_passent == 1u64 << ((
        m.to + 8) as u64),
        !(is_pawn(p.squares[m.from as int]) && (m.to == m.from + 16 || m.from == m.to + 16)) ==> position_after(
            p,
            m,
        ).en_passent == 0,
{
}

/// Which promotion flags a flags byte holds when its high bits are zero or one flag alone.
proof fn lemma_promotion_bits(f: u8)
    by (bit_vector)
    ensures
        f < 16 ==> f & 16 != 16 && f & 32 != 32 && f & 64 != 64 && f & 128 != 128,
        f & 0xF0u8 == 32u8 ==> f & 16 != 16 && f & 32 == 32,
        f & 0xF0u8 == 64u8 ==> f & 16 != 16 && f & 32 != 32 && f & 64 == 64,
        f & 0xF0u8 == 128u8 ==> f & 16 != 16 && f & 32 != 32 && f & 64 != 64 && f & 128 == 128,
{
}

/// The moving piece leaves its square and stands on the destination: as itself, or as the piece
/// a pawn's promotion flag names, in the pawn's colour.
pub proof fn lemma_landing_after(p: Position, m: Move)
    requires
        p.squares.len() == 64,
        apply_ok(p, m),
    ensures
        position_after(p, m).squares[m.from as int] == Square::Empty,
        !is_pawn(p.squares[m.from as int]) ==> position_after(p, m).squares[m.to as int] == p.squares[m.from as int],
        m.flags < 16 ==> position_after(p, m).squares[m.to as int] == p.squares[m.from as int],
        p.squares[m.from as int] == Square::WhitePawn && has_flag(m.flags, MoveFlags::PROMOTION_QUEEN)
            ==> position_after(p, m).squares[m.to as int] == Square::WhiteQueen,
        p.squares[m.from as int] == Square::BlackPawn && has_flag(m.flags, MoveFlags::PROMOTION_QUEEN)
            ==> position_after(p, m).squares[m.to as int] == Square::BlackQueen,
        p.squares[m.from as int] == Square::WhitePawn && m.flags & 0xF0u8 == MoveFlags::PROMOTION_ROOK
            ==> position_after(p, m).squares[m.to as int] == Square::WhiteRook,
        p.squares[m.from as int] == Square::BlackPawn && m.flags & 0xF0u8 == MoveFlags::PROMOTION_ROOK
            ==> position_after(p, m).squares[m.to as int] == Square::BlackRook,
        p.squares[m.from as int] == Square::WhitePawn && m.flags & 0xF0u8 == MoveFlags::PROMOTION_BISHOP
            ==> position_after(p, m).squares[m.to as int] == Square::WhiteBishop,
        p.squares[m.from as int] == Square::BlackPawn && m.flags & 0xF0u8 == MoveFlags::PROMOTION_BISHOP
            ==> position_after(p, m).squares[m.to as int] == Square::BlackBishop,
        p.squares[m.from as int] == Square::WhitePawn && m.flags & 0xF0u8 == MoveFlags::PROMOTION_KNIGHT
            ==> position_after(p, m).squares[m.to as int] == Square::WhiteKnight,
        p.squares[m.from as int] == Square::BlackPawn && m.flags & 0xF0u8 == MoveFlags::PROMOTION_KNIGHT
            ==> position_after(p, m).squares[m.to as int] == Square::BlackKnight,
{
    lemma_promotion_bits(m.flags);
    let s = p.squares;
    let mover = s[m.from as int];
    let white = mover.spec_color() == Some(Color::White);
    let s1 = if has_flag(m.flags, MoveFlags::CAPTURE) { s.update(capture_square(m, mover), Square::Empty) } else { s };
    let s2 = castle_rook(s1, m.flags, MoveFlags::CASTLE_KINGSIDE, white, true);
    let s3 = castle_rook(s2, m.flags, MoveFlags::CASTLE_QUEENSIDE, white, false);
    let q = position_after(p, m);
    assert(q.squares =~= s3.update(m.from as int, Square::Empty).update(m.to as int, promoted(mover, m.flags)));
}

/// Clearing one castling bit `f` from `a`: what was a subset of `x` stays one, `f` is gone, a bit
/// already gone stays gone, and any other bit is kept.
proof fn lemma_clear_bit(a: u8, f: u8, g: u8, x: u8)
    by (bit_vector)
    requires
        f == 1 || f == 2 || f == 4 || f == 8,
        g == 1 || g == 2 || g == 4 || g == 8,
    ensures
        a & a == a,
        a & x == a ==> (a & !f) & x == a & !f,
        (a & !f) & f == 0,
        a & g == 0 ==> (a & !f) & g == 0,
        g != f ==> (a & !f) & g == a & g,
{
}

/// `lemma_clear_bit` for each castling bit.
proof fn lemma_clear_step(a: u8, f: u8, x: u8)
    requires
        f == 1 || f == 2 || f == 4 || f == 8,
    ensures
        a & a == a,
        a & x == a ==> without(a, f) & x == without(a, f),
        without(a, f) & f == 0,
        forall|g: u8|
            (g == 1 || g == 2 || g == 4 || g == 8) ==> (a & g == 0 ==> #[trigger] (without(a, f) & g) == 0) && (g
                != f ==> without(a, f) & g == a & g),
{
    lemma_clear_bit(a, f, 1, x);
    lemma_clear_bit(a, f, 2, x);
    lemma_clear_bit(a, f, 4, x);
    lemma_clear_bit(a, f, 8, x);
}

/// A move never gains a castling right. A king move gives up both rights of its side, a rook
/// leaving its corner gives up that wing, and a capture on a corner takes that wing's right away;
/// a move of any other piece that captures nothing keeps the rights as they were, and a king move
/// that captures nothing keeps the other side's rights.
pub proof fn lemma_rights_after(p: Position, m: Move)
    ensures
        ({
            let r = position_after(p, m).castling_rights;
            let c = p.castling_rights;
            let mover = p.squares[m.from as int];
            let capture = has_flag(m.flags, MoveFlags::CAPTURE);
            let plain = capture && !has_flag(m.flags, MoveFlags::EN_PASSENT);
            &&& r & c == r
            &&& mover == Square::WhiteKing ==> !has_flag(r, CastlingRights::WHITEKINGSIDE) && !has_flag(
                r,
                CastlingRights::WHITEQUEENSIDE,
            )
            &&& mover == Square::BlackKing ==> !has_flag(r, CastlingRights::BLACKKINGSIDE) && !has_flag(
                r,
                CastlingRights::BLACKQUEENSIDE,
            )
            &&& mover == Square::WhiteRook && m.from == 7 ==> !has_flag(r, CastlingRights::WHITEKINGSIDE)
            &&& mover == Square::WhiteRook && m.from == 0 ==> !has_flag(r, CastlingRights::WHITEQUEENSIDE)
            &&& mover == Square::BlackRook && m.from == 63 ==> !has_flag(r, CastlingRights::BLACKKINGSIDE)
            &&& mover == Square::BlackRook && m.from == 56 ==> !has_flag(r, CastlingRights::BLACKQUEENSIDE)
            &&& plain && m.to == 7 ==> !has_flag(r, CastlingRights::WHITEKINGSIDE)
            &&& plain && m.to == 0 ==> !has_flag(r, CastlingRights::WHITEQUEENSIDE)
            &&& plain && m.to == 63 ==> !has_flag(r, CastlingRights::BLACKKINGSIDE)
            &&& plain && m.to == 56 ==> !has_flag(r, CastlingRights::BLACKQUEENSIDE)
            &&& !capture && mover != Square::WhiteKing && mover != Square::BlackKing && mover != Square::WhiteRook
                && mover != Square::BlackRook ==> r == c
            &&& !capture && mover == Square::WhiteKing ==> has_flag(r, CastlingRights::BLACKKINGSIDE) == has_flag(
                c,
                CastlingRights::BLACKKINGSIDE,
            ) && has_flag(r, CastlingRights::BLACKQUEENSIDE) == has_flag(c, CastlingRights::BLACKQUEENSIDE)
            &&& !capture && mover == Square::BlackKing ==> has_flag(r, CastlingRights::WHITEKINGSIDE) == has_flag(
                c,
                CastlingRights::WHITEKINGSIDE,
            ) && has_flag(r, CastlingRights::WHITEQUEENSIDE) == has_flag(c, CastlingRights::WHITEQUEENSIDE)
        }),
{
    let c = p.castling_rights;
    let mover = p.squares[m.from as int];
    let from = m.from as int;
    let c1 = rights_after_capture(c, m, mover);
    lemma_clear_step(c, 1, c);
    lemma_clear_step(c, 2, c);
    lemma_clear_step(c, 4, c);
    lemma_clear_step(c, 8, c);
    let w1 = without(c1, 1);
    lemma_clear_step(c1, 1, c);
    lemma_clear_step(w1, 2, c);
    let c2 = if mover == Square::WhiteKing { without(w1, 2) } else { c1 };
    let w3 = without(c2, 4);
    lemma_clear_step(c2, 4, c);
    lemma_clear_step(w3, 8, c);
    let c3 = if mover == Square::BlackKing { without(w3, 8) } else { c2 };
    lemma_clear_step(c3, 1, c);
    lemma_clear_step(c3, 2, c);
    let c4 = if mover == Square::WhiteRook {
        if from == 0 { without(c3, 2) } else if from == 7 { without(c3, 1) } else { c3 }
    } else {
        c3
    };
    lemma_clear_step(c4, 4, c);
    lemma_clear_step(c4, 8, c);
    let r = if mover == Square::BlackRook {
        if from == 56 { without(c4, 8) } else if from == 63 { without(c4, 4) } else { c4 }
    } else {
        c4
    };
    assert(r == rights_after_leaving(c1, from, mover));
    assert(position_after(p, m).castling_rights == r);
    assert(r & 1 == 0 ==> !has_flag(r, 1));
    assert(r & 2 == 0 ==> !has_flag(r, 2));
    assert(r & 4 == 0 ==> !has_flag(r, 4));
    assert(r & 8 == 0 ==> !has_flag(r, 8));
}

/// The record `apply_move` returns.
pub open spec fn record_of(p: Position, m: Move) -> (Move, Square, u8, u64, usize, u64) {
    let mover = p.squares[m.from as int];
    (
        m,
        if has_flag(m.flags, MoveFlags::CAPTURE) {
            p.squares[capture_square(m, mover)]
        } else {
            Square::Empty
        },
        p.castling_rights,
        p.en_passent,
        p.halfmove_clock,
        p.hash,
    )
}

pub open spec fn record_view(h: History) -> (Move, Square, u8, u64, usize, u64) {
    (h.m, h.captured_square, h.castling_rights, h.en_passent, h.halfmove_clock, h.previous_hash)
}

/// Conditions of a castling wing for `apply_move`: the rook stands on its home square and its
/// destination is empty, and the moving piece neither starts nor lands on either square.
pub open spec fn castle_ok(s: Seq<Square>, m: Move, white: bool, kingside: bool) -> bool {
    &&& s[rook_from(white, kingside)] == rook_of(white)
    &&& s[rook_to(white, kingside)] == Square::Empty
    &&& m.from != rook_from(white, kingside) && m.from != rook_to(white, kingside)
    &&& m.to != rook_from(white, kingside) && m.to != rook_to(white, kingside)
}

/// A move `apply_move` can play: both squares on the board, a piece on the start square, an
/// en-passant victim square on the board and apart from the start, castling rooks in place, and
/// the destination free once captures and castling rooks are dealt with.
pub open spec fn apply_ok(p: Position, m: Move) -> bool {
    let s = p.squares;
    let mover = s[m.from as int];
    let white = mover.spec_color() == Some(Color::White);
    let s1 = if has_flag(m.flags, MoveFlags::CAPTURE) {
        s.update(capture_square(m, mover), Square::Empty)
    } else {
        s
    };
    let s2 = castle_rook(s1, m.flags, MoveFlags::CASTLE_KINGSIDE, white, true);
    &&& m.from < 64
    &&& m.to < 64
    &&& m.from != m.to
    &&& mover != Square::Empty
    &&& has_flag(m.flags, MoveFlags::CAPTURE) ==> 0 <= capture_square(m, mover) < 64
        && capture_square(m, mover) != m.from
    &&& has_flag(m.flags, MoveFlags::CASTLE_KINGSIDE) ==> castle_ok(s1, m, white, true)
    &&& has_flag(m.flags, MoveFlags::CASTLE_QUEENSIDE) ==> castle_ok(s2, m, white, false)
    &&& squares_before_landing(s, m)[m.to as int] == Square::Empty
    &&& !(has_flag(m.flags, MoveFlags::CAPTURE) || is_pawn(mover)) ==> p.halfmove_clock < usize::MAX
    &&& p.active_color == Color::Black ==> p.fullmove_number < usize::MAX
}

/// A promoted piece goes back to being a pawn when the flag of its kind is set.
pub open spec fn demoted(p: Square, flags: u8) -> Square {
    match p {
        Square::WhiteQueen => if has_flag(flags, MoveFlags::PROMOTION_QUEEN) { Square::WhitePawn } else { p },
        Square::WhiteRook => if has_flag(flags, MoveFlags::PROMOTION_ROOK) { Square::WhitePawn } else { p },
        Square::WhiteBishop => if has_flag(flags, MoveFlags::PROMOTION_BISHOP) { Square::WhitePawn } else { p },
        Square::WhiteKnight => if has_flag(flags, MoveFlags::PROMOTION_KNIGHT) { Square::WhitePawn } else { p },
        Square::BlackQueen => if has_flag(flags, MoveFlags::PROMOTION_QUEEN) { Square::BlackPawn } else { p },
        Square::BlackRook => if has_flag(flags, MoveFlags::PROMOTION_ROOK) { Square::BlackPawn } else { p },
        Square::BlackBishop => if has_flag(flags, MoveFlags::PROMOTION_BISHOP) { Square::BlackPawn } else { p },
        Square::BlackKnight => if has_flag(flags, MoveFlags::PROMOTION_KNIGHT) { Square::BlackPawn } else { p },
        _ => p,
    }
}

/// Puts the castling rook of a wing back when the flag is set.
pub open spec fn uncastle_rook(s: Seq<Square>, flags: u8, f: u8, white: bool, kingside: bool) -> Seq<Square> {
    if has_flag(flags, f) {
        s.update(rook_to(white, kingside), Square::Empty).update(rook_from(white, kingside), rook_of(white))
    } else {
        s
    }
}

/// The squares once the castling rooks are back and the moved piece (demoted) is on its start
/// square, before a captured piece is restored.
pub open spec fn squares_unmoved(s: Seq<Square>, m: Move) -> Seq<Square> {
    let moving = s[m.to as int];
    let white = moving.spec_color() == Some(Color::White);
    let s1 = uncastle_rook(s, m.flags, MoveFlags::CASTLE_KINGSIDE, white, true);
    let s2 = uncastle_rook(s1, m.flags, MoveFlags::CASTLE_QUEENSIDE, white, false);
    s2.update(m.to as int, Square::Empty).update(m.from as int, demoted(moving, m.flags))
}

/// The position `undo_move` restores from a record `r` of `apply_move`.
pub open spec fn position_undone(p: Position, r: (Move, Square, u8, u64, usize, u64)) -> Position {
    let m = r.0;
    let moving = p.squares[m.to as int];
    let s = squares_unmoved(p.squares, m);
    Position {
        squares: if has_flag(m.flags, MoveFlags::CAPTURE) {
            s.update(capture_square(m, moving), r.1)
        } else {
            s
        },
        active_color: p.active_color.opponent(),
        castling_rights: r.2,
        en_passent: r.3,
        halfmove_clock: r.4,
        fullmove_number: if p.active_color == Color::White {
            (p.fullmove_number - 1) as usize
        } else {
            p.fullmove_number
        },
        hash: r.5,
        path: p.path.drop_last(),
    }
}

/// Conditions of a castling wing for `undo_move`: the rook stands on its destination, its home
/// square is empty, and the move neither starts nor ends on either square.
pub open spec fn uncastle_ok(s: Seq<Square>, m: Move, white: bool, kingside: bool) -> bool {
    &&& s[rook_to(white, kingside)] == rook_of(white)
    &&& s[rook_from(white, kingside)] == Square::Empty
    &&& m.from != rook_from(white, kingside) && m.from != rook_to(white, kingside)
    &&& m.to != rook_from(white, kingside) && m.to != rook_to(white, kingside)
}

/// A record `undo_move` can take back on `p`: a piece on the destination, a path to pop, rooks
/// where castling put them, the start square free again, a captured piece to put back on an
/// empty square of the board, rights that fit in four bits, and a move number to step back.
pub open spec fn undo_ok(p: Position, r: (Move, Square, u8, u64, usize, u64)) -> bool {
    let m = r.0;
    let s = p.squares;
    let moving = s[m.to as int];
    let white = moving.spec_color() == Some(Color::White);
    let s1 = uncastle_rook(s, m.flags, MoveFlags::CASTLE_KINGSIDE, white, true);
    let s2 = uncastle_rook(s1, m.flags, MoveFlags::CASTLE_QUEENSIDE, white, false);
    &&& m.from < 64
    &&& m.to < 64
    &&& m.from != m.to
    &&& moving != Square::Empty
    &&& p.path.len() > 0
    &&& has_flag(m.flags, MoveFlags::CASTLE_KINGSIDE) ==> uncastle_ok(s, m, white, true)
    &&& has_flag(m.flags, MoveFlags::CASTLE_QUEENSIDE) ==> uncastle_ok(s1, m, white, false)
    &&& s2[m.from as int] == Square::Empty
    &&& has_flag(m.flags, MoveFlags::CAPTURE) ==> {
        &&& 0 <= capture_square(m, moving) < 64
        &&& r.1 != Square::Empty
        &&& squares_unmoved(s, m)[capture_square(m, moving)] == Square::Empty
    }
    &&& r.2 < 16
    &&& p.active_color == Color::White ==> p.fullmove_number > 0
}

pub proof fn lemma_without_bound(cr: u8, f: u8)
    ensures
        without(cr, f) <= cr,
{
    assert(cr & !f <= cr) by (bit_vector);
}

impl Chess {
    fn apply_clocks(&mut self, m: &Move, moving_piece: Square)
        requires
            old(self).wf(),
            moving_piece == old(self)@.squares[m.from as int],
            m.from < 64,
            m.to < 64,
            !(has_flag(m.flags, MoveFlags::CAPTURE) || is_pawn(moving_piece)) ==> old(self)@.halfmove_clock < usize::MAX,
        ensures
            final(self).wf(),
            final(self)@ == phase_clocks(old(self)@, *m),
    {
        self.history.push(self.hash);
        let is_pawn = matches!(moving_piece, Square::WhitePawn | Square::BlackPawn);
        self.halfmove_clock = if m.flags.contains(MoveFlags::CAPTURE) || is_pawn {
            0
        } else {
            self.halfmove_clock + 1
        };
        self.hash = self.hash ^ en_passant_hash(get_en_passant_index(self.en_passent));
        self.en_passent = 0;
        if is_pawn {
            if m.from == m.to + 16 || m.to == m.from + 16 {
                self.en_passent = 1u64 << (((m.from + m.to) / 2) as u64);
            }
        }
        self.hash = self.hash ^ en_passant_hash(get_en_passant_index(self.en_passent));
        proof {
            lemma_wf_kept(*old(self), *self);
        }
    }

    fn apply_capture(&mut self, m: &Move, moving_piece: Square) -> (r: (usize, Square))
        requires
            old(self).wf(),
            m.from < 64,
            m.to < 64,
            moving_piece != Square::Empty,
            has_flag(m.flags, MoveFlags::CAPTURE) ==> 0 <= capture_square(*m, moving_piece) < 64,
        ensures
            final(self).wf(),
            final(self)@ == phase_capture(old(self)@, *m, moving_piece),
            has_flag(m.flags, MoveFlags::CAPTURE) ==> r.1 == old(self)@.squares[capture_square(*m, moving_piece)],
    {
        let mut target_sq: usize = m.to;
        let mut captured = Square::Empty;
        if m.flags.contains(MoveFlags::CAPTURE) {
            if m.flags.contains(MoveFlags::EN_PASSENT) {
                target_sq = if moving_piece.color() == Some(Color::White) {
                    m.to - 8
                } else {
                    m.to + 8
                };
            }
            captured = self.squares[target_sq];
            if let Some((c, p)) = square_to_piece_index(captured) {
                self.hash = self.hash ^ piece_hash(c, target_sq, p);
            }
            if target_sq == 0 {
                self.castling_rights = clear_rights(self.castling_rights, CastlingRights::WHITEQUEENSIDE);
            } else if target_sq == 7 {
                self.castling_rights = clear_rights(self.castling_rights, CastlingRights::WHITEKINGSIDE);
            } else if target_sq == 56 {
                self.castling_rights = clear_rights(self.castling_rights, CastlingRights::BLACKQUEENSIDE);
            } else if target_sq == 63 {
                self.castling_rights = clear_rights(self.castling_rights, CastlingRights::BLACKKINGSIDE);
            }
            proof {
                lemma_wf_kept(*old(self), *self);
            }
            self.remove_piece_at(target_sq);
        }
        (target_sq, captured)
    }

    fn apply_castle(&mut self, m: &Move, white: bool, kingside: bool)
        requires
            old(self).wf(),
            has_flag(m.flags, if kingside { MoveFlags::CASTLE_KINGSIDE } else { MoveFlags::CASTLE_QUEENSIDE })
                ==> castle_ok(old(self)@.squares, *m, white, kingside),
        ensures
            final(self).wf(),
            final(self)@ == phase_castle(old(self)@, *m, white, kingside),
    {
        let f = if kingside { MoveFlags::CASTLE_KINGSIDE } else { MoveFlags::CASTLE_QUEENSIDE };
        if m.flags.contains(f) {
            let (c, k): (usize, usize) = if white { (0, 3) } else { (1, 9) };
            let from: usize = if white {
                if kingside { 7 } else { 0 }
            } else {
                if kingside { 63 } else { 56 }
            };
            let to: usize = if white {
                if kingside { 5 } else { 3 }
            } else {
                if kingside { 61 } else { 59 }
            };
            let rook = if white { Square::WhiteRook } else { Square::BlackRook };
            self.hash = self.hash ^ (piece_hash(c, from, k) ^ piece_hash(c, to, k));
            proof {
                lemma_wf_kept(*old(self), *self);
            }
            self.remove_piece_at(from);
            self.add_piece_at(to, rook);
        }
    }

    /// Takes away the castling rights that `piece` leaving square `from` ends: both of its side
    /// for a king, the one of its corner for a rook.
    pub fn update_castling_rights(&mut self, from: usize, piece: Square)
        requires
            old(self).wf(),
        ensures
            final(self).wf(),
            final(self)@ == (Position {
                castling_rights: rights_after_leaving(old(self).castling_rights, from as int, piece),
                ..old(self)@
            }),
            final(self).castling_rights <= old(self).castling_rights,
    {
        let mut cr = self.castling_rights;
        if piece == Square::WhiteKing {
            cr = clear_rights(cr, CastlingRights::WHITEKINGSIDE);
            cr = clear_rights(cr, CastlingRights::WHITEQUEENSIDE);
        }
        if piece == Square::BlackKing {
            cr = clear_rights(cr, CastlingRights::BLACKKINGSIDE);
            cr = clear_rights(cr, CastlingRights::BLACKQUEENSIDE);
        }
        if piece == Square::WhiteRook {
            if from == 0 {
                cr = clear_rights(cr, CastlingRights::WHITEQUEENSIDE);
            } else if from == 7 {
                cr = clear_rights(cr, CastlingRights::WHITEKINGSIDE);
            }
        }
        if piece == Square::BlackRook {
            if from == 56 {
                cr = clear_rights(cr, CastlingRights::BLACKQUEENSIDE);
            } else if from == 63 {
                cr = clear_rights(cr, CastlingRights::BLACKKINGSIDE);
            }
        }
        self.castling_rights = cr;
        proof {
            lemma_wf_kept(*old(self), *self);
        }
    }

    fn apply_rights(&mut self, m: &Move, moving_piece: Square, old_rights: u8)
        requires
            old(self).wf(),
            old_rights < 16,
        ensures
            final(self).wf(),
            final(self)@ == phase_rights(old(self)@, *m, moving_piece, old_rights),
    {
        self.hash = self.hash ^ castling_hash(old_rights as usize);
        proof {
            lemma_wf_kept(*old(self), *self);
        }
        self.update_castling_rights(m.from, moving_piece);
        let ghost mid = *self;
        self.hash = self.hash ^ castling_hash(self.castling_rights as usize);
        proof {
            lemma_wf_kept(mid, *self);
        }
    }

    fn apply_land(&mut self, m: &Move, moving_piece: Square)
        requires
            old(self).wf(),
            m.from < 64,
            m.to < 64,
            m.from != m.to,
            moving_piece != Square::Empty,
            old(self)@.squares[m.from as int] == moving_piece,
            old(self)@.squares.update(m.from as int, Square::Empty)[m.to as int] == Square::Empty,
        ensures
            final(self).wf(),
            final(self)@ == phase_land(old(self)@, *m, moving_piece),
    {
        let result_piece = promote(moving_piece, m.flags);
        if let Some((c, p)) = square_to_piece_index(moving_piece) {
            self.hash = self.hash ^ piece_hash(c, m.from, p);
        }
        proof {
            lemma_wf_kept(*old(self), *self);
        }
        self.remove_piece_at(m.from);
        let ghost mid = *self;
        if let Some((c, p)) = square_to_piece_index(result_piece) {
            self.hash = self.hash ^ piece_hash(c, m.to, p);
        }
        proof {
            lemma_wf_kept(mid, *self);
        }
        self.add_piece_at(m.to, result_piece);
    }

    fn apply_turn(&mut self)
        requires
            old(self).wf(),
            old(self)@.active_color == Color::Black ==> old(self)@.fullmove_number < usize::MAX,
        ensures
            final(self).wf(),
            final(self)@ == phase_turn(old(self)@),
    {
        self.active_color = match self.active_color {
            Color::White => Color::Black,
            Color::Black => {
                self.fullmove_number = self.fullmove_number + 1;
                Color::White
            },
        };
        self.hash = self.hash ^ black_to_move_hash();
        proof {
            lemma_wf_kept(*old(self), *self);
        }
    }

    /// Plays move `m` and returns what is needed to take it back.
    pub fn apply_move(&mut self, m: &Move) -> (history: History)
        requires
            old(self).wf(),
            apply_ok(old(self)@, *m),
        ensures
            final(self).wf(),
            final(self)@ == position_after(old(self)@, *m),
            record_view(history) == record_of(old(self)@, *m),
    {
        let ghost p0 = self@;
        let mut history: History = History::new(*m);
        history.castling_rights = self.castling_rights;
        history.en_passent = self.en_passent;
        history.halfmove_clock = self.halfmove_clock;
        history.previous_hash = self.hash;

        let moving_piece: Square = self.squares[m.from];
        let white = moving_piece.color() == Some(Color::White);
        self.apply_clocks(m, moving_piece);
        let (_t, captured) = self.apply_capture(m, moving_piece);
        if m.flags.contains(MoveFlags::CAPTURE) {
            history.captured_square = captured;
        }
        self.apply_castle(m, white, true);
        self.apply_castle(m, white, false);
        self.apply_rights(m, moving_piece, history.castling_rights);
        self.apply_land(m, moving_piece);
        self.apply_turn();
        history
    }
}

impl Chess {
    fn undo_castle(&mut self, m: &Move, white: bool, kingside: bool)
        requires
            old(self).wf(),
            has_flag(m.flags, if kingside { MoveFlags::CASTLE_KINGSIDE } else { MoveFlags::CASTLE_QUEENSIDE })
                ==> uncastle_ok(old(self)@.squares, *m, white, kingside),
        ensures
            final(self).wf(),
            final(self)@ == (Position {
                squares: uncastle_rook(old(self)@.squares, m.flags,
                    if kingside { MoveFlags::CASTLE_KINGSIDE } else { MoveFlags::CASTLE_QUEENSIDE }, white, kingside),
                ..old(self)@
            }),
    {
        let f = if kingside { MoveFlags::CASTLE_KINGSIDE } else { MoveFlags::CASTLE_QUEENSIDE };
        if m.flags.contains(f) {
            let from: usize = if white {
                if kingside { 7 } else { 0 }
            } else {
                if kingside { 63 } else { 56 }
            };
            let to: usize = if white {
                if kingside { 5 } else { 3 }
            } else {
                if kingside { 61 } else { 59 }
            };
            let rook = if white { Square::WhiteRook } else { Square::BlackRook };
            self.remove_piece_at(to);
            self.add_piece_at(from, rook);
        }
    }

    /// Takes back the move recorded in `history`, the last one played on this board.
    pub fn undo_move(&mut self, history: &History)
        requires
            old(self).wf(),
            undo_ok(old(self)@, record_view(*history)),
        ensures
            final(self).wf(),
            final(self)@ == position_undone(old(self)@, record_view(*history)),
    {
        let m: Move = history.m;
        self.history.pop();
        proof {
            lemma_wf_kept(*old(self), *self);
        }
        let moving_piece: Square = self.squares[m.to];
        let white = moving_piece.color() == Some(Color::White);
        self.undo_castle(&m, white, true);
        self.undo_castle(&m, white, false);
        let demoted_piece = demote(moving_piece, m.flags);
        self.remove_piece_at(m.to);
        self.add_piece_at(m.from, demoted_piece);
        if m.flags.contains(MoveFlags::CAPTURE) {
            let target_sq: usize = if m.flags.contains(MoveFlags::EN_PASSENT) {
                if white {
                    m.to - 8
                } else {
                    m.to + 8
                }
            } else {
                m.to
            };
            self.add_piece_at(target_sq, history.captured_square);
        }
        let ghost before = *self;
        self.castling_rights = history.castling_rights;
        self.en_passent = history.en_passent;
        self.halfmove_clock = history.halfmove_clock;
        self.hash = history.previous_hash;
        self.active_color = match self.active_color {
            Color::White => {
                self.fullmove_number = self.fullmove_number - 1;
                Color::Black
            },
            Color::Black => Color::White,
        };
        proof {
            lemma_wf_kept(before, *self);
        }
    }
}

/// The piece that goes back to the start square: a promoted piece becomes a pawn again.
pub fn demote(moving_piece: Square, flags: u8) -> (r: Square)
    ensures
        r == demoted(moving_piece, flags),
        moving_piece != Square::Empty ==> r != Square::Empty,
{
    match moving_piece {
        Square::WhiteQueen if flags.contains(MoveFlags::PROMOTION_QUEEN) => Square::WhitePawn,
        Square::WhiteRook if flags.contains(MoveFlags::PROMOTION_ROOK) => Square::WhitePawn,
        Square::WhiteBishop if flags.contains(MoveFlags::PROMOTION_BISHOP) => Square::WhitePawn,
        Square::WhiteKnight if flags.contains(MoveFlags::PROMOTION_KNIGHT) => Square::WhitePawn,
        Square::BlackQueen if flags.contains(MoveFlags::PROMOTION_QUEEN) => Square::BlackPawn,
        Square::BlackRook if flags.contains(MoveFlags::PROMOTION_ROOK) => Square::BlackPawn,
        Square::BlackBishop if flags.contains(MoveFlags::PROMOTION_BISHOP) => Square::BlackPawn,
        Square::BlackKnight if flags.contains(MoveFlags::PROMOTION_KNIGHT) => Square::BlackPawn,
        _ => moving_piece,
    }
}

/// The piece that lands, for a pawn with a promotion flag the promoted piece.
pub fn promote(moving_piece: Square, flags: u8) -> (r: Square)
    ensures
        r == promoted(moving_piece, flags),
        moving_piece != Square::Empty ==> r != Square::Empty,
{
    let mut result_piece = moving_piece;
    if moving_piece == Square::WhitePawn {
        if flags.contains(MoveFlags::PROMOTION_QUEEN) {
            result_piece = Square::WhiteQueen;
        } else if flags.contains(MoveFlags::PROMOTION_ROOK) {
            result_piece = Square::WhiteRook;
        } else if flags.contains(MoveFlags::PROMOTION_BISHOP) {
            result_piece = Square::WhiteBishop;
        } else if flags.contains(MoveFlags::PROMOTION_KNIGHT) {
            result_piece = Square::WhiteKnight;
        }
    } else if moving_piece == Square::BlackPawn {
        if flags.contains(MoveFlags::PROMOTION_QUEEN) {
            result_piece = Square::BlackQueen;
        } else if flags.contains(MoveFlags::PROMOTION_ROOK) {
            result_piece = Square::BlackRook;
        } else if flags.contains(MoveFlags::PROMOTION_BISHOP) {
            result_piece = Square::BlackBishop;
        } else if flags.contains(MoveFlags::PROMOTION_KNIGHT) {
            result_piece = Square::BlackKnight;
        }
    }
    result_piece
}

/// Clears the bits of `f` in a castling-rights byte.
fn clear_rights(cr: u8, f: u8) -> (r: u8)
    ensures
        r == without(cr, f),
        r <= cr,
{
    proof {
        lemma_without_bound(cr, f);
    }
    cr & !f
}

} // verus!

verus! {

/// The moves the take-back law speaks of: playable, with a piece to capture when the capture
/// flag is set, and promotion flags only on pawn moves.
pub open spec fn reversible(p: Position, m: Move) -> bool {
    let mover = p.squares[m.from as int];
    &&& apply_ok(p, m)
    &&& has_flag(m.flags, MoveFlags::CAPTURE) ==> p.squares[capture_square(m, mover)] != Square::Empty
    &&& !is_pawn(mover) ==> m.flags < 16
}

proof fn lemma_promotion_round_trip(mover: Square, flags: u8)
    requires
        mover != Square::Empty,
        !is_pawn(mover) ==> flags < 16,
    ensures
        demoted(promoted(mover, flags), flags) == mover,
        promoted(mover, flags).spec_color() == mover.spec_color(),
        promoted(mover, flags) != Square::Empty,
{
    assert(flags < 16 ==> !has_flag(flags, 16u8) && !has_flag(flags, 32u8) && !has_flag(flags, 64u8)
        && !has_flag(flags, 128u8)) by (bit_vector);
}

proof fn lemma_squares_round_trip(p: Position, m: Move)
    requires
        reversible(p, m),
        p.squares.len() == 64,
    ensures
        ({
            let q = position_after(p, m);
            let r = record_of(p, m);
            let moving = q.squares[m.to as int];
            let white = moving.spec_color() == Some(Color::White);
            let s1 = uncastle_rook(q.squares, m.flags, MoveFlags::CASTLE_KINGSIDE, white, true);
            let s2 = uncastle_rook(s1, m.flags, MoveFlags::CASTLE_QUEENSIDE, white, false);
            &&& moving != Square::Empty
            &&& moving.spec_color() == p.squares[m.from as int].spec_color()
            &&& q.squares == squares_after(p.squares, m)
            &&& has_flag(m.flags, MoveFlags::CASTLE_KINGSIDE) ==> uncastle_ok(q.squares, m, white, true)
            &&& has_flag(m.flags, MoveFlags::CASTLE_QUEENSIDE) ==> uncastle_ok(s1, m, white, false)
            &&& s2[m.from as int] == Square::Empty
            &&& has_flag(m.flags, MoveFlags::CAPTURE) ==> squares_unmoved(q.squares, m)[capture_square(m, moving)] == Square::Empty
            &&& position_undone(q, r).squares == p.squares
        }),
{
    let s = p.squares;
    let mover = s[m.from as int];
    let white = mover.spec_color() == Some(Color::White);
    lemma_promotion_round_trip(mover, m.flags);
    let q = position_after(p, m);
    let c = capture_square(m, mover);
    let s1 = if has_flag(m.flags, MoveFlags::CAPTURE) { s.update(c, Square::Empty) } else { s };
    let s2 = castle_rook(s1, m.flags, MoveFlags::CASTLE_KINGSIDE, white, true);
    let s3 = castle_rook(s2, m.flags, MoveFlags::CASTLE_QUEENSIDE, white, false);
    let landed = promoted(mover, m.flags);
    assert(q.squares =~= s3.update(m.from as int, Square::Empty).update(m.to as int, landed));
    assert(q.squares =~= squares_after(s, m));
    let t = q.squares;
    assert(t[m.to as int] == landed);
    let u1 = uncastle_rook(t, m.flags, MoveFlags::CASTLE_KINGSIDE, white, true);
    let u2 = uncastle_rook(u1, m.flags, MoveFlags::CASTLE_QUEENSIDE, white, false);
    let u3 = u2.update(m.to as int, Square::Empty).update(m.from as int, mover);
    assert(u2 =~= s1.update(m.from as int, Square::Empty).update(m.to as int, landed)
        .update(m.from as int, Square::Empty));
    assert(u3 =~= s1.update(m.to as int, Square::Empty).update(m.from as int, mover));
    assert(squares_unmoved(t, m) == u3);
    if has_flag(m.flags, MoveFlags::CAPTURE) {
        assert(u3.update(c, s[c]) =~= s);
    } else {
        assert(u3 =~= s);
    }
}

/// Taking back a move restores the position it was played from: `undo_move` with the record
/// that `apply_move` returned gives back the squares, side to move, castling rights,
/// en-passant square, clocks, hash and path, for every playable move that captures a piece
/// when it says so and promotes only pawns.
pub proof fn lemma_undo_inverts_apply(p: Position, m: Move)
    requires
        reversible(p, m),
        p.squares.len() == 64,
        p.castling_rights < 16,
    ensures
        undo_ok(position_after(p, m), record_of(p, m)),
        position_undone(position_after(p, m), record_of(p, m)) == p,
{
    lemma_squares_round_trip(p, m);
    let q = position_after(p, m);
    let r = position_undone(q, record_of(p, m));
    assert(q.path =~= p.path.push(p.hash));
    assert(r.path =~= p.path);
    assert(r.squares =~= p.squares);
}

} // verus!

verus! {

/// Key of the side to move: Black's key, or nothing for White.
spec fn side_key(c: Color) -> u64 {
    if c == Color::Black {
        black_to_move_key()
    } else {
        0u64
    }
}

/// The hash of `q` is the key of its squares, of castling rights `cr`, of its en-passant file
/// and of its side to move.
spec fn keyed(q: Position, cr: u8) -> bool {
    q.hash == squares_key(q.squares, 64) ^ castling_key(cr as int) ^ en_passant_key(
        en_passant_index(q.en_passent),
    ) ^ side_key(q.active_color)
}

proof fn lemma_clocks_keyed(p: Position, m: Move, cr: u8)
    requires
        keyed(p, cr),
    ensures
        keyed(phase_clocks(p, m), cr),
{
    let q = phase_clocks(p, m);
    let h = p.hash;
    let s = squares_key(p.squares, 64);
    let c = castling_key(cr as int);
    let e = en_passant_key(en_passant_index(p.en_passent));
    let e2 = en_passant_key(en_passant_index(q.en_passent));
    let b = side_key(p.active_color);
    assert((h ^ e) ^ e2 == ((s ^ c) ^ e2) ^ b) by (bit_vector)
        requires
            h == ((s ^ c) ^ e) ^ b,
    ;
}

/// Taking the occupant of square `t` off changes the hash by its key.
proof fn lemma_remove_keyed(q: Position, t: int, h2: u64, cr: u8)
    requires
        keyed(q, cr),
        q.squares.len() == 64,
        0 <= t < 64,
        h2 == xor_if(q.hash, q.squares[t] != Square::Empty, square_key(t, q.squares[t])),
    ensures
        keyed(Position { squares: q.squares.update(t, Square::Empty), hash: h2, ..q }, cr),
{
    lemma_squares_key_update(q.squares, t, Square::Empty, 64);
    let h = q.hash;
    let s = squares_key(q.squares, 64);
    let s2 = squares_key(q.squares.update(t, Square::Empty), 64);
    let k = square_key(t, q.squares[t]);
    let z = square_key(t, Square::Empty);
    let c = castling_key(cr as int);
    let e = en_passant_key(en_passant_index(q.en_passent));
    let b = side_key(q.active_color);
    assert(z == 0);
    if q.squares[t] != Square::Empty {
        assert(h ^ k == ((s2 ^ c) ^ e) ^ b) by (bit_vector)
            requires
                h == ((s ^ c) ^ e) ^ b,
                s2 == (s ^ k) ^ z,
                z == 0,
        ;
    } else {
        assert(k == 0);
        assert(h == ((s2 ^ c) ^ e) ^ b) by (bit_vector)
            requires
                h == ((s ^ c) ^ e) ^ b,
                s2 == (s ^ k) ^ z,
                z == 0,
                k == 0,
        ;
    }
}

/// Putting piece `x` on the empty square `t` changes the hash by its key.
proof fn lemma_add_keyed(q: Position, t: int, x: Square, cr: u8)
    requires
        keyed(q, cr),
        q.squares.len() == 64,
        0 <= t < 64,
        q.squares[t] == Square::Empty,
    ensures
        keyed(Position { squares: q.squares.update(t, x), hash: q.hash ^ square_key(t, x), ..q }, cr),
{
    lemma_squares_key_update(q.squares, t, x, 64);
    let h = q.hash;
    let s = squares_key(q.squares, 64);
    let s2 = squares_key(q.squares.update(t, x), 64);
    let k = square_key(t, x);
    let z = square_key(t, Square::Empty);
    let c = castling_key(cr as int);
    let e = en_passant_key(en_passant_index(q.en_passent));
    let b = side_key(q.active_color);
    assert(z == 0);
    assert(h ^ k == ((s2 ^ c) ^ e) ^ b) by (bit_vector)
        requires
            h == ((s ^ c) ^ e) ^ b,
            s2 == (s ^ z) ^ k,
            z == 0,
    ;
}

proof fn lemma_castle_keyed(p: Position, m: Move, white: bool, kingside: bool, cr: u8)
    requires
        keyed(p, cr),
        p.squares.len() == 64,
        has_flag(m.flags, if kingside { MoveFlags::CASTLE_KINGSIDE } else { MoveFlags::CASTLE_QUEENSIDE })
            ==> castle_ok(p.squares, m, white, kingside),
    ensures
        keyed(phase_castle(p, m, white, kingside), cr),
{
    let f = if kingside { MoveFlags::CASTLE_KINGSIDE } else { MoveFlags::CASTLE_QUEENSIDE };
    if has_flag(m.flags, f) {
        let from = rook_from(white, kingside);
        let to = rook_to(white, kingside);
        let rook = rook_of(white);
        let k1 = square_key(from, rook);
        let k2 = square_key(to, rook);
        let h = p.hash;
        let q1 = Position { squares: p.squares.update(from, Square::Empty), hash: h ^ k1, ..p };
        lemma_remove_keyed(p, from, h ^ k1, cr);
        lemma_add_keyed(q1, to, rook, cr);
        assert(rook_keys(white, kingside) == k1 ^ k2);
        assert((h ^ k1) ^ k2 == h ^ (k1 ^ k2)) by (bit_vector);
        assert(phase_castle(p, m, white, kingside).squares =~= q1.squares.update(to, rook));
    }
}

proof fn lemma_rights_keyed(p: Position, m: Move, mover: Square, old_rights: u8)
    requires
        keyed(p, old_rights),
    ensures
        keyed(phase_rights(p, m, mover, old_rights), phase_rights(p, m, mover, old_rights).castling_rights),
{
    let q = phase_rights(p, m, mover, old_rights);
    let h = p.hash;
    let s = squares_key(p.squares, 64);
    let c = castling_key(old_rights as int);
    let c2 = castling_key(q.castling_rights as int);
    let e = en_passant_key(en_passant_index(p.en_passent));
    let b = side_key(p.active_color);
    assert((h ^ c) ^ c2 == ((s ^ c2) ^ e) ^ b) by (bit_vector)
        requires
            h == ((s ^ c) ^ e) ^ b,
    ;
}

proof fn lemma_turn_keyed(p: Position, cr: u8)
    requires
        keyed(p, cr),
    ensures
        keyed(phase_turn(p), cr),
{
    let h = p.hash;
    let s = squares_key(p.squares, 64);
    let c = castling_key(cr as int);
    let e = en_passant_key(en_passant_index(p.en_passent));
    let k = black_to_move_key();
    if p.active_color == Color::Black {
        assert(h ^ k == ((s ^ c) ^ e) ^ 0u64) by (bit_vector)
            requires
                h == ((s ^ c) ^ e) ^ k,
        ;
    } else {
        assert(h ^ k == ((s ^ c) ^ e) ^ k) by (bit_vector)
            requires
                h == ((s ^ c) ^ e) ^ 0u64,
        ;
    }
}

/// Playing a move keeps the hash equal to the hash computed from scratch: if the position's
/// hash is its Zobrist key before `apply_move`, it is the key of the new position after it.
pub proof fn lemma_apply_keeps_hash(p: Position, m: Move)
    requires
        apply_ok(p, m),
        p.squares.len() == 64,
        p.hash == position_key(p),
    ensures
        position_after(p, m).hash == position_key(position_after(p, m)),
{
    let mover = p.squares[m.from as int];
    let white = mover.spec_color() == Some(Color::White);
    let cr = p.castling_rights;
    let p1 = phase_clocks(p, m);
    let p2 = phase_capture(p1, m, mover);
    let p3 = phase_castle(p2, m, white, true);
    let p4 = phase_castle(p3, m, white, false);
    let p5 = phase_rights(p4, m, mover, cr);
    let p6 = phase_land(p5, m, mover);
    let p7 = phase_turn(p6);
    assert(keyed(p, cr));
    lemma_clocks_keyed(p, m, cr);
    if has_flag(m.flags, MoveFlags::CAPTURE) {
        let t = capture_square(m, mover);
        lemma_remove_keyed(p1, t, p2.hash, cr);
        assert(p2.squares == p1.squares.update(t, Square::Empty));
    }
    assert(keyed(p2, cr));
    lemma_castle_keyed(p2, m, white, true, cr);
    lemma_castle_keyed(p3, m, white, false, cr);
    lemma_rights_keyed(p4, m, mover, cr);
    let landed = promoted(mover, m.flags);
    let h5 = p5.hash;
    let k1 = square_key(m.from as int, mover);
    let k2 = square_key(m.to as int, landed);
    assert(p5.squares[m.from as int] == mover);
    let q = Position { squares: p5.squares.update(m.from as int, Square::Empty), hash: h5 ^ k1, ..p5 };
    lemma_remove_keyed(p5, m.from as int, h5 ^ k1, p5.castling_rights);
    assert(q.squares =~= squares_before_landing(p.squares, m));
    lemma_add_keyed(q, m.to as int, landed, p5.castling_rights);
    assert(p6 == Position { squares: q.squares.update(m.to as int, landed), hash: q.hash ^ k2, ..q });
    lemma_turn_keyed(p6, p5.castling_rights);
}

} // verus!

verus! {

pub open spec fn occupied_fn(s: Seq<Square>) -> spec_fn(int) -> bool {
    |i: int| s[i] != Square::Empty
}

/// The number of pieces on the board.
pub open spec fn piece_count(s: Seq<Square>) -> int {
    count_where(occupied_fn(s))
}

proof fn lemma_count_update(s: Seq<Square>, k: int, x: Square, n: int)
    requires
        0 <= k < s.len(),
        0 <= n <= s.len(),
    ensures
        sum_to(indicator(occupied_fn(s.update(k, x))), n) == sum_to(indicator(occupied_fn(s)), n) - (if k < n
            && s[k] != Square::Empty { 1int } else { 0int }) + (if k < n && x != Square::Empty { 1int } else { 0int }),
    decreases n,
{
    if n > 0 {
        lemma_count_update(s, k, x, n - 1);
    }
}

/// A capture takes one piece off the board.
pub proof fn lemma_capture_reduces(p: Position, m: Move)
    requires
        reversible(p, m),
        p.squares.len() == 64,
        has_flag(m.flags, MoveFlags::CAPTURE),
        !has_flag(m.flags, MoveFlags::CASTLE_KINGSIDE),
        !has_flag(m.flags, MoveFlags::CASTLE_QUEENSIDE),
    ensures
        piece_count(position_after(p, m).squares) == piece_count(p.squares) - 1,
{
    let s = p.squares;
    let mover = s[m.from as int];
    let c = capture_square(m, mover);
    let s1 = s.update(c, Square::Empty);
    let s2 = s1.update(m.from as int, Square::Empty);
    let landed = promoted(mover, m.flags);
    lemma_promotion_round_trip(mover, m.flags);
    assert(s1 == squares_before_landing(s, m).update(m.from as int, s1[m.from as int])) by {
        assert(squares_before_landing(s, m) =~= s2);
        assert(s2.update(m.from as int, s1[m.from as int]) =~= s1);
    }
    lemma_count_update(s, c, Square::Empty, 64);
    lemma_count_update(s1, m.from as int, Square::Empty, 64);
    lemma_count_update(s2, m.to as int, landed, 64);
    assert(position_after(p, m).squares =~= s2.update(m.to as int, landed));
}

} // verus!
