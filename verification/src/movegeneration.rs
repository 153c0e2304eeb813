//! Move generation: the moves of each piece kind, pawn pushes and captures, en passant and
//! castling, and the legal moves among them.
use vstd::prelude::*;
use crate::apply_undo_move::{Move, MoveFlags, has_flag, reversible, apply_ok, capture_square, castle_ok, squares_before_landing,
    position_after, lemma_undo_inverts_apply};
use crate::bits::{holds, lowest, lemma_bits_ext, lemma_has_and, lemma_has_and_not, lemma_has_or, lemma_clear_lowest, lemma_lowest,
    lemma_has_single, lemma_has_zero, lemma_nonzero};
use crate::castling_rights::CastlingRights;
use crate::chess::{Chess, lemma_side_occ};
use crate::checks::{king_square, square_attacked, rook_piece_of, king_of, knight_of, bishop_of, queen_of, pawn_of,
    lemma_king_square, lemma_occupancy_below, in_check};
use crate::color::Color;
use crate::square::Square;
use crate::apply_undo_move::Flags;
use crate::movelist::{MoveList, lemma_sorted_keys};
use crate::moves::geometry::{row_of, col_of, knight_reach, king_reach, straight_reach, diagonal_reach, pawn_attack_reach};
use crate::moves::king::king_moves;
use crate::moves::pawn::{pawn_push_1, pawn_push_2, pawn_attacks, push1_reach, push2_reach};
use crate::moves::knight::knight_moves;
use crate::moves::ray::{diagonal_attacks, straight_attacks};
use crate::utils::{BitBoard, bit_scan};

verus! {

/// The square lies on the last rank for a pawn of the side to move.
pub open spec fn promotion_square(active: Color, to: int) -> bool {
    if active == Color::White {
        to >= 56
    } else {
        to < 8
    }
}

/// Flags of a move onto a square: the capture flag when it captures, and for a promotion one of
/// the four promotion flags besides.
pub open spec fn flags_for(f: u8, capture: bool, promotion: bool) -> bool {
    let base: int = if capture { MoveFlags::CAPTURE as int } else { 0 };
    if promotion {
        f == base + MoveFlags::PROMOTION_QUEEN || f == base + MoveFlags::PROMOTION_ROOK || f == base
            + MoveFlags::PROMOTION_BISHOP || f == base + MoveFlags::PROMOTION_KNIGHT
    } else {
        f == base
    }
}

/// A move from `from` onto one of `targets`, capturing when the target holds an enemy piece.
pub open spec fn emitted(from: int, targets: u64, enemy_occ: u64, pawn: bool, active: Color, m: Move) -> bool {
    &&& m.from == from
    &&& holds(targets, m.to as int)
    &&& flags_for(m.flags, holds(enemy_occ, m.to as int), pawn && promotion_square(active, m.to as int))
}

/// `s` extends `t`: it starts with the moves of `t`.
pub open spec fn extends(s: Seq<Move>, t: Seq<Move>) -> bool {
    s.len() >= t.len() && s.subrange(0, t.len() as int) == t
}

proof fn lemma_push_no_dup(s: Seq<Move>, x: Move)
    requires
        s.no_duplicates(),
        !s.contains(x),
    ensures
        s.push(x).no_duplicates(),
{
    assert forall|i: int, j: int| 0 <= i < j < s.push(x).len() implies s.push(x)[i] != s.push(x)[j] by {
        if j == s.len() {
            assert(s.contains(s[i]));
        }
    }
}

proof fn lemma_push_contains(s: Seq<Move>, x: Move, m: Move)
    ensures
        s.push(x).contains(m) <==> s.contains(m) || m == x,
{
    if s.push(x).contains(m) {
        let k = choose|k: int| 0 <= k < s.push(x).len() && s.push(x)[k] == m;
        if k < s.len() {
            assert(s[k] == m);
        }
    }
    if s.contains(m) {
        let k = choose|k: int| 0 <= k < s.len() && s[k] == m;
        assert(s.push(x)[k] == m);
    }
    if m == x {
        assert(s.push(x)[s.len() as int] == m);
    }
}

/// The move of a piece from `from` to `to`, flagged as a capture when `capture`.
pub open spec fn target_move(from: int, to: int, capture: bool) -> Move {
    Move { from: from as usize, to: to as usize, flags: if capture { MoveFlags::CAPTURE } else { 0u8 } }
}

/// The squares of a bitboard, lowest first.
pub open spec fn set_bits(b: u64) -> Seq<int>
    decreases b,
{
    if b == 0 {
        Seq::empty()
    } else {
        proof {
            lemma_clear_lowest(b);
        }
        seq![lowest(b)] + set_bits(b & ((b - 1) as u64))
    }
}

/// The moves from `from` to each square of `targets`, lowest first, a capture where the square
/// holds an enemy piece.
pub open spec fn target_moves(from: int, targets: u64, enemy_occ: u64) -> Seq<Move> {
    set_bits(targets).map_values(|to: int| target_move(from, to, holds(enemy_occ, to)))
}

/// Pushes `m`, keeping the list free of duplicates when `m` is new.
fn push_new(moves: &mut MoveList, m: Move)
    ensures
        final(moves)@ == old(moves)@.push(m),
        old(moves)@.no_duplicates() && !old(moves)@.contains(m) ==> final(moves)@.no_duplicates(),
{
    proof {
        if old(moves)@.no_duplicates() && !old(moves)@.contains(m) {
            lemma_push_no_dup(old(moves)@, m);
        }
    }
    moves.push(m);
}

/// Pushes the move from `from` to `to`: one move, or one per promotion piece when a pawn
/// reaches the last rank.
fn push_pawn_move(moves: &mut MoveList, from: usize, to: usize, active_color: Color, capture: bool, pawn: bool)
    requires
        to < 64,
    ensures
        extends(final(moves)@, old(moves)@),
        forall|m: Move| #[trigger] final(moves)@.contains(m) <==> old(moves)@.contains(m) || (m.from == from
            && m.to == to && flags_for(m.flags, capture, pawn && promotion_square(active_color, to as int))),
        forall|i: int| old(moves)@.len() <= i < final(moves)@.len() ==> (#[trigger] final(moves)@[i]).from == from
            && final(moves)@[i].to == to,
        old(moves)@.no_duplicates() && (forall|i: int| 0 <= i < old(moves)@.len() ==> (#[trigger] old(moves)@[i]).from != from
            || old(moves)@[i].to != to) ==> final(moves)@.no_duplicates(),
        !pawn ==> final(moves)@ == old(moves)@.push(target_move(from as int, to as int, capture)),
{
    let is_promotion = pawn && match active_color {
        Color::White => to >= 56,
        Color::Black => to < 8,
    };
    let base_flags: u8 = if capture { MoveFlags::CAPTURE } else { MoveFlags::empty() };
    let ghost s0 = moves@;
    if is_promotion {
        push_new(moves, Move { from, to, flags: base_flags + MoveFlags::PROMOTION_QUEEN });
        let ghost s1 = moves@;
        push_new(moves, Move { from, to, flags: base_flags + MoveFlags::PROMOTION_ROOK });
        let ghost s2 = moves@;
        push_new(moves, Move { from, to, flags: base_flags + MoveFlags::PROMOTION_BISHOP });
        push_new(moves, Move { from, to, flags: base_flags + MoveFlags::PROMOTION_KNIGHT });
        proof {
            assert(moves@.subrange(0, s0.len() as int) =~= s0);
            assert forall|m: Move| #[trigger] moves@.contains(m) <==> s0.contains(m) || (m.from == from
                && m.to == to && flags_for(m.flags, capture, pawn && promotion_square(active_color, to as int))) by {
                if moves@.contains(m) {
                    let k = choose|k: int| 0 <= k < moves@.len() && moves@[k] == m;
                    if k < s0.len() {
                        assert(s0[k] == m);
                    }
                }
                if m.from == from && m.to == to && flags_for(m.flags, capture, pawn && promotion_square(active_color, to as int)) {
                    if m.flags == base_flags + MoveFlags::PROMOTION_QUEEN {
                        assert(moves@[s0.len() as int] == m);
                    } else if m.flags == base_flags + MoveFlags::PROMOTION_ROOK {
                        assert(moves@[s0.len() + 1int] == m);
                    } else if m.flags == base_flags + MoveFlags::PROMOTION_BISHOP {
                        assert(moves@[s0.len() + 2int] == m);
                    } else {
                        assert(moves@[s0.len() + 3int] == m);
                    }
                }
                if s0.contains(m) {
                    let k = choose|k: int| 0 <= k < s0.len() && s0[k] == m;
                    assert(moves@[k] == m);
                }
            }
        }
    } else {
        push_new(moves, Move { from, to, flags: base_flags });
        proof {
            assert(moves@.subrange(0, s0.len() as int) =~= s0);
            assert forall|m: Move| #[trigger] moves@.contains(m) <==> s0.contains(m) || (m.from == from
                && m.to == to && flags_for(m.flags, capture, pawn && promotion_square(active_color, to as int))) by {
                if moves@.contains(m) {
                    let k = choose|k: int| 0 <= k < moves@.len() && moves@[k] == m;
                    if k < s0.len() {
                        assert(s0[k] == m);
                    }
                }
                if m.from == from && m.to == to && flags_for(m.flags, capture, pawn && promotion_square(active_color, to as int)) {
                    assert(moves@[s0.len() as int] == m);
                }
                if s0.contains(m) {
                    let k = choose|k: int| 0 <= k < s0.len() && s0[k] == m;
                    assert(moves@[k] == m);
                }
            }
        }
    }
}

} // verus!

verus! {

/// The flag bits of the flag bytes that move generation produces.
pub proof fn lemma_flag_table()
    by (bit_vector)
    ensures
        (0u8 & 1u8 == 1u8) == false,
        (0u8 & 2u8 == 2u8) == false,
        (0u8 & 4u8 == 4u8) == false,
        (0u8 & 8u8 == 8u8) == false,
        (0u8 & 16u8 == 16u8) == false,
        (0u8 & 32u8 == 32u8) == false,
        (0u8 & 64u8 == 64u8) == false,
        (0u8 & 128u8 == 128u8) == false,
        (1u8 & 1u8 == 1u8) == true,
        (1u8 & 2u8 == 2u8) == false,
        (1u8 & 4u8 == 4u8) == false,
        (1u8 & 8u8 == 8u8) == false,
        (1u8 & 16u8 == 16u8) == false,
        (1u8 & 32u8 == 32u8) == false,
        (1u8 & 64u8 == 64u8) == false,
        (1u8 & 128u8 == 128u8) == false,
        (3u8 & 1u8 == 1u8) == true,
        (3u8 & 2u8 == 2u8) == true,
        (3u8 & 4u8 == 4u8) == false,
        (3u8 & 8u8 == 8u8) == false,
        (3u8 & 16u8 == 16u8) == false,
        (3u8 & 32u8 == 32u8) == false,
        (3u8 & 64u8 == 64u8) == false,
        (3u8 & 128u8 == 128u8) == false,
        (4u8 & 1u8 == 1u8) == false,
        (4u8 & 2u8 == 2u8) == false,
        (4u8 & 4u8 == 4u8) == true,
        (4u8 & 8u8 == 8u8) == false,
        (4u8 & 16u8 == 16u8) == false,
        (4u8 & 32u8 == 32u8) == false,
        (4u8 & 64u8 == 64u8) == false,
        (4u8 & 128u8 == 128u8) == false,
        (8u8 & 1u8 == 1u8) == false,
        (8u8 & 2u8 == 2u8) == false,
        (8u8 & 4u8 == 4u8) == false,
        (8u8 & 8u8 == 8u8) == true,
        (8u8 & 16u8 == 16u8) == false,
        (8u8 & 32u8 == 32u8) == false,
        (8u8 & 64u8 == 64u8) == false,
        (8u8 & 128u8 == 128u8) == false,
        (16u8 & 1u8 == 1u8) == false,
        (16u8 & 2u8 == 2u8) == false,
        (16u8 & 4u8 == 4u8) == false,
        (16u8 & 8u8 == 8u8) == false,
        (16u8 & 16u8 == 16u8) == true,
        (16u8 & 32u8 == 32u8) == false,
        (16u8 & 64u8 == 64u8) == false,
        (16u8 & 128u8 == 128u8) == false,
        (17u8 & 1u8 == 1u8) == true,
        (17u8 & 2u8 == 2u8) == false,
        (17u8 & 4u8 == 4u8) == false,
        (17u8 & 8u8 == 8u8) == false,
        (17u8 & 16u8 == 16u8) == true,
        (17u8 & 32u8 == 32u8) == false,
        (17u8 & 64u8 == 64u8) == false,
        (17u8 & 128u8 == 128u8) == false,
        (32u8 & 1u8 == 1u8) == false,
        (32u8 & 2u8 == 2u8) == false,
        (32u8 & 4u8 == 4u8) == false,
        (32u8 & 8u8 == 8u8) == false,
        (32u8 & 16u8 == 16u8) == false,
        (32u8 & 32u8 == 32u8) == true,
        (32u8 & 64u8 == 64u8) == false,
        (32u8 & 128u8 == 128u8) == false,
        (33u8 & 1u8 == 1u8) == true,
        (33u8 & 2u8 == 2u8) == false,
        (33u8 & 4u8 == 4u8) == false,
        (33u8 & 8u8 == 8u8) == false,
        (33u8 & 16u8 == 16u8) == false,
        (33u8 & 32u8 == 32u8) == true,
        (33u8 & 64u8 == 64u8) == false,
        (33u8 & 128u8 == 128u8) == false,
        (64u8 & 1u8 == 1u8) == false,
        (64u8 & 2u8 == 2u8) == false,
        (64u8 & 4u8 == 4u8) == false,
        (64u8 & 8u8 == 8u8) == false,
        (64u8 & 16u8 == 16u8) == false,
        (64u8 & 32u8 == 32u8) == false,
        (64u8 & 64u8 == 64u8) == true,
        (64u8 & 128u8 == 128u8) == false,
        (65u8 & 1u8 == 1u8) == true,
        (65u8 & 2u8 == 2u8) == false,
        (65u8 & 4u8 == 4u8) == false,
        (65u8 & 8u8 == 8u8) == false,
        (65u8 & 16u8 == 16u8) == false,
        (65u8 & 32u8 == 32u8) == false,
        (65u8 & 64u8 == 64u8) == true,
        (65u8 & 128u8 == 128u8) == false,
        (128u8 & 1u8 == 1u8) == false,
        (128u8 & 2u8 == 2u8) == false,
        (128u8 & 4u8 == 4u8) == false,
        (128u8 & 8u8 == 8u8) == false,
        (128u8 & 16u8 == 16u8) == false,
        (128u8 & 32u8 == 32u8) == false,
        (128u8 & 64u8 == 64u8) == false,
        (128u8 & 128u8 == 128u8) == true,
        (129u8 & 1u8 == 1u8) == true,
        (129u8 & 2u8 == 2u8) == false,
        (129u8 & 4u8 == 4u8) == false,
        (129u8 & 8u8 == 8u8) == false,
        (129u8 & 16u8 == 16u8) == false,
        (129u8 & 32u8 == 32u8) == false,
        (129u8 & 64u8 == 64u8) == false,
        (129u8 & 128u8 == 128u8) == true,
{
}

} // verus!

verus! {

/// The square `to` is set in `enemy_occ`.
fn is_set(bb: BitBoard, to: usize) -> (r: bool)
    requires
        to < 64,
    ensures
        r == holds(bb, to as int),
{
    let bit: u64 = 1u64 << (to as u64);
    proof {
        lemma_has_single(to as u64);
        lemma_has_and(bb, bit);
        lemma_nonzero(bb & bit);
        assert(holds(bb & bit, to as int) == holds(bb, to as int));
    }
    (bb & bit) != 0
}

/// Pushes a move from `from` to each square of `targets`: a capture where the square holds an
/// enemy piece, and for a pawn reaching the last rank one move per promotion piece.
fn emit_targets(moves: &mut MoveList, from: usize, targets: BitBoard, enemy_occ: BitBoard, pawn: bool, active_color: Color)
    ensures
        extends(final(moves)@, old(moves)@),
        forall|m: Move| #[trigger] final(moves)@.contains(m) <==> old(moves)@.contains(m) || emitted(from as int, targets, enemy_occ, pawn, active_color, m),
        forall|i: int| old(moves)@.len() <= i < final(moves)@.len() ==> (#[trigger] final(moves)@[i]).from == from
            && holds(targets, final(moves)@[i].to as int),
        old(moves)@.no_duplicates() && (forall|i: int| 0 <= i < old(moves)@.len() ==> (#[trigger] old(moves)@[i]).from != from
            || !holds(targets, old(moves)@[i].to as int)) ==> final(moves)@.no_duplicates(),
        !pawn ==> final(moves)@ == old(moves)@ + target_moves(from as int, targets, enemy_occ),
{
    let ghost s0 = moves@;
    let ghost ok0 = s0.no_duplicates() && (forall|i: int| 0 <= i < s0.len() ==> (#[trigger] s0[i]).from != from
        || !holds(targets, s0[i].to as int));
    let mut t = targets;
    assert(s0.subrange(0, s0.len() as int) =~= s0);
    while t != 0
        invariant
            extends(moves@, s0),
            forall|m: Move| #[trigger] moves@.contains(m) <==> s0.contains(m) || (emitted(from as int, targets, enemy_occ, pawn, active_color, m)
                && !holds(t, m.to as int)),
            forall|i: int| #[trigger] holds(t, i) ==> holds(targets, i),
            forall|i: int| s0.len() <= i < moves@.len() ==> (#[trigger] moves@[i]).from == from && !holds(t, moves@[i].to as int)
                && holds(targets, moves@[i].to as int),
            ok0 == (s0.no_duplicates() && (forall|i: int| 0 <= i < s0.len() ==> (#[trigger] s0[i]).from != from
                || !holds(targets, s0[i].to as int))),
            ok0 ==> moves@.no_duplicates(),
            !pawn ==> s0 + target_moves(from as int, targets, enemy_occ) == moves@ + target_moves(from as int, t, enemy_occ),
        decreases t,
    {
        let to = bit_scan(t);
        proof {
            lemma_lowest(t);
            lemma_clear_lowest(t);
        }
        let capture = is_set(enemy_occ, to);
        let ghost before = moves@;
        proof {
            if ok0 {
                assert forall|i: int| 0 <= i < before.len() implies (#[trigger] before[i]).from != from || before[i].to != to by {
                    if i < s0.len() {
                        assert(before.subrange(0, s0.len() as int)[i] == before[i]);
                    }
                }
            }
        }
        let ghost t_old = t;
        push_pawn_move(moves, from, to, active_color, capture, pawn);
        t = t & (t - 1);
        proof {
            if !pawn {
                assert(set_bits(t_old) == seq![to as int] + set_bits(t));
                assert(target_moves(from as int, t_old, enemy_occ) =~= seq![target_move(from as int, to as int, capture)]
                    + target_moves(from as int, t, enemy_occ));
                assert(before + target_moves(from as int, t_old, enemy_occ) =~= moves@ + target_moves(from as int, t, enemy_occ));
            }
        }
        proof {
            assert(moves@.subrange(0, s0.len() as int) =~= s0) by {
                assert(moves@.subrange(0, before.len() as int) == before);
                assert(before.subrange(0, s0.len() as int) == s0);
            }
            assert forall|m: Move| #[trigger] moves@.contains(m) <==> s0.contains(m) || (emitted(from as int, targets, enemy_occ, pawn, active_color, m)
                && !holds(t, m.to as int)) by {
                if before.contains(m) {
                }
            }
            assert forall|i: int| s0.len() <= i < moves@.len() implies (#[trigger] moves@[i]).from == from && !holds(t, moves@[i].to as int)
                && holds(targets, moves@[i].to as int) by {
                if i < before.len() {
                    assert(moves@.subrange(0, before.len() as int)[i] == moves@[i]);
                }
            }
        }
    }
    proof {
        lemma_has_zero();
    }
}

} // verus!

verus! {

/// How a piece kind attacks.
#[derive(Debug, Clone, Copy, PartialEq, Eq, Structural)]
pub enum Attack {
    Knight,
    Bishop,
    Rook,
    Queen,
    King,
}

/// A piece of kind `kind` on `from` attacks `t` over occupancy `occ`.
pub open spec fn attack_reach(kind: Attack, from: int, occ: u64, t: int) -> bool {
    match kind {
        Attack::Knight => knight_reach(row_of(from), col_of(from), t),
        Attack::Bishop => diagonal_reach(from, occ, t),
        Attack::Rook => straight_reach(from, occ, t),
        Attack::Queen => straight_reach(from, occ, t) || diagonal_reach(from, occ, t),
        Attack::King => king_reach(row_of(from), col_of(from), t),
    }
}

/// The squares a piece of kind `kind` on `sq` attacks.
pub fn attacks_from(kind: Attack, sq: usize, occ: BitBoard) -> (r: BitBoard)
    requires
        sq < 64,
    ensures
        forall|t: int| #[trigger] holds(r, t) == attack_reach(kind, sq as int, occ, t),
{
    match kind {
        Attack::Knight => knight_moves(sq),
        Attack::Bishop => diagonal_attacks(sq, occ),
        Attack::Rook => straight_attacks(sq, occ),
        Attack::Queen => {
            let a = straight_attacks(sq, occ);
            let b = diagonal_attacks(sq, occ);
            proof {
                lemma_has_or(a, b);
            }
            a | b
        },
        Attack::King => king_moves(sq),
    }
}

/// A move of a piece of `pieces` to a square it attacks that holds no piece of its own side,
/// capturing when the square holds an enemy piece.
pub open spec fn piece_move(pieces: u64, own_occ: u64, enemy_occ: u64, kind: Attack, occ: u64, m: Move) -> bool {
    &&& holds(pieces, m.from as int)
    &&& attack_reach(kind, m.from as int, occ, m.to as int)
    &&& !holds(own_occ, m.to as int)
    &&& m.flags == if holds(enemy_occ, m.to as int) { MoveFlags::CAPTURE } else { 0u8 }
}

/// The squares a piece of kind `kind` on `from` attacks over occupancy `occ`.
pub open spec fn attack_set(kind: Attack, from: int, occ: u64) -> u64 {
    choose|b: u64| #[trigger] attacks_exactly(b, kind, from, occ)
}

/// `b` holds exactly the squares a piece of kind `kind` on `from` attacks over `occ`.
pub open spec fn attacks_exactly(b: u64, kind: Attack, from: int, occ: u64) -> bool {
    forall|t: int| #[trigger] holds(b, t) == attack_reach(kind, from, occ, t)
}

/// The moves of the pieces of `pieces`, lowest square first, each to the squares it attacks
/// that hold no piece of its own side, lowest first.
pub open spec fn piece_moves(pieces: u64, own_occ: u64, enemy_occ: u64, kind: Attack, occ: u64) -> Seq<Move>
    decreases pieces,
{
    if pieces == 0 {
        Seq::empty()
    } else {
        proof {
            lemma_clear_lowest(pieces);
        }
        let from = lowest(pieces);
        target_moves(from, attack_set(kind, from, occ) & !own_occ, enemy_occ) + piece_moves(
            pieces & ((pieces - 1) as u64),
            own_occ,
            enemy_occ,
            kind,
            occ,
        )
    }
}

/// Adds the moves of every piece of `pieces`, which attack as `kind` does over `occ`.
pub fn generate_moves_for_piece_type(
    pieces: BitBoard,
    own_occ: BitBoard,
    enemy_occ: BitBoard,
    kind: Attack,
    occ: BitBoard,
    moves: &mut MoveList,
)
    ensures
        extends(final(moves)@, old(moves)@),
        forall|m: Move| #[trigger] final(moves)@.contains(m) <==> old(moves)@.contains(m) || piece_move(pieces, own_occ, enemy_occ, kind, occ, m),
        forall|i: int| old(moves)@.len() <= i < final(moves)@.len() ==> holds(pieces, (#[trigger] final(moves)@[i]).from as int),
        old(moves)@.no_duplicates() && (forall|i: int| 0 <= i < old(moves)@.len() ==> !holds(pieces, (#[trigger] old(moves)@[i]).from as int))
            ==> final(moves)@.no_duplicates(),
        final(moves)@ == old(moves)@ + piece_moves(pieces, own_occ, enemy_occ, kind, occ),
{
    let ghost s0 = moves@;
    let ghost ok0 = s0.no_duplicates() && (forall|i: int| 0 <= i < s0.len() ==> !holds(pieces, (#[trigger] s0[i]).from as int));
    let mut rem = pieces;
    assert(s0.subrange(0, s0.len() as int) =~= s0);
    while rem != 0
        invariant
            extends(moves@, s0),
            forall|i: int| #[trigger] holds(rem, i) ==> holds(pieces, i),
            forall|m: Move| #[trigger] moves@.contains(m) <==> s0.contains(m) || (piece_move(pieces, own_occ, enemy_occ, kind, occ, m)
                && !holds(rem, m.from as int)),
            forall|i: int| s0.len() <= i < moves@.len() ==> holds(pieces, (#[trigger] moves@[i]).from as int)
                && !holds(rem, moves@[i].from as int),
            ok0 == (s0.no_duplicates() && (forall|i: int| 0 <= i < s0.len() ==> !holds(pieces, (#[trigger] s0[i]).from as int))),
            ok0 ==> moves@.no_duplicates(),
            s0 + piece_moves(pieces, own_occ, enemy_occ, kind, occ) == moves@ + piece_moves(rem, own_occ, enemy_occ, kind, occ),
        decreases rem,
    {
        let ghost rem_old = rem;
        let from: usize = bit_scan(rem);
        proof {
            lemma_lowest(rem);
            lemma_clear_lowest(rem);
        }
        let att = attacks_from(kind, from, occ);
        let targets: BitBoard = att & !own_occ;
        proof {
            lemma_has_and_not(att, own_occ);
        }
        let ghost before = moves@;
        proof {
            if ok0 {
                assert forall|i: int| 0 <= i < before.len() implies (#[trigger] before[i]).from != from by {
                    if i < s0.len() {
                        assert(before.subrange(0, s0.len() as int)[i] == before[i]);
                        assert(!holds(pieces, s0[i].from as int));
                    }
                }
            }
        }
        proof {
            assert(attacks_exactly(att, kind, from as int, occ));
            let b = attack_set(kind, from as int, occ);
            assert(attacks_exactly(b, kind, from as int, occ));
            lemma_bits_ext(b, att);
        }
        emit_targets(moves, from, targets, enemy_occ, false, Color::White);
        rem = rem & (rem - 1);
        proof {
            assert(piece_moves(rem_old, own_occ, enemy_occ, kind, occ) == target_moves(from as int, targets, enemy_occ)
                + piece_moves(rem, own_occ, enemy_occ, kind, occ));
            assert(before + piece_moves(rem_old, own_occ, enemy_occ, kind, occ) =~= moves@ + piece_moves(rem, own_occ, enemy_occ, kind, occ));
        }
        proof {
            lemma_flag_table();
            assert(moves@.subrange(0, s0.len() as int) =~= s0) by {
                assert(moves@.subrange(0, before.len() as int) == before);
                assert(before.subrange(0, s0.len() as int) == s0);
            }
            assert forall|m: Move| #[trigger] moves@.contains(m) <==> s0.contains(m) || (piece_move(pieces, own_occ, enemy_occ, kind, occ, m)
                && !holds(rem, m.from as int)) by {
                if before.contains(m) {
                }
            }
            assert forall|i: int| s0.len() <= i < moves@.len() implies holds(pieces, (#[trigger] moves@[i]).from as int)
                && !holds(rem, moves@[i].from as int) by {
                if i < before.len() {
                    assert(moves@.subrange(0, before.len() as int)[i] == moves@[i]);
                }
            }
        }
    }
    proof {
        lemma_has_zero();
    }
}

} // verus!

verus! {

/// A pawn move of a pawn of `pawns`, the side to move being `active`: a push onto an empty
/// square, a double push from the starting rank over an empty square onto an empty square, or
/// a capture of an enemy piece; a push or capture onto the last rank promotes.
pub open spec fn pawn_move(pawns: u64, own_occ: u64, enemy_occ: u64, active: Color, m: Move) -> bool {
    let white = active == Color::White;
    let all = own_occ | enemy_occ;
    let from = m.from as int;
    let to = m.to as int;
    let r = row_of(from);
    let c = col_of(from);
    &&& holds(pawns, from)
    &&& {
        ||| push1_reach(r, c, white, to) && !holds(all, to) && flags_for(m.flags, false, promotion_square(active, to))
        ||| push2_reach(r, c, white, to) && !holds(all, if white { from + 8 } else { from - 8 }) && !holds(all, to)
            && m.flags == 0
        ||| pawn_attack_reach(r, c, white, to) && holds(enemy_occ, to) && flags_for(m.flags, true, promotion_square(active, to))
    }
}

/// Adds the pushes, double pushes and captures of every pawn of `pawns`.
fn generate_pawn_moves(pawns: BitBoard, own_occ: BitBoard, enemy_occ: BitBoard, active_color: Color, moves: &mut MoveList)
    ensures
        extends(final(moves)@, old(moves)@),
        forall|m: Move| #[trigger] final(moves)@.contains(m) <==> old(moves)@.contains(m) || pawn_move(pawns, own_occ, enemy_occ, active_color, m),
        forall|i: int| old(moves)@.len() <= i < final(moves)@.len() ==> holds(pawns, (#[trigger] final(moves)@[i]).from as int),
        old(moves)@.no_duplicates() && (forall|i: int| 0 <= i < old(moves)@.len() ==> !holds(pawns, (#[trigger] old(moves)@[i]).from as int))
            ==> final(moves)@.no_duplicates(),
{
    let ghost s0 = moves@;
    let ghost ok0 = s0.no_duplicates() && (forall|i: int| 0 <= i < s0.len() ==> !holds(pawns, (#[trigger] s0[i]).from as int));
    let all_occ = own_occ | enemy_occ;
    let white = match active_color {
        Color::White => true,
        Color::Black => false,
    };
    proof {
        lemma_has_or(own_occ, enemy_occ);
    }
    let mut remaining = pawns;
    assert(s0.subrange(0, s0.len() as int) =~= s0);
    while remaining != 0
        invariant
            all_occ == own_occ | enemy_occ,
            white == (active_color == Color::White),
            forall|i: int| #[trigger] holds(all_occ, i) == (holds(own_occ, i) || holds(enemy_occ, i)),
            extends(moves@, s0),
            forall|i: int| #[trigger] holds(remaining, i) ==> holds(pawns, i),
            forall|m: Move| #[trigger] moves@.contains(m) <==> s0.contains(m) || (pawn_move(pawns, own_occ, enemy_occ, active_color, m)
                && !holds(remaining, m.from as int)),
            forall|i: int| s0.len() <= i < moves@.len() ==> holds(pawns, (#[trigger] moves@[i]).from as int)
                && !holds(remaining, moves@[i].from as int),
            ok0 == (s0.no_duplicates() && (forall|i: int| 0 <= i < s0.len() ==> !holds(pawns, (#[trigger] s0[i]).from as int))),
            ok0 ==> moves@.no_duplicates(),
        decreases remaining,
    {
        let from: usize = bit_scan(remaining);
        proof {
            lemma_lowest(remaining);
            lemma_clear_lowest(remaining);
        }
        let ghost before = moves@;
        proof {
            if ok0 {
                assert forall|i: int| 0 <= i < before.len() implies (#[trigger] before[i]).from != from by {
                    if i < s0.len() {
                        assert(before.subrange(0, s0.len() as int)[i] == before[i]);
                        assert(!holds(pawns, s0[i].from as int));
                    }
                }
            }
        }
        let push1 = pawn_push_1(from, white);
        let single_pushes: BitBoard = push1 & !all_occ;
        proof {
            lemma_has_and_not(push1, all_occ);
        }
        emit_targets(moves, from, single_pushes, enemy_occ, true, active_color);
        let ghost after_single = moves@;
        let double_pushes = pawn_push_2(from, white);
        let ghost mut dbl: Option<Move> = None;
        let ghost mid: int = if white { from + 8 } else { from - 8 };
        if double_pushes != 0 {
            let to: usize = bit_scan(double_pushes);
            proof {
                lemma_lowest(double_pushes);
                assert(push2_reach(row_of(from as int), col_of(from as int), white, to as int));
            }
            let intermediate: usize = if white { from + 8 } else { from - 8 };
            if !is_set(all_occ, intermediate) && !is_set(all_occ, to) {
                let m = Move { from, to, flags: MoveFlags::empty() };
                proof {
                    dbl = Some(m);
                    if ok0 {
                        assert(!after_single.contains(m)) by {
                            if after_single.contains(m) {
                                let k = choose|k: int| 0 <= k < after_single.len() && after_single[k] == m;
                                if k < before.len() {
                                    assert(after_single.subrange(0, before.len() as int)[k] == after_single[k]);
                                } else {
                                    assert(holds(single_pushes, to as int));
                                }
                            }
                        }
                    }
                }
                push_new(moves, m);
            }
            proof {
                assert forall|m2: Move| m2.from == from implies (#[trigger] push2_reach(row_of(from as int), col_of(from as int), white, m2.to as int)
                    && !holds(all_occ, mid) && !holds(all_occ, m2.to as int) && m2.flags == 0) == (dbl == Some(m2)) by {
                    if push2_reach(row_of(from as int), col_of(from as int), white, m2.to as int) {
                        assert(m2.to == to);
                    }
                }
            }
        } else {
            proof {
                lemma_has_zero();
                assert forall|m2: Move| m2.from == from implies (#[trigger] push2_reach(row_of(from as int), col_of(from as int), white, m2.to as int)
                    && !holds(all_occ, mid) && !holds(all_occ, m2.to as int) && m2.flags == 0) == (dbl == Some(m2)) by {
                    assert(!holds(double_pushes, m2.to as int));
                }
            }
        }
        proof {
            if dbl is Some {
                assert(moves@ == after_single.push(dbl->0));
                assert(!holds(all_occ, dbl->0.to as int));
                assert forall|m2: Move| #[trigger] moves@.contains(m2) <==> after_single.contains(m2) || dbl == Some(m2) by {
                    lemma_push_contains(after_single, dbl->0, m2);
                }
            } else {
                assert(moves@ == after_single);
            }
        }
        let ghost after_double = moves@;
        let att = pawn_attacks(from, white);
        let captures: BitBoard = att & enemy_occ;
        proof {
            lemma_has_and(att, enemy_occ);
            if ok0 {
                assert forall|i: int| 0 <= i < after_double.len() implies (#[trigger] after_double[i]).from != from
                    || !holds(captures, after_double[i].to as int) by {
                    if i < before.len() {
                        assert(after_single.subrange(0, before.len() as int)[i] == after_single[i]);
                    }
                    if i < after_single.len() {
                        assert(after_double[i] == after_single[i]);
                    }
                }
            }
        }
        emit_targets(moves, from, captures, enemy_occ, true, active_color);
        remaining = remaining & (remaining - 1);
        proof {
            lemma_flag_table();
            assert(moves@.subrange(0, s0.len() as int) =~= s0) by {
                assert(moves@.subrange(0, after_double.len() as int) == after_double);
                assert(after_double.subrange(0, after_single.len() as int) == after_single);
                assert(after_single.subrange(0, before.len() as int) == before);
                assert(before.subrange(0, s0.len() as int) == s0);
            }
            assert forall|m: Move| #[trigger] moves@.contains(m) <==> s0.contains(m) || (pawn_move(pawns, own_occ, enemy_occ, active_color, m)
                && !holds(remaining, m.from as int)) by {
                assert(moves@.contains(m) <==> after_double.contains(m) || emitted(from as int, captures, enemy_occ, true, active_color, m));
                assert(after_double.contains(m) <==> after_single.contains(m) || dbl == Some(m));
                assert(after_single.contains(m) <==> before.contains(m) || emitted(from as int, single_pushes, enemy_occ, true, active_color, m));
                if m.from == from {
                    assert(push2_reach(row_of(from as int), col_of(from as int), white, m.to as int)
                        && !holds(all_occ, mid) && !holds(all_occ, m.to as int) && m.flags == 0
                        <==> dbl == Some(m));
                }
            }
            assert forall|i: int| s0.len() <= i < moves@.len() implies holds(pawns, (#[trigger] moves@[i]).from as int)
                && !holds(remaining, moves@[i].from as int) by {
                if i < after_double.len() {
                    assert(moves@.subrange(0, after_double.len() as int)[i] == moves@[i]);
                    if i < after_single.len() {
                        assert(after_double[i] == after_single[i]);
                        if i < before.len() {
                            assert(after_single.subrange(0, before.len() as int)[i] == after_single[i]);
                        }
                    }
                }
            }
        }
    }
    proof {
        lemma_has_zero();
    }
}

} // verus!

verus! {

/// The square behind the en-passant square, where the pawn that a side's pawn takes stands.
pub open spec fn ep_behind(to: int, white_mover: bool) -> int {
    if white_mover {
        to - 8
    } else {
        to + 8
    }
}

/// An en-passant capture by a pawn of `pawns` (of side `mover`) onto the en-passant square,
/// which lies empty in front of an enemy pawn; the pawn attacks it in the direction of the side
/// to move.
pub open spec fn ep_move(pawns: u64, ep: u64, enemy_pawns: u64, occ: u64, active: Color, mover: Color, m: Move) -> bool {
    let to = lowest(ep);
    let behind = ep_behind(to, mover == Color::White);
    &&& ep != 0
    &&& m.to == to
    &&& holds(pawns, m.from as int)
    &&& pawn_attack_reach(row_of(m.from as int), col_of(m.from as int), active == Color::White, to)
    &&& m.flags == MoveFlags::EN_PASSENT + MoveFlags::CAPTURE
    &&& 0 <= behind < 64
    &&& holds(enemy_pawns, behind)
    &&& !holds(occ, to)
}

/// Adds the en-passant captures of the pawns of `pawns`.
fn generate_en_passent_moves(
    pawns: BitBoard,
    en_passent: BitBoard,
    enemy_pawns: BitBoard,
    all_occ: BitBoard,
    active_color: Color,
    mover_color: Color,
    moves: &mut MoveList,
)
    ensures
        extends(final(moves)@, old(moves)@),
        forall|m: Move| #[trigger] final(moves)@.contains(m) <==> old(moves)@.contains(m) || ep_move(pawns, en_passent, enemy_pawns,
            all_occ, active_color, mover_color, m),
        forall|i: int| old(moves)@.len() <= i < final(moves)@.len() ==> holds(pawns, (#[trigger] final(moves)@[i]).from as int)
            && final(moves)@[i].flags == MoveFlags::EN_PASSENT + MoveFlags::CAPTURE,
        old(moves)@.no_duplicates() && (forall|i: int| 0 <= i < old(moves)@.len() ==> !(holds(pawns, (#[trigger] old(moves)@[i]).from as int)
            && old(moves)@[i].flags == MoveFlags::EN_PASSENT + MoveFlags::CAPTURE)) ==> final(moves)@.no_duplicates(),
{
    let ghost s0 = moves@;
    assert(s0.subrange(0, s0.len() as int) =~= s0);
    if en_passent == 0 {
        return;
    }
    let ep_square: usize = bit_scan(en_passent);
    proof {
        lemma_lowest(en_passent);
    }
    let behind_ok = match mover_color {
        Color::White => ep_square >= 8 && is_set(enemy_pawns, ep_square - 8),
        Color::Black => ep_square < 56 && is_set(enemy_pawns, ep_square + 8),
    };
    if !behind_ok || is_set(all_occ, ep_square) {
        return;
    }
    let white = match active_color {
        Color::White => true,
        Color::Black => false,
    };
    let ghost ok0 = s0.no_duplicates() && (forall|i: int| 0 <= i < s0.len() ==> !(holds(pawns, (#[trigger] s0[i]).from as int)
        && s0[i].flags == MoveFlags::EN_PASSENT + MoveFlags::CAPTURE));
    let mut rem = pawns;
    while rem != 0
        invariant
            ep_square == lowest(en_passent),
            en_passent != 0,
            ep_square < 64,
            white == (active_color == Color::White),
            0 <= ep_behind(ep_square as int, mover_color == Color::White) < 64,
            holds(enemy_pawns, ep_behind(ep_square as int, mover_color == Color::White)),
            !holds(all_occ, ep_square as int),
            extends(moves@, s0),
            forall|i: int| #[trigger] holds(rem, i) ==> holds(pawns, i),
            forall|m: Move| #[trigger] moves@.contains(m) <==> s0.contains(m) || (ep_move(pawns, en_passent, enemy_pawns, all_occ,
                active_color, mover_color, m) && !holds(rem, m.from as int)),
            forall|i: int| s0.len() <= i < moves@.len() ==> holds(pawns, (#[trigger] moves@[i]).from as int)
                && !holds(rem, moves@[i].from as int) && moves@[i].flags == MoveFlags::EN_PASSENT + MoveFlags::CAPTURE,
            ok0 == (s0.no_duplicates() && (forall|i: int| 0 <= i < s0.len() ==> !(holds(pawns, (#[trigger] s0[i]).from as int)
                && s0[i].flags == MoveFlags::EN_PASSENT + MoveFlags::CAPTURE))),
            ok0 ==> moves@.no_duplicates(),
        decreases rem,
    {
        let from: usize = bit_scan(rem);
        proof {
            lemma_lowest(rem);
            lemma_clear_lowest(rem);
        }
        let attacks = pawn_attacks(from, white);
        let ghost before = moves@;
        if is_set(attacks, ep_square) {
            let m = Move { from, to: ep_square, flags: MoveFlags::EN_PASSENT + MoveFlags::CAPTURE };
            proof {
                if ok0 {
                    assert(!before.contains(m)) by {
                        if before.contains(m) {
                            let k = choose|k: int| 0 <= k < before.len() && before[k] == m;
                            if k < s0.len() {
                                assert(before.subrange(0, s0.len() as int)[k] == before[k]);
                            }
                        }
                    }
                }
            }
            push_new(moves, m);
            proof {
                assert forall|m2: Move| #[trigger] moves@.contains(m2) <==> before.contains(m2) || m2 == m by {
                    lemma_push_contains(before, m, m2);
                }
            }
        }
        rem = rem & (rem - 1);
        proof {
            assert(moves@.subrange(0, s0.len() as int) =~= s0) by {
                assert(moves@.subrange(0, before.len() as int) == before);
                assert(before.subrange(0, s0.len() as int) == s0);
            }
            assert forall|i: int| s0.len() <= i < moves@.len() implies holds(pawns, (#[trigger] moves@[i]).from as int)
                && !holds(rem, moves@[i].from as int) && moves@[i].flags == MoveFlags::EN_PASSENT + MoveFlags::CAPTURE by {
                if i < before.len() {
                    assert(moves@.subrange(0, before.len() as int)[i] == moves@[i]);
                }
            }
        }
    }
    proof {
        lemma_has_zero();
    }
}

} // verus!

verus! {

/// A castling move of the side to move: both kings on the board, the king on its home square
/// and not attacked, the right still held, the rook on its corner, the squares between them
/// empty, and the squares the king crosses and lands on not attacked.
pub open spec fn castle_move(b: Chess, m: Move) -> bool {
    let s = b.squares@;
    let c = b.active_color;
    let e = c.opponent();
    let white = c == Color::White;
    let home: int = if white { 4 } else { 60 };
    &&& b.white_king != 0 && b.black_king != 0
    &&& king_square(s, c, home)
    &&& !square_attacked(s, home, e)
    &&& m.from == home
    &&& {
        ||| m.to == home + 2 && m.flags == MoveFlags::CASTLE_KINGSIDE && has_flag(
            b.castling_rights,
            if white { CastlingRights::WHITEKINGSIDE } else { CastlingRights::BLACKKINGSIDE },
        ) && s[home + 3] == rook_piece_of(c) && s[home + 1] == Square::Empty && s[home + 2] == Square::Empty
            && !square_attacked(s, home + 1, e) && !square_attacked(s, home + 2, e)
        ||| m.to == home - 2 && m.flags == MoveFlags::CASTLE_QUEENSIDE && has_flag(
            b.castling_rights,
            if white { CastlingRights::WHITEQUEENSIDE } else { CastlingRights::BLACKQUEENSIDE },
        ) && s[home - 4] == rook_piece_of(c) && s[home - 1] == Square::Empty && s[home - 2] == Square::Empty
            && s[home - 3] == Square::Empty && !square_attacked(s, home - 1, e) && !square_attacked(s, home - 2, e)
    }
}

/// Adds the castling moves of the side to move.
fn generate_castling_moves(chess: &Chess, moves: &mut MoveList)
    requires
        chess.wf(),
    ensures
        extends(final(moves)@, old(moves)@),
        forall|m: Move| #[trigger] final(moves)@.contains(m) <==> old(moves)@.contains(m) || castle_move(*chess, m),
        forall|i: int| old(moves)@.len() <= i < final(moves)@.len() ==> (#[trigger] final(moves)@[i]).flags == MoveFlags::CASTLE_KINGSIDE
            || final(moves)@[i].flags == MoveFlags::CASTLE_QUEENSIDE,
        old(moves)@.no_duplicates() && (forall|i: int| 0 <= i < old(moves)@.len() ==> (#[trigger] old(moves)@[i]).flags != MoveFlags::CASTLE_KINGSIDE
            && old(moves)@[i].flags != MoveFlags::CASTLE_QUEENSIDE) ==> final(moves)@.no_duplicates(),
{
    let ghost s0 = moves@;
    assert(s0.subrange(0, s0.len() as int) =~= s0);
    if chess.white_king == 0 || chess.black_king == 0 {
        return;
    }
    let white = match chess.active_color {
        Color::White => true,
        Color::Black => false,
    };
    let (king_sq, enemy_color) = match chess.active_color {
        Color::White => (bit_scan(chess.white_king), Color::Black),
        Color::Black => (bit_scan(chess.black_king), Color::White),
    };
    proof {
        assert(chess.bitboard_of(king_of(chess.active_color)) != 0);
        lemma_king_square(*chess, chess.active_color);
    }
    if chess.is_square_attacked_by_color(king_sq, enemy_color) {
        return;
    }
    let home: usize = if white { 4 } else { 60 };
    if king_sq != home {
        return;
    }
    let all_occ = chess.occupancy();
    proof {
        lemma_occupancy_below(chess.squares@, 64);
    }
    let (ks_right, qs_right) = if white {
        (CastlingRights::WHITEKINGSIDE, CastlingRights::WHITEQUEENSIDE)
    } else {
        (CastlingRights::BLACKKINGSIDE, CastlingRights::BLACKQUEENSIDE)
    };
    let rook = if white { Square::WhiteRook } else { Square::BlackRook };
    let ghost mut ks: Option<Move> = None;
    let ghost mut qs: Option<Move> = None;
    if chess.castling_rights.contains(ks_right) && chess.squares[home + 3] == rook {
        if !is_set(all_occ, home + 1) && !is_set(all_occ, home + 2) {
            if !chess.is_square_attacked_by_color(home + 1, enemy_color)
                && !chess.is_square_attacked_by_color(home + 2, enemy_color) {
                let m = Move { from: home, to: home + 2, flags: MoveFlags::CASTLE_KINGSIDE };
                proof {
                    ks = Some(m);
                    if s0.no_duplicates() && (forall|i: int| 0 <= i < s0.len() ==> (#[trigger] s0[i]).flags != MoveFlags::CASTLE_KINGSIDE
                        && s0[i].flags != MoveFlags::CASTLE_QUEENSIDE) {
                        if s0.contains(m) {
                            let k = choose|k: int| 0 <= k < s0.len() && s0[k] == m;
                            assert(s0[k].flags != MoveFlags::CASTLE_KINGSIDE);
                        }
                    }
                }
                push_new(moves, m);
            }
        }
    }
    let ghost mid = moves@;
    proof {
        assert forall|m2: Move| #[trigger] mid.contains(m2) <==> s0.contains(m2) || ks == Some(m2) by {
            if ks is Some {
                lemma_push_contains(s0, ks->0, m2);
            }
        }
    }
    if chess.castling_rights.contains(qs_right) && chess.squares[home - 4] == rook {
        if !is_set(all_occ, home - 1) && !is_set(all_occ, home - 2) && !is_set(all_occ, home - 3) {
            if !chess.is_square_attacked_by_color(home - 2, enemy_color)
                && !chess.is_square_attacked_by_color(home - 1, enemy_color) {
                let m = Move { from: home, to: home - 2, flags: MoveFlags::CASTLE_QUEENSIDE };
                proof {
                    qs = Some(m);
                    if s0.no_duplicates() && (forall|i: int| 0 <= i < s0.len() ==> (#[trigger] s0[i]).flags != MoveFlags::CASTLE_KINGSIDE
                        && s0[i].flags != MoveFlags::CASTLE_QUEENSIDE) {
                        if mid.contains(m) {
                            let k = choose|k: int| 0 <= k < mid.len() && mid[k] == m;
                            if k < s0.len() {
                                assert(mid.subrange(0, s0.len() as int)[k] == mid[k]);
                                assert(s0[k].flags != MoveFlags::CASTLE_QUEENSIDE);
                            }
                        }
                    }
                }
                push_new(moves, m);
            }
        }
    }
    proof {
        assert forall|m2: Move| #[trigger] moves@.contains(m2) <==> mid.contains(m2) || qs == Some(m2) by {
            if qs is Some {
                lemma_push_contains(mid, qs->0, m2);
            }
        }
        lemma_flag_table();
        assert(moves@.subrange(0, s0.len() as int) =~= s0) by {
            assert(moves@.subrange(0, mid.len() as int) == mid);
            assert(mid.subrange(0, s0.len() as int) == s0);
        }
        assert forall|m2: Move| #[trigger] moves@.contains(m2) <==> s0.contains(m2) || castle_move(*chess, m2) by {
        }
        assert forall|i: int| s0.len() <= i < moves@.len() implies (#[trigger] moves@[i]).flags == MoveFlags::CASTLE_KINGSIDE
            || moves@[i].flags == MoveFlags::CASTLE_QUEENSIDE by {
            if i < mid.len() {
                assert(moves@.subrange(0, mid.len() as int)[i] == moves@[i]);
            }
        }
    }
}

} // verus!

verus! {

/// A pseudo-legal move of side `c` (one that may leave its own king in check): none once the
/// halfmove clock reaches 100, else a move of a knight, bishop, rook, queen or king, a pawn
/// move, an en-passant capture, or a castling move of the side to move.
pub open spec fn pseudo_move(b: Chess, c: Color, m: Move) -> bool {
    let own = b.side_occ(c);
    let enemy = b.side_occ(c.opponent());
    let occ = own | enemy;
    &&& b.halfmove_clock < 100
    &&& {
        ||| piece_move(b.bitboard_of(knight_of(c)), own, enemy, Attack::Knight, occ, m)
        ||| piece_move(b.bitboard_of(bishop_of(c)), own, enemy, Attack::Bishop, occ, m)
        ||| piece_move(b.bitboard_of(rook_piece_of(c)), own, enemy, Attack::Rook, occ, m)
        ||| piece_move(b.bitboard_of(queen_of(c)), own, enemy, Attack::Queen, occ, m)
        ||| piece_move(b.bitboard_of(king_of(c)), own, enemy, Attack::King, occ, m)
        ||| pawn_move(b.bitboard_of(pawn_of(c)), own, enemy, b.active_color, m)
        ||| ep_move(b.bitboard_of(pawn_of(c)), b.en_passent, b.bitboard_of(pawn_of(c.opponent())), occ, b.active_color, c, m)
        ||| castle_move(b, m)
    }
}

proof fn lemma_flags_for_values(f: u8, capture: bool, promotion: bool)
    requires
        flags_for(f, capture, promotion),
    ensures
        f != MoveFlags::EN_PASSENT + MoveFlags::CAPTURE,
        f != MoveFlags::CASTLE_KINGSIDE,
        f != MoveFlags::CASTLE_QUEENSIDE,
{
}

impl Chess {
    /// Adds the pseudo-legal moves of side `color` to `moves`.
    #[verifier::rlimit(60)]
    pub fn generate_pseudolegal_moves_into(&self, color: Color, moves: &mut MoveList)
        requires
            self.wf(),
        ensures
            extends(final(moves)@, old(moves)@),
            forall|m: Move| #[trigger] final(moves)@.contains(m) <==> old(moves)@.contains(m) || pseudo_move(*self, color, m),
            old(moves)@.len() == 0 ==> final(moves)@.no_duplicates(),
    {
        let ghost s0 = moves@;
        assert(s0.subrange(0, s0.len() as int) =~= s0);
        if self.halfmove_clock >= 100 {
            return;
        }
        let (rooks, knights, bishops, queens, king, pawns, enemy_pawns, own_occ, enemy_occ) = match color {
            Color::White => (
                self.white_rooks,
                self.white_knights,
                self.white_bishops,
                self.white_queens,
                self.white_king,
                self.white_pawns,
                self.black_pawns,
                self.white_occupancy(),
                self.black_occupancy(),
            ),
            Color::Black => (
                self.black_rooks,
                self.black_knights,
                self.black_bishops,
                self.black_queens,
                self.black_king,
                self.black_pawns,
                self.white_pawns,
                self.black_occupancy(),
                self.white_occupancy(),
            ),
        };
        let all_occ: BitBoard = own_occ | enemy_occ;
        let ghost s = self.squares@;
        proof {
            assert(knights == self.bitboard_of(knight_of(color)));
            assert(bishops == self.bitboard_of(bishop_of(color)));
            assert(rooks == self.bitboard_of(rook_piece_of(color)));
            assert(queens == self.bitboard_of(queen_of(color)));
            assert(king == self.bitboard_of(king_of(color)));
            assert(pawns == self.bitboard_of(pawn_of(color)));
            assert(enemy_pawns == self.bitboard_of(pawn_of(color.opponent())));
            assert(own_occ == self.side_occ(color));
            assert(enemy_occ == self.side_occ(color.opponent()));
            lemma_flag_table();
        }
        let ghost fresh = s0.len() == 0;
        generate_moves_for_piece_type(knights, own_occ, enemy_occ, Attack::Knight, all_occ, moves);
        let ghost l1 = moves@;
        proof {
            if fresh {
                assert forall|i: int| 0 <= i < l1.len() implies !holds(bishops, (#[trigger] l1[i]).from as int) by {
                    assert(l1.contains(l1[i]));
                    assert(s[l1[i].from as int] == knight_of(color));
                }
            }
        }
        generate_moves_for_piece_type(bishops, own_occ, enemy_occ, Attack::Bishop, all_occ, moves);
        let ghost l2 = moves@;
        proof {
            if fresh {
                assert forall|i: int| 0 <= i < l2.len() implies !holds(rooks, (#[trigger] l2[i]).from as int) by {
                    assert(l2.contains(l2[i]));
                    assert(l1.contains(l2[i]) ==> s[l2[i].from as int] == knight_of(color));
                }
            }
        }
        generate_moves_for_piece_type(rooks, own_occ, enemy_occ, Attack::Rook, all_occ, moves);
        let ghost l3 = moves@;
        proof {
            if fresh {
                assert forall|i: int| 0 <= i < l3.len() implies !holds(queens, (#[trigger] l3[i]).from as int) by {
                    assert(l3.contains(l3[i]));
                    assert(l2.contains(l3[i]) ==> l1.contains(l3[i]) || holds(bishops, l3[i].from as int));
                }
            }
        }
        generate_moves_for_piece_type(queens, own_occ, enemy_occ, Attack::Queen, all_occ, moves);
        let ghost l4 = moves@;
        proof {
            if fresh {
                assert forall|i: int| 0 <= i < l4.len() implies !holds(king, (#[trigger] l4[i]).from as int) by {
                    assert(l4.contains(l4[i]));
                    assert(l3.contains(l4[i]) ==> l2.contains(l4[i]) || holds(rooks, l4[i].from as int));
                    assert(l2.contains(l4[i]) ==> l1.contains(l4[i]) || holds(bishops, l4[i].from as int));
                }
            }
        }
        generate_moves_for_piece_type(king, own_occ, enemy_occ, Attack::King, all_occ, moves);
        let ghost l5 = moves@;
        proof {
            if fresh {
                assert forall|i: int| 0 <= i < l5.len() implies !holds(pawns, (#[trigger] l5[i]).from as int) by {
                    assert(l5.contains(l5[i]));
                    assert(l4.contains(l5[i]) ==> l3.contains(l5[i]) || holds(queens, l5[i].from as int));
                    assert(l3.contains(l5[i]) ==> l2.contains(l5[i]) || holds(rooks, l5[i].from as int));
                    assert(l2.contains(l5[i]) ==> l1.contains(l5[i]) || holds(bishops, l5[i].from as int));
                }
            }
        }
        generate_pawn_moves(pawns, own_occ, enemy_occ, self.active_color, moves);
        let ghost l6 = moves@;
        proof {
            if fresh {
                assert forall|i: int| 0 <= i < l6.len() implies !(holds(pawns, (#[trigger] l6[i]).from as int)
                    && l6[i].flags == MoveFlags::EN_PASSENT + MoveFlags::CAPTURE) by {
                    assert(l6.contains(l6[i]));
                    if l5.contains(l6[i]) {
                        assert(l4.contains(l6[i]) ==> l3.contains(l6[i]) || holds(queens, l6[i].from as int));
                        assert(l3.contains(l6[i]) ==> l2.contains(l6[i]) || holds(rooks, l6[i].from as int));
                        assert(l2.contains(l6[i]) ==> l1.contains(l6[i]) || holds(bishops, l6[i].from as int));
                    } else {
                        let m = l6[i];
                        let white = self.active_color == Color::White;
                        let to = m.to as int;
                        if push1_reach(row_of(m.from as int), col_of(m.from as int), white, to) && !holds(all_occ, to)
                            && flags_for(m.flags, false, promotion_square(self.active_color, to)) {
                            lemma_flags_for_values(m.flags, false, promotion_square(self.active_color, to));
                        } else if pawn_attack_reach(row_of(m.from as int), col_of(m.from as int), white, to) && holds(enemy_occ, to)
                            && flags_for(m.flags, true, promotion_square(self.active_color, to)) {
                            lemma_flags_for_values(m.flags, true, promotion_square(self.active_color, to));
                        }
                    }
                }
            }
        }
        generate_en_passent_moves(pawns, self.en_passent, enemy_pawns, all_occ, self.active_color, color, moves);
        let ghost l7 = moves@;
        proof {
            if fresh {
                assert forall|i: int| 0 <= i < l7.len() implies (#[trigger] l7[i]).flags != MoveFlags::CASTLE_KINGSIDE
                    && l7[i].flags != MoveFlags::CASTLE_QUEENSIDE by {
                    let m = l7[i];
                    assert(l7.contains(m));
                    if l6.contains(m) && !l5.contains(m) {
                        let white = self.active_color == Color::White;
                        let to = m.to as int;
                        if push1_reach(row_of(m.from as int), col_of(m.from as int), white, to) && !holds(all_occ, to)
                            && flags_for(m.flags, false, promotion_square(self.active_color, to)) {
                            lemma_flags_for_values(m.flags, false, promotion_square(self.active_color, to));
                        } else if pawn_attack_reach(row_of(m.from as int), col_of(m.from as int), white, to) && holds(enemy_occ, to)
                            && flags_for(m.flags, true, promotion_square(self.active_color, to)) {
                            lemma_flags_for_values(m.flags, true, promotion_square(self.active_color, to));
                        }
                    }
                }
            }
        }
        generate_castling_moves(self, moves);
        proof {
            assert(moves@.subrange(0, s0.len() as int) =~= s0) by {
                assert(moves@.subrange(0, l7.len() as int) == l7);
                assert(l7.subrange(0, l6.len() as int) == l6);
                assert(l6.subrange(0, l5.len() as int) == l5);
                assert(l5.subrange(0, l4.len() as int) == l4);
                assert(l4.subrange(0, l3.len() as int) == l3);
                assert(l3.subrange(0, l2.len() as int) == l2);
                assert(l2.subrange(0, l1.len() as int) == l1);
                assert(l1.subrange(0, s0.len() as int) == s0);
            }
        }
    }
}

} // verus!

verus! {

/// Every pseudo-legal move can be played and taken back: `apply_move` accepts it and
/// `undo_move` restores the position (given a move number that can still grow when Black moves).
pub proof fn lemma_pseudo_reversible(b: Chess, c: Color, m: Move)
    requires
        b.wf(),
        pseudo_move(b, c, m),
        b.active_color == Color::Black ==> b.fullmove_number < usize::MAX,
    ensures
        reversible(b@, m),
{
    let s = b.squares@;
    let own = b.side_occ(c);
    let enemy = b.side_occ(c.opponent());
    let occ = own | enemy;
    lemma_side_occ(b, c);
    lemma_side_occ(b, c.opponent());
    lemma_has_or(own, enemy);
    lemma_flag_table();
    let mover = s[m.from as int];
    assert(0 <= m.to < 64 ==> (holds(occ, m.to as int) <==> s[m.to as int] != Square::Empty));
    if castle_move(b, m) {
        let white = b.active_color == Color::White;
        assert(mover == king_of(b.active_color));
        assert(mover.spec_color() == Some(b.active_color));
    } else if ep_move(b.bitboard_of(pawn_of(c)), b.en_passent, b.bitboard_of(pawn_of(c.opponent())), occ, b.active_color, c, m) {
        assert(mover == pawn_of(c));
        assert(mover.spec_color() == Some(c));
    } else if pawn_move(b.bitboard_of(pawn_of(c)), own, enemy, b.active_color, m) {
        assert(mover == pawn_of(c));
    } else {
        assert(mover != Square::Empty);
        assert(mover.spec_color() == Some(c));
    }
}

} // verus!

verus! {

/// A legal move of side `c`: pseudo-legal, and its own king is not in check once it is played.
pub open spec fn legal_move(b: Chess, c: Color, m: Move) -> bool {
    pseudo_move(b, c, m) && !in_check(position_after(b@, m).squares, c)
}

/// Most valuable victim, least valuable attacker: the value of what stands on the destination
/// less the value of the moving piece.
pub open spec fn mvv_lva(s: Seq<Square>, m: Move) -> i32 {
    (s[m.to as int].spec_value() - s[m.from as int].spec_value()) as i32
}

impl Chess {
    /// Replaces `moves` with the legal moves of side `color`, most valuable victim and least
    /// valuable attacker first; the board ends as it started.
    pub fn generate_moves_into(&mut self, color: Color, moves: &mut MoveList)
        requires
            old(self).wf(),
            old(self).active_color == Color::Black ==> old(self).fullmove_number < usize::MAX,
        ensures
            final(self).wf(),
            final(self)@ == old(self)@,
            final(moves)@.no_duplicates(),
            forall|m: Move| #[trigger] final(moves)@.contains(m) <==> legal_move(*old(self), color, m),
            forall|a: int, b: int| 0 <= a < b < final(moves)@.len() ==> mvv_lva(old(self)@.squares, final(moves)@[a])
                >= mvv_lva(old(self)@.squares, final(moves)@[b]),
    {
        let ghost b0 = *self;
        moves.clear();
        self.generate_pseudolegal_moves_into(color, moves);
        let ghost pseudo = moves@;
        let n = moves.len();
        let mut write: usize = 0;
        let mut read: usize = 0;
        while read < n
            invariant
                self.wf(),
                self@ == b0@,
                b0.wf(),
                b0.active_color == Color::Black ==> b0.fullmove_number < usize::MAX,
                pseudo.no_duplicates(),
                forall|m: Move| #[trigger] pseudo.contains(m) <==> pseudo_move(b0, color, m),
                n == pseudo.len(),
                moves@.len() == n,
                write <= read <= n,
                forall|i: int| read <= i < n ==> #[trigger] moves@[i] == pseudo[i],
                forall|k: int| 0 <= k < write ==> legal_move(b0, color, #[trigger] moves@[k])
                    && pseudo.subrange(0, read as int).contains(moves@[k]),
                forall|j: int| 0 <= j < read && legal_move(b0, color, #[trigger] pseudo[j]) ==>
                    moves@.subrange(0, write as int).contains(pseudo[j]),
                moves@.subrange(0, write as int).no_duplicates(),
            decreases n - read,
        {
            let m = *moves.get(read);
            proof {
                assert(pseudo.contains(pseudo[read as int]));
                lemma_pseudo_reversible(b0, color, m);
                lemma_undo_inverts_apply(b0@, m);
            }
            let history = self.apply_move(&m);
            let in_check_after = self.is_color_in_check(color);
            self.undo_move(&history);
            let ghost before = moves@;
            if !in_check_after {
                proof {
                    assert(!before.subrange(0, write as int).contains(m)) by {
                        if before.subrange(0, write as int).contains(m) {
                            let k = choose|k: int| 0 <= k < write && before.subrange(0, write as int)[k] == m;
                            assert(before[k] == before.subrange(0, write as int)[k]);
                            assert(pseudo.subrange(0, read as int).contains(before[k]));
                            let j = choose|j: int| 0 <= j < read && pseudo.subrange(0, read as int)[j] == before[k];
                            assert(pseudo[j] == pseudo.subrange(0, read as int)[j]);
                        }
                    }
                }
                if write != read {
                    moves.swap(write, read);
                }
                proof {
                    assert(moves@.subrange(0, write + 1) =~= before.subrange(0, write as int).push(m));
                    lemma_push_no_dup(before.subrange(0, write as int), m);
                }
                write = write + 1;
            }
            read = read + 1;
            proof {
                assert forall|k: int| 0 <= k < write implies legal_move(b0, color, #[trigger] moves@[k])
                    && pseudo.subrange(0, read as int).contains(moves@[k]) by {
                    if k < before.len() && k < write - 1 || in_check_after && k < write {
                        assert(moves@[k] == before[k]);
                        assert(pseudo.subrange(0, read - 1).contains(moves@[k]));
                        let j = choose|j: int| 0 <= j < read - 1 && #[trigger] pseudo.subrange(0, read - 1)[j] == moves@[k];
                        assert(pseudo.subrange(0, read as int)[j] == moves@[k]);
                    } else {
                        assert(moves@[k] == m);
                        assert(pseudo.subrange(0, read as int)[read - 1] == m);
                    }
                }
                assert forall|j: int| 0 <= j < read && legal_move(b0, color, #[trigger] pseudo[j]) implies
                    moves@.subrange(0, write as int).contains(pseudo[j]) by {
                    if j < read - 1 {
                        let prev_write: int = if in_check_after { write as int } else { write - 1 };
                        assert(before.subrange(0, prev_write).contains(pseudo[j]));
                        let k = choose|k: int| 0 <= k < prev_write && before.subrange(0, prev_write)[k] == pseudo[j];
                        assert(moves@.subrange(0, write as int)[k] == pseudo[j]);
                    } else {
                        assert(moves@.subrange(0, write as int)[write - 1] == pseudo[j]);
                    }
                }
            }
        }
        moves.truncate(write);
        proof {
            assert(moves@ == moves@.subrange(0, write as int));
            assert(pseudo.subrange(0, n as int) =~= pseudo);
            assert forall|m: Move| #[trigger] moves@.contains(m) <==> legal_move(b0, color, m) by {
                if moves@.contains(m) {
                    let k = choose|k: int| 0 <= k < moves@.len() && moves@[k] == m;
                    assert(legal_move(b0, color, moves@[k]));
                }
                if legal_move(b0, color, m) {
                    assert(pseudo.contains(m));
                    let j = choose|j: int| 0 <= j < pseudo.len() && pseudo[j] == m;
                    assert(legal_move(b0, color, pseudo[j]));
                }
            }
        }
        let ghost unsorted = moves@;
        proof {
            assert forall|k: int| 0 <= k < unsorted.len() implies (#[trigger] unsorted[k]).from < 64 && unsorted[k].to < 64 by {
                assert(unsorted.contains(unsorted[k]));
                lemma_pseudo_reversible(b0, color, unsorted[k]);
            }
        }
        let mut keys: Vec<i32> = Vec::new();
        let mut i: usize = 0;
        while i < moves.len()
            invariant
                moves@ == unsorted,
                self@ == b0@,
                keys@.len() == i,
                i <= moves@.len(),
                forall|k: int| 0 <= k < unsorted.len() ==> (#[trigger] unsorted[k]).from < 64 && unsorted[k].to < 64,
                forall|k: int| 0 <= k < i ==> keys@[k] == mvv_lva(b0@.squares, #[trigger] moves@[k]),
            decreases moves@.len() - i,
        {
            let mv = *moves.get(i);
            keys.push(self.squares[mv.to].value() - self.squares[mv.from].value());
            i = i + 1;
        }
        let ghost keys0 = keys@;
        moves.sort_by(&mut keys);
        proof {
            lemma_sorted_keys(unsorted, keys0, moves@, keys@, |mv: Move| mvv_lva(b0@.squares, mv));
            assert forall|a: int, b: int| 0 <= a < b < moves@.len() implies mvv_lva(b0@.squares, moves@[a])
                >= mvv_lva(b0@.squares, moves@[b]) by {
                assert(keys@[a] == mvv_lva(b0@.squares, moves@[a]));
                assert(keys@[b] == mvv_lva(b0@.squares, moves@[b]));
            }
        }
    }
}

} // verus!

verus! {

/// The legal moves of side `c`.
pub open spec fn legal_moves(b: Chess, c: Color) -> Set<Move> {
    Set::new(|m: Move| legal_move(b, c, m))
}

/// A list without duplicates that holds exactly the legal moves has as many entries as there
/// are legal moves.
pub proof fn lemma_legal_count(b: Chess, c: Color, s: Seq<Move>)
    requires
        s.no_duplicates(),
        forall|m: Move| #[trigger] s.contains(m) <==> legal_move(b, c, m),
    ensures
        s.len() == legal_moves(b, c).len(),
{
    assert(s.to_set() =~= legal_moves(b, c));
    s.unique_seq_to_set();
}

impl Chess {
    /// The pseudo-legal moves of side `color` that leave the king of the side to move out of
    /// check, most valuable victim and least valuable attacker first.
    pub fn generate_moves(&self, color: Color) -> (r: Vec<Move>)
        requires
            self.wf(),
            self.active_color == Color::Black ==> self.fullmove_number < usize::MAX,
        ensures
            r@.no_duplicates(),
            forall|m: Move| #[trigger] r@.contains(m) <==> pseudo_move(*self, color, m) && !in_check(
                position_after(self@, m).squares,
                self.active_color,
            ),
            forall|a: int, b: int| 0 <= a < b < r@.len() ==> mvv_lva(self@.squares, r@[a]) >= mvv_lva(self@.squares, r@[b]),
    {
        let mut buf = MoveList::new();
        self.generate_pseudolegal_moves_into(color, &mut buf);
        let ghost pseudo = buf@;
        let mut legal = MoveList::new();
        let mut i: usize = 0;
        while i < buf.len()
            invariant
                self.wf(),
                self.active_color == Color::Black ==> self.fullmove_number < usize::MAX,
                buf@ == pseudo,
                pseudo.no_duplicates(),
                forall|m: Move| #[trigger] pseudo.contains(m) <==> pseudo_move(*self, color, m),
                i <= pseudo.len(),
                legal@.no_duplicates(),
                forall|m: Move| #[trigger] legal@.contains(m) <==> pseudo.subrange(0, i as int).contains(m)
                    && !in_check(position_after(self@, m).squares, self.active_color),
            decreases pseudo.len() - i,
        {
            let m = *buf.get(i);
            proof {
                assert(pseudo.contains(m));
                lemma_pseudo_reversible(*self, color, m);
            }
            let ghost before = legal@;
            if !self.leaves_king_in_check(&m) {
                proof {
                    if before.contains(m) {
                        let j = choose|j: int| 0 <= j < i && #[trigger] pseudo.subrange(0, i as int)[j] == m;
                        assert(pseudo[j] == pseudo[i as int]);
                    }
                    lemma_push_no_dup(before, m);
                }
                legal.push(m);
            }
            proof {
                assert forall|m2: Move| #[trigger] legal@.contains(m2) <==> pseudo.subrange(0, i + 1).contains(m2)
                    && !in_check(position_after(self@, m2).squares, self.active_color) by {
                    lemma_push_contains(before, m, m2);
                    assert(pseudo.subrange(0, i + 1) == pseudo.subrange(0, i as int).push(m));
                    lemma_push_contains(pseudo.subrange(0, i as int), m, m2);
                }
            }
            i = i + 1;
        }
        proof {
            assert(pseudo.subrange(0, pseudo.len() as int) =~= pseudo);
            assert forall|k: int| 0 <= k < legal@.len() implies (#[trigger] legal@[k]).from < 64 && legal@[k].to < 64 by {
                assert(legal@.contains(legal@[k]));
                lemma_pseudo_reversible(*self, color, legal@[k]);
            }
        }
        let ghost unsorted = legal@;
        let mut keys: Vec<i32> = Vec::new();
        let mut k: usize = 0;
        while k < legal.len()
            invariant
                legal@ == unsorted,
                keys@.len() == k,
                k <= unsorted.len(),
                forall|j: int| 0 <= j < unsorted.len() ==> (#[trigger] unsorted[j]).from < 64 && unsorted[j].to < 64,
                forall|j: int| 0 <= j < k ==> keys@[j] == mvv_lva(self@.squares, #[trigger] unsorted[j]),
            decreases unsorted.len() - k,
        {
            let mv = *legal.get(k);
            keys.push(self.squares[mv.to].value() - self.squares[mv.from].value());
            k = k + 1;
        }
        let ghost keys0 = keys@;
        legal.sort_by(&mut keys);
        proof {
            lemma_sorted_keys(unsorted, keys0, legal@, keys@, |mv: Move| mvv_lva(self@.squares, mv));
            assert forall|a: int, b: int| 0 <= a < b < legal@.len() implies mvv_lva(self@.squares, legal@[a])
                >= mvv_lva(self@.squares, legal@[b]) by {
                assert(keys@[a] == mvv_lva(self@.squares, legal@[a]));
                assert(keys@[b] == mvv_lva(self@.squares, legal@[b]));
            }
        }
        legal.into_vec()
    }
}

} // verus!

verus! {

/// Whether a move is legal depends only on the position and its bitboards, which follow from
/// the squares.
pub proof fn lemma_legal_same(a: Chess, b: Chess, c: Color, m: Move)
    requires
        a.wf(),
        b.wf(),
        a@ == b@,
    ensures
        legal_move(a, c, m) == legal_move(b, c, m),
{
    crate::chess::lemma_bitboards_follow_squares(a, b, Square::WhitePawn);
    crate::chess::lemma_bitboards_follow_squares(a, b, Square::WhiteKnight);
    crate::chess::lemma_bitboards_follow_squares(a, b, Square::WhiteBishop);
    crate::chess::lemma_bitboards_follow_squares(a, b, Square::WhiteRook);
    crate::chess::lemma_bitboards_follow_squares(a, b, Square::WhiteQueen);
    crate::chess::lemma_bitboards_follow_squares(a, b, Square::WhiteKing);
    crate::chess::lemma_bitboards_follow_squares(a, b, Square::BlackPawn);
    crate::chess::lemma_bitboards_follow_squares(a, b, Square::BlackKnight);
    crate::chess::lemma_bitboards_follow_squares(a, b, Square::BlackBishop);
    crate::chess::lemma_bitboards_follow_squares(a, b, Square::BlackRook);
    crate::chess::lemma_bitboards_follow_squares(a, b, Square::BlackQueen);
    crate::chess::lemma_bitboards_follow_squares(a, b, Square::BlackKing);
    assert(a.side_occ(Color::White) == b.side_occ(Color::White));
    assert(a.side_occ(Color::Black) == b.side_occ(Color::Black));
    assert(pseudo_move(a, c, m) == pseudo_move(b, c, m));
}

impl Chess {
    /// The moves of the side to move, without the test whether they leave its king in check.
    pub fn generate_pseudolegal_moves(&self) -> (r: Vec<Move>)
        requires
            self.wf(),
        ensures
            r@.no_duplicates(),
            forall|m: Move| #[trigger] r@.contains(m) <==> pseudo_move(*self, self.active_color, m),
    {
        let mut buf = MoveList::new();
        self.generate_pseudolegal_moves_into(self.active_color, &mut buf);
        buf.into_vec()
    }

    /// Adds the knight moves of the side to move, captures flagged as such.
    pub fn generate_knight_moves(&self, moves: &mut Vec<Move>)
        requires
            self.wf(),
        ensures
            extends(final(moves)@, old(moves)@),
            forall|m: Move| #[trigger] final(moves)@.contains(m) <==> old(moves)@.contains(m) || piece_move(
                self.bitboard_of(knight_of(self.active_color)),
                self.side_occ(self.active_color),
                self.side_occ(self.active_color.opponent()),
                Attack::Knight,
                self.side_occ(self.active_color) | self.side_occ(self.active_color.opponent()),
                m,
            ),
    {
        let (knights, own_occ, enemy_occ) = match self.active_color {
            Color::White => (self.white_knights, self.white_occupancy(), self.black_occupancy()),
            Color::Black => (self.black_knights, self.black_occupancy(), self.white_occupancy()),
        };
        let mut buf = MoveList::new();
        generate_moves_for_piece_type(knights, own_occ, enemy_occ, Attack::Knight, own_occ | enemy_occ, &mut buf);
        let ghost start = moves@;
        let mut i: usize = 0;
        while i < buf.len()
            invariant
                i <= buf@.len(),
                moves@ == start + buf@.subrange(0, i as int),
            decreases buf@.len() - i,
        {
            moves.push(*buf.get(i));
            i = i + 1;
            assert(moves@ =~= start + buf@.subrange(0, i as int));
        }
        assert(buf@.subrange(0, buf@.len() as int) =~= buf@);
        assert(moves@.subrange(0, start.len() as int) =~= start);
        assert forall|m: Move| #[trigger] moves@.contains(m) <==> start.contains(m) || buf@.contains(m) by {
            if moves@.contains(m) {
                let k = choose|k: int| 0 <= k < moves@.len() && moves@[k] == m;
                if k >= start.len() {
                    assert(buf@[k - start.len()] == m);
                }
            }
            if buf@.contains(m) {
                let k = choose|k: int| 0 <= k < buf@.len() && buf@[k] == m;
                assert(moves@[start.len() + k] == m);
            }
            if start.contains(m) {
                let k = choose|k: int| 0 <= k < start.len() && start[k] == m;
                assert(moves@[k] == m);
            }
        }
    }
}

} // verus!
