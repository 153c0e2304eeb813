//! Writing a legal move in UCI notation and reading it back on the same board gives the move.
use vstd::prelude::*;
use vstd::utf8::{encode_utf8, is_ascii_chars};
use crate::apply_undo_move::{Move, MoveFlags, has_flag};
use crate::bits::{holds, lowest};
use crate::checks::{pawn_of, knight_of, bishop_of, rook_piece_of, queen_of, king_of, king_square};
use crate::chess::{Chess, Position, lemma_side_occ};
use crate::movegeneration::{Attack, legal_move, piece_move, pawn_move, ep_move, castle_move, flags_for,
    promotion_square, lemma_pseudo_reversible};
use crate::moves::geometry::{row_of, col_of, king_reach};
use crate::moves::pawn::{push1_reach, push2_reach};
use crate::uci::{capture_bits, castle_bits};
use crate::color::Color;
use crate::square::Square;
use crate::text::{dec, digit_char};
use crate::uci::{uci_text, uci_readable, uci_move, square_of, promotion_bits, promotion_suffix};
use crate::utils::algebraic;

verus! {

proof fn lemma_char_byte(x: int)
    requires
        0 <= x < 128,
    ensures
        ((x as char) as u8) as int == x,
        (x as char) as int == x,
{
}

/// The promotion bit a flags byte's UCI letter names: the first one set.
pub open spec fn first_promotion(f: u8) -> u8 {
    if has_flag(f, MoveFlags::PROMOTION_QUEEN) {
        MoveFlags::PROMOTION_QUEEN
    } else if has_flag(f, MoveFlags::PROMOTION_ROOK) {
        MoveFlags::PROMOTION_ROOK
    } else if has_flag(f, MoveFlags::PROMOTION_BISHOP) {
        MoveFlags::PROMOTION_BISHOP
    } else if has_flag(f, MoveFlags::PROMOTION_KNIGHT) {
        MoveFlags::PROMOTION_KNIGHT
    } else {
        0
    }
}

/// The name of a square of the board: its file letter and rank digit.
proof fn lemma_algebraic(idx: int)
    requires
        0 <= idx < 64,
    ensures
        algebraic(idx as nat) == seq![(97 + idx % 8) as char, (49 + idx / 8) as char],
{
    let k = (idx / 8) % 256 + 1;
    assert(k == idx / 8 + 1);
    assert(dec(k as nat) == seq![digit_char(k)]);
    assert(algebraic(idx as nat) =~= seq![(97 + idx % 8) as char, (49 + idx / 8) as char]);
}

/// The bytes of the UCI text of a move on the board: the two square names, then the promotion
/// letter; they read back as the move's squares and promotion.
pub proof fn lemma_uci_bytes(m: Move)
    requires
        m.from < 64,
        m.to < 64,
    ensures
        uci_readable(encode_utf8(uci_text(m))),
        encode_utf8(uci_text(m)).len() >= 4,
        square_of(encode_utf8(uci_text(m))[0], encode_utf8(uci_text(m))[1]) == m.from,
        square_of(encode_utf8(uci_text(m))[2], encode_utf8(uci_text(m))[3]) == m.to,
        promotion_bits(encode_utf8(uci_text(m))) == first_promotion(m.flags),
{
    let f = m.from as int;
    let t = m.to as int;
    lemma_algebraic(f);
    lemma_algebraic(t);
    let suffix = promotion_suffix(m.flags);
    let text = uci_text(m);
    assert(text =~= seq![(97 + f % 8) as char, (49 + f / 8) as char, (97 + t % 8) as char, (49 + t / 8) as char]
        + suffix);
    lemma_char_byte(97 + f % 8);
    lemma_char_byte(49 + f / 8);
    lemma_char_byte(97 + t % 8);
    lemma_char_byte(49 + t / 8);
    assert(is_ascii_chars(text)) by {
        assert forall|i: int| 0 <= i < text.len() implies '\0' <= #[trigger] text[i] <= '\u{7f}' by {
            if i == 0 {
                lemma_ascii(97 + f % 8);
            } else if i == 1 {
                lemma_ascii(49 + f / 8);
            } else if i == 2 {
                lemma_ascii(97 + t % 8);
            } else if i == 3 {
                lemma_ascii(49 + t / 8);
            }
        }
    }
    vstd::utf8::is_ascii_chars_encode_utf8(text);
    let b = encode_utf8(text);
    assert(b[0] == text[0] as u8);
    assert(b[1] == text[1] as u8);
    assert(b[2] == text[2] as u8);
    assert(b[3] == text[3] as u8);
    if suffix.len() > 0 {
        assert(b[4] == text[4] as u8);
        assert(text[4] == suffix[0]);
    }
}

/// Reading back the name of a square of the board, as `algebraic_to_index` reads the bytes of
/// the text `index_to_algebraic` writes, gives the square.
pub proof fn lemma_square_name_round_trip(idx: int)
    requires
        0 <= idx < 64,
    ensures
        ({
            let b = encode_utf8(algebraic(idx as nat));
            &&& b.len() >= 2
            &&& b[0] >= 97
            &&& b[1] >= 49
            &&& (b[1] - 49) * 8 + (b[0] - 97) == idx
        }),
{
    lemma_algebraic(idx);
    let text = algebraic(idx as nat);
    lemma_char_byte(97 + idx % 8);
    lemma_char_byte(49 + idx / 8);
    assert(is_ascii_chars(text)) by {
        assert forall|i: int| 0 <= i < text.len() implies '\0' <= #[trigger] text[i] <= '\u{7f}' by {
            if i == 0 {
                lemma_ascii(97 + idx % 8);
            } else {
                lemma_ascii(49 + idx / 8);
            }
        }
    }
    vstd::utf8::is_ascii_chars_encode_utf8(text);
    let b = encode_utf8(text);
    assert(b[0] == text[0] as u8);
    assert(b[1] == text[1] as u8);
}

proof fn lemma_ascii(x: int)
    requires
        0 <= x < 128,
    ensures
        '\0' <= (x as char) <= '\u{7f}',
{
}

/// The en-passant square, if any, lies empty right behind a pawn of the side not to move, as
/// after that pawn's double step.
pub open spec fn ep_consistent(p: Position) -> bool {
    p.en_passent == 0 || {
        let t = lowest(p.en_passent);
        &&& 0 <= t < 64
        &&& p.squares[t] == Square::Empty
        &&& if p.active_color == Color::White {
            40 <= t < 48 && p.squares[t - 8] == Square::BlackPawn
        } else {
            16 <= t < 24 && p.squares[t + 8] == Square::WhitePawn
        }
    }
}

proof fn lemma_flag_or(cap: u8, promo: u8)
    requires
        cap == 0 || cap == 1,
        promo == 0 || promo == 16 || promo == 32 || promo == 64 || promo == 128,
    ensures
        (cap | 0u8 | promo) as int == cap + promo,
        first_promotion((cap + promo) as u8) == promo,
{
    assert((cap == 0 || cap == 1) && (promo == 0 || promo == 16 || promo == 32 || promo == 64 || promo == 128) ==> (
    cap | 0u8 | promo) as int == cap + promo) by (bit_vector);
    let f = (cap + promo) as u8;
    assert((cap == 0 || cap == 1) && (promo == 0 || promo == 16 || promo == 32 || promo == 64 || promo == 128) && f
        == cap + promo ==> (promo == 16 ==> f & 16 == 16) && (promo == 32 ==> f & 16 != 16 && f & 32 == 32) && (
    promo == 64 ==> f & 16 != 16 && f & 32 != 32 && f & 64 == 64) && (promo == 128 ==> f & 16 != 16 && f & 32
        != 32 && f & 64 != 64 && f & 128 == 128) && (promo == 0 ==> f & 16 != 16 && f & 32 != 32 && f & 64 != 64
        && f & 128 != 128)) by (bit_vector);
}

proof fn lemma_small_flags(f: u8, g: u8)
    requires
        f == 3 || f == 4 || f == 8,
    ensures
        first_promotion(f) == 0,
        f == 3 ==> (2u8 | 1u8) | 0u8 | 0u8 == f,
        f == 4 ==> 0u8 | 4u8 | 0u8 == f,
        f == 8 ==> 0u8 | 8u8 | 0u8 == f,
{
    assert((f == 3 || f == 4 || f == 8) ==> f & 16 != 16 && f & 32 != 32 && f & 64 != 64 && f & 128 != 128) by (bit_vector);
    assert((2u8 | 1u8) | 0u8 | 0u8 == 3u8) by (bit_vector);
    assert(0u8 | 4u8 | 0u8 == 4u8) by (bit_vector);
    assert(0u8 | 8u8 | 0u8 == 8u8) by (bit_vector);
}

/// The flags of a legal move are those its squares and promotion letter give back on the board.
proof fn lemma_legal_flags(b: Chess, m: Move)
    requires
        b.wf(),
        ep_consistent(b@),
        b.active_color == Color::Black ==> b.fullmove_number < usize::MAX,
        legal_move(b, b.active_color, m),
    ensures
        m.from < 64,
        m.to < 64,
        b@.squares[m.from as int] != Square::Empty,
        m.flags == capture_bits(b@, m.from as int, m.to as int) | castle_bits(
            b@.squares[m.from as int],
            m.from as int,
            m.to as int,
        ) | first_promotion(m.flags),
{
    let c = b.active_color;
    let s = b@.squares;
    let from = m.from as int;
    let to = m.to as int;
    lemma_pseudo_reversible(b, c, m);
    lemma_side_occ(b, c);
    lemma_side_occ(b, c.opponent());
    let own = b.side_occ(c);
    let enemy = b.side_occ(c.opponent());
    let occ = own | enemy;
    crate::bits::lemma_has_or(own, enemy);
    let mover = s[from];
    let cap = capture_bits(b@, from, to);
    let cas = castle_bits(mover, from, to);
    assert(0 <= from < 64 && 0 <= to < 64);
    if piece_move(b.bitboard_of(knight_of(c)), own, enemy, Attack::Knight, occ, m)
        || piece_move(b.bitboard_of(bishop_of(c)), own, enemy, Attack::Bishop, occ, m)
        || piece_move(b.bitboard_of(rook_piece_of(c)), own, enemy, Attack::Rook, occ, m)
        || piece_move(b.bitboard_of(queen_of(c)), own, enemy, Attack::Queen, occ, m)
        || piece_move(b.bitboard_of(king_of(c)), own, enemy, Attack::King, occ, m) {
        assert(mover != Square::WhitePawn && mover != Square::BlackPawn);
        assert(cap == if holds(enemy, to) { 1u8 } else { 0u8 });
        if piece_move(b.bitboard_of(king_of(c)), own, enemy, Attack::King, occ, m) {
            assert(king_reach(row_of(from), col_of(from), to));
        }
        assert(cas == 0);
        lemma_flag_or(cap, 0);
    } else if pawn_move(b.bitboard_of(pawn_of(c)), own, enemy, b.active_color, m) {
        assert(mover == pawn_of(c));
        let white = c == Color::White;
        let r = row_of(from);
        let cc = col_of(from);
        if b.en_passent != 0 {
            let t = lowest(b.en_passent);
            if push1_reach(r, cc, white, to) && !holds(occ, to) {
                crate::moves::geometry::lemma_square_of(if white { r + 1 } else { r - 1 }, cc);
                assert(to != t);
            } else if push2_reach(r, cc, white, to) {
                crate::moves::geometry::lemma_square_of(if white { 4 } else { 5 }, cc);
                assert(to != t);
            } else {
                assert(holds(enemy, to));
                assert(to != t);
            }
        }
        assert(cas == 0);
        if push1_reach(r, cc, white, to) && !holds(occ, to) && flags_for(m.flags, false, promotion_square(
            b.active_color,
            to,
        )) {
            assert(cap == 0);
            let promo: u8 = (m.flags - 0) as u8;
            lemma_flag_or(0, promo);
        } else if push2_reach(r, cc, white, to) && !holds(occ, if white { from + 8 } else { from - 8 }) && !holds(
            occ,
            to,
        ) && m.flags == 0 {
            assert(cap == 0);
            lemma_flag_or(0, 0);
        } else {
            assert(holds(enemy, to));
            assert(cap == 1);
            let promo: u8 = (m.flags - 1) as u8;
            lemma_flag_or(1, promo);
        }
    } else if ep_move(b.bitboard_of(pawn_of(c)), b.en_passent, b.bitboard_of(pawn_of(c.opponent())), occ,
        b.active_color, c, m) {
        assert(mover == pawn_of(c));
        lemma_small_flags(m.flags, 0);
    } else {
        assert(castle_move(b, m));
        let home: int = if c == Color::White { 4 } else { 60 };
        assert(king_square(s, c, home));
        assert(mover == king_of(c));
        assert(s[to] == Square::Empty);
        lemma_small_flags(m.flags, 0);
    }
}

/// Writing a legal move of the side to move in UCI notation and reading the text back on the
/// same board gives the same move, flags included. This holds on every well-formed board whose
/// en-passant square, if any, lies empty behind a pawn of the side not to move.
pub proof fn lemma_uci_round_trip(b: Chess, m: Move)
    requires
        b.wf(),
        ep_consistent(b@),
        b.active_color == Color::Black ==> b.fullmove_number < usize::MAX,
        legal_move(b, b.active_color, m),
    ensures
        uci_readable(encode_utf8(uci_text(m))),
        uci_move(encode_utf8(uci_text(m)), b@) == Some(m),
{
    lemma_legal_flags(b, m);
    lemma_uci_bytes(m);
}

} // verus!
