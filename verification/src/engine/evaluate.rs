//! The static evaluation of a board: material, piece-square tables, mobility, king safety,
//! development, the bishop pair and passed pawns.
use vstd::prelude::*;
use crate::bits::{holds, lowest, popcount, lemma_popcount_bounds, lemma_has_or, lemma_has_and, lemma_has_zero, lemma_nonzero,
    lemma_lowest, lemma_clear_lowest, lemma_has_single, lemma_has_and_not};
use crate::chess::Chess;
use crate::history::{occurrences, last_n};
use crate::checks::{knight_of, bishop_of, rook_piece_of, queen_of, pawn_of, king_of};
use crate::movegeneration::{Attack, attack_reach, attacks_from, promotion_square};
use crate::moves::geometry::{row_of, col_of, pawn_attack_reach, king_reach, knight_reach, straight_reach, diagonal_reach};
use crate::moves::pawn::{pawn_push_1, pawn_push_2, pawn_attacks, push1_reach, push2_reach};
use crate::moves::knight::knight_moves;
use crate::moves::king::king_moves;
use crate::moves::ray::{diagonal_attacks, straight_attacks};
use crate::color::Color;
use crate::engine::tables::{pawn_table, knight_table, bishop_table, rook_table, queen_table, mg_king_table,
    eg_king_table, pawn_table_values, knight_table_values, bishop_table_values, rook_table_values,
    queen_table_values, mg_king_table_values, eg_king_table_values};
use crate::sums::{bb_sum, count_where, lemma_bb_sum_bounds, lemma_bb_sum_clear_lowest, lemma_bb_sum_zero, lemma_popcount_where,
    lemma_count_where_bounds, sum_to, lemma_sum_to_bounds};
use crate::utils::{BitBoard, bit_scan, count_ones, file_mask, file_of};

verus! {

/// Material balance in centipawns, White minus Black.
#[verifier::opaque]
pub open spec fn material(b: Chess) -> int {
    100 * (popcount(b.white_pawns) - popcount(b.black_pawns)) + 350 * (popcount(b.white_knights) - popcount(
        b.black_knights,
    )) + 350 * (popcount(b.white_bishops) - popcount(b.black_bishops)) + 525 * (popcount(b.white_rooks)
        - popcount(b.black_rooks)) + 1000 * (popcount(b.white_queens) - popcount(b.black_queens))
}

/// Material counts every piece at its value, White's for White and against Black's: a pawn 100,
/// a knight 350, a bishop 350, a rook 525 and a queen 1000 centipawns.
pub proof fn lemma_material_values(b: Chess)
    ensures
        material(b) == (100 * popcount(b.white_pawns) + 350 * popcount(b.white_knights) + 350 * popcount(
            b.white_bishops,
        ) + 525 * popcount(b.white_rooks) + 1000 * popcount(b.white_queens)) - (100 * popcount(b.black_pawns) + 350
            * popcount(b.black_knights) + 350 * popcount(b.black_bishops) + 525 * popcount(b.black_rooks) + 1000
            * popcount(b.black_queens)),
{
    reveal(material);
}

/// More White pieces, Black's the same, raise the material balance by the extra pieces' values
/// (so never lower it, and raise it whenever White has more); more Black pieces, White's the
/// same, lower it likewise.
pub proof fn lemma_material_monotone(b1: Chess, b2: Chess)
    ensures
        popcount(b2.black_pawns) == popcount(b1.black_pawns) && popcount(b2.black_knights) == popcount(b1.black_knights)
            && popcount(b2.black_bishops) == popcount(b1.black_bishops) && popcount(b2.black_rooks) == popcount(
            b1.black_rooks,
        ) && popcount(b2.black_queens) == popcount(b1.black_queens) && popcount(b2.white_pawns) >= popcount(
            b1.white_pawns,
        ) && popcount(b2.white_knights) >= popcount(b1.white_knights) && popcount(b2.white_bishops) >= popcount(
            b1.white_bishops,
        ) && popcount(b2.white_rooks) >= popcount(b1.white_rooks) && popcount(b2.white_queens) >= popcount(
            b1.white_queens,
        ) ==> material(b2) - material(b1) == 100 * (popcount(b2.white_pawns) - popcount(b1.white_pawns)) + 350 * (
        popcount(b2.white_knights) - popcount(b1.white_knights)) + 350 * (popcount(b2.white_bishops) - popcount(
            b1.white_bishops,
        )) + 525 * (popcount(b2.white_rooks) - popcount(b1.white_rooks)) + 1000 * (popcount(b2.white_queens)
            - popcount(b1.white_queens)) && material(b2) >= material(b1),
        popcount(b2.white_pawns) == popcount(b1.white_pawns) && popcount(b2.white_knights) == popcount(b1.white_knights)
            && popcount(b2.white_bishops) == popcount(b1.white_bishops) && popcount(b2.white_rooks) == popcount(
            b1.white_rooks,
        ) && popcount(b2.white_queens) == popcount(b1.white_queens) && popcount(b2.black_pawns) >= popcount(
            b1.black_pawns,
        ) && popcount(b2.black_knights) >= popcount(b1.black_knights) && popcount(b2.black_bishops) >= popcount(
            b1.black_bishops,
        ) && popcount(b2.black_rooks) >= popcount(b1.black_rooks) && popcount(b2.black_queens) >= popcount(
            b1.black_queens,
        ) ==> material(b1) - material(b2) == 100 * (popcount(b2.black_pawns) - popcount(b1.black_pawns)) + 350 * (
        popcount(b2.black_knights) - popcount(b1.black_knights)) + 350 * (popcount(b2.black_bishops) - popcount(
            b1.black_bishops,
        )) + 525 * (popcount(b2.black_rooks) - popcount(b1.black_rooks)) + 1000 * (popcount(b2.black_queens)
            - popcount(b1.black_queens)) && material(b2) <= material(b1),
{
    lemma_material_values(b1);
    lemma_material_values(b2);
}

pub open spec fn clamp(x: int, lo: int, hi: int) -> int {
    if x < lo { lo } else if x > hi { hi } else { x }
}

/// Game phase from 24 (all minor and major pieces on the board) down to 0.
pub open spec fn game_phase(b: Chess) -> int {
    clamp(
        popcount(b.white_knights | b.black_knights) + popcount(b.white_bishops | b.black_bishops) + 2 * popcount(
            b.white_rooks | b.black_rooks,
        ) + 4 * popcount(b.white_queens | b.black_queens),
        0,
        24,
    )
}

/// The table index of a square: mirrored vertically for Black.
pub open spec fn pst_index(sq: int, flip: bool) -> int {
    if flip { ((sq as u64) ^ 56u64) as int } else { sq }
}

pub open spec fn pst_term(table: Seq<i32>, flip: bool) -> spec_fn(int) -> int {
    |sq: int| table[pst_index(sq, flip)] as int
}

/// Piece-square score, White minus Black, with the middlegame or endgame king table.
#[verifier::opaque]
pub open spec fn pst_score(b: Chess, middlegame: bool) -> int {
    let king_t = if middlegame { mg_king_table() } else { eg_king_table() };
    bb_sum(b.white_pawns, pst_term(pawn_table(), false)) + bb_sum(b.white_knights, pst_term(knight_table(), false))
        + bb_sum(b.white_bishops, pst_term(bishop_table(), false)) + bb_sum(b.white_rooks, pst_term(rook_table(), false))
        + bb_sum(b.white_queens, pst_term(queen_table(), false)) + bb_sum(b.white_king, pst_term(king_t, false))
        - bb_sum(b.black_pawns, pst_term(pawn_table(), true)) - bb_sum(b.black_knights, pst_term(knight_table(), true))
        - bb_sum(b.black_bishops, pst_term(bishop_table(), true)) - bb_sum(b.black_rooks, pst_term(rook_table(), true))
        - bb_sum(b.black_queens, pst_term(queen_table(), true)) - bb_sum(b.black_king, pst_term(king_t, true))
}

proof fn lemma_flip_index(sq: u64)
    requires
        sq < 64,
    ensures
        (sq ^ 56u64) < 64,
        ((sq ^ 56u64) ^ 56u64) == sq,
{
    assert(sq < 64 ==> (sq ^ 56u64) < 64 && ((sq ^ 56u64) ^ 56u64) == sq) by (bit_vector);
}

/// Black's pieces are scored from the tables mirrored top to bottom: a Black piece on the square
/// mirrored from `sq` (same file, rank counted from the other side) gets the entry a White piece
/// gets on `sq`.
pub proof fn lemma_pst_mirror(t: Seq<i32>, sq: int)
    requires
        0 <= sq < 64,
    ensures
        pst_term(t, true)(((sq as u64) ^ 56u64) as int) == pst_term(t, false)(sq),
        pst_term(t, true)(((sq as u64) ^ 56u64) as int) == t[sq],
{
    lemma_flip_index(sq as u64);
}

/// Every entry of the piece-square tables lies within 50 of zero.
pub open spec fn table_bounded(t: Seq<i32>) -> bool {
    t.len() == 64 && forall|i: int| 0 <= i < 64 ==> -50 <= #[trigger] t[i] <= 50
}

proof fn lemma_pst_term_bounds(t: Seq<i32>, flip: bool)
    requires
        table_bounded(t),
    ensures
        forall|i: int| 0 <= i < 64 ==> -50 <= #[trigger] pst_term(t, flip)(i) <= 50,
{
    assert forall|i: int| 0 <= i < 64 implies -50 <= #[trigger] pst_term(t, flip)(i) <= 50 by {
        lemma_flip_index(i as u64);
    }
}

impl Chess {
    pub fn material_score(&self) -> (r: i32)
        ensures
            r == material(*self),
            -200000 <= r <= 200000,
    {
        reveal(material);
        proof {
            lemma_popcount_bounds(self.white_pawns);
            lemma_popcount_bounds(self.black_pawns);
            lemma_popcount_bounds(self.white_knights);
            lemma_popcount_bounds(self.black_knights);
            lemma_popcount_bounds(self.white_bishops);
            lemma_popcount_bounds(self.black_bishops);
            lemma_popcount_bounds(self.white_rooks);
            lemma_popcount_bounds(self.black_rooks);
            lemma_popcount_bounds(self.white_queens);
            lemma_popcount_bounds(self.black_queens);
        }
        let mut score: i32 = 0;
        score = score + 100 * (count_ones(self.white_pawns) - count_ones(self.black_pawns));
        score = score + 350 * (count_ones(self.white_knights) - count_ones(self.black_knights));
        score = score + 350 * (count_ones(self.white_bishops) - count_ones(self.black_bishops));
        score = score + 525 * (count_ones(self.white_rooks) - count_ones(self.black_rooks));
        score = score + 1000 * (count_ones(self.white_queens) - count_ones(self.black_queens));
        score
    }

    /// Game phase (0-24).
    fn get_game_phase(&self) -> (r: i32)
        ensures
            r == game_phase(*self),
            0 <= r <= 24,
    {
        let x = count_ones(self.white_knights | self.black_knights) + count_ones(self.white_bishops | self.black_bishops)
            + 2 * count_ones(self.white_rooks | self.black_rooks) + 4 * count_ones(self.white_queens | self.black_queens);
        if x < 0 {
            0
        } else if x > 24 {
            24
        } else {
            x
        }
    }

    /// The sum of the table entries of the squares of `pieces`.
    fn evaluate_piece_pst(&self, pieces: BitBoard, table: &[i32; 64], flip: bool) -> (r: i32)
        requires
            table_bounded(table@),
        ensures
            r == bb_sum(pieces, pst_term(table@, flip)),
            -3200 <= r <= 3200,
    {
        let ghost f = pst_term(table@, flip);
        proof {
            lemma_pst_term_bounds(table@, flip);
        }
        let mut score: i32 = 0;
        let mut rem = pieces;
        proof {
            lemma_bb_sum_bounds(rem, f, -50, 50);
        }
        while rem != 0
            invariant
                table_bounded(table@),
                f == pst_term(table@, flip),
                forall|i: int| 0 <= i < 64 ==> -50 <= #[trigger] f(i) <= 50,
                score + bb_sum(rem, f) == bb_sum(pieces, f),
                -3200 <= bb_sum(rem, f) <= 3200,
                -3200 <= bb_sum(pieces, f) <= 3200,
            decreases rem,
        {
            let sq = bit_scan(rem);
            proof {
                lemma_bb_sum_clear_lowest(rem, f);
                crate::bits::lemma_clear_lowest(rem);
                lemma_bb_sum_bounds(rem & ((rem - 1) as u64), f, -50, 50);
                lemma_flip_index(sq as u64);
            }
            let table_idx = if flip { sq ^ 56 } else { sq };
            score = score + table[table_idx];
            rem = rem & (rem - 1);
        }
        proof {
            lemma_bb_sum_zero(f);
        }
        score
    }

    fn calculate_pst_score(&self, middlegame: bool) -> (r: i32)
        ensures
            r == pst_score(*self, middlegame),
            -38400 <= r <= 38400,
    {
        reveal(pst_score);
        let pawn_t = pawn_table_values();
        let knight_t = knight_table_values();
        let bishop_t = bishop_table_values();
        let rook_t = rook_table_values();
        let queen_t = queen_table_values();
        let king_t = if middlegame { mg_king_table_values() } else { eg_king_table_values() };
        let mut score: i32 = 0;
        score = score + self.evaluate_piece_pst(self.white_pawns, &pawn_t, false);
        score = score + self.evaluate_piece_pst(self.white_knights, &knight_t, false);
        score = score + self.evaluate_piece_pst(self.white_bishops, &bishop_t, false);
        score = score + self.evaluate_piece_pst(self.white_rooks, &rook_t, false);
        score = score + self.evaluate_piece_pst(self.white_queens, &queen_t, false);
        score = score + self.evaluate_piece_pst(self.white_king, &king_t, false);
        score = score - self.evaluate_piece_pst(self.black_pawns, &pawn_t, true);
        score = score - self.evaluate_piece_pst(self.black_knights, &knight_t, true);
        score = score - self.evaluate_piece_pst(self.black_bishops, &bishop_t, true);
        score = score - self.evaluate_piece_pst(self.black_rooks, &rook_t, true);
        score = score - self.evaluate_piece_pst(self.black_queens, &queen_t, true);
        score = score - self.evaluate_piece_pst(self.black_king, &king_t, true);
        score
    }
}

} // verus!

verus! {

/// The squares of rank `r` (0..8).
fn rank_mask(r: usize) -> (m: BitBoard)
    requires
        r < 8,
    ensures
        forall|i: int| #[trigger] holds(m, i) == (0 <= i < 64 && i / 8 == r),
{
    let m: u64 = 0xFFu64 << ((r * 8) as u64);
    proof {
        assert forall|i: int| #[trigger] holds(m, i) == (0 <= i < 64 && i / 8 == r) by {
            if 0 <= i < 64 {
                let j = i as u64;
                let rr = r as u64;
                assert((((0xFFu64 << (rr * 8)) >> j) & 1u64 == 1u64) == (j / 8 == rr)) by (bit_vector)
                    requires
                        rr < 8,
                        j < 64,
                ;
            }
        }
    }
    m
}

/// No opponent pawn stands ahead of the pawn on `sq` (of White when `white`) on its file or an
/// adjacent one.
pub open spec fn passed(sq: int, white: bool, opponent_pawns: u64) -> bool {
    forall|t: int|
        #[trigger] holds(opponent_pawns, t) ==> !(-1 <= t % 8 - sq % 8 <= 1 && (if white {
            t / 8 > sq / 8
        } else {
            t / 8 < sq / 8
        }))
}

fn is_passed(sq: usize, color: Color, opponent_pawns: BitBoard) -> (r: bool)
    requires
        sq < 64,
    ensures
        r == passed(sq as int, color == Color::White, opponent_pawns),
{
    let file_idx = sq % 8;
    let rank_idx = sq / 8;
    let mut check_mask: BitBoard = file_mask(file_idx);
    if file_idx > 0 {
        let m = file_mask(file_idx - 1);
        proof {
            lemma_has_or(check_mask, m);
        }
        check_mask = check_mask | m;
    }
    if file_idx < 7 {
        let m = file_mask(file_idx + 1);
        proof {
            lemma_has_or(check_mask, m);
        }
        check_mask = check_mask | m;
    }
    let mut forward_rank_mask: BitBoard = 0;
    proof {
        lemma_has_zero();
    }
    match color {
        Color::White => {
            let mut r: usize = rank_idx + 1;
            while r < 8
                invariant
                    rank_idx < 8,
                    rank_idx + 1 <= r <= 8,
                    forall|i: int| #[trigger] holds(forward_rank_mask, i) == (0 <= i < 64 && rank_idx < i / 8 < r),
                decreases 8 - r,
            {
                let m = rank_mask(r);
                proof {
                    lemma_has_or(forward_rank_mask, m);
                }
                forward_rank_mask = forward_rank_mask | m;
                r = r + 1;
            }
        },
        Color::Black => {
            let mut r: usize = 0;
            while r < rank_idx
                invariant
                    rank_idx < 8,
                    r <= rank_idx,
                    forall|i: int| #[trigger] holds(forward_rank_mask, i) == (0 <= i < 64 && i / 8 < r),
                decreases rank_idx - r,
            {
                let m = rank_mask(r);
                proof {
                    lemma_has_or(forward_rank_mask, m);
                }
                forward_rank_mask = forward_rank_mask | m;
                r = r + 1;
            }
        },
    }
    let x = opponent_pawns & check_mask & forward_rank_mask;
    proof {
        lemma_has_and(opponent_pawns, check_mask);
        lemma_has_and(opponent_pawns & check_mask, forward_rank_mask);
        lemma_nonzero(x);
        if !passed(sq as int, color == Color::White, opponent_pawns) {
            let t = choose|t: int|
                #[trigger] holds(opponent_pawns, t) && (-1 <= t % 8 - sq % 8 <= 1 && (if color == Color::White {
                    t / 8 > sq / 8
                } else {
                    t / 8 < sq / 8
                }));
            assert(holds(x, t));
        }
    }
    x == 0
}

/// The number of passed pawns of White less that of Black.
#[verifier::opaque]
pub open spec fn passed_count(b: Chess) -> int {
    count_where(|i: int| holds(b.white_pawns, i) && passed(i, true, b.black_pawns)) - count_where(
        |i: int| holds(b.black_pawns, i) && passed(i, false, b.white_pawns),
    )
}

/// The squares of `pawns` holding passed pawns of the side `color`.
fn passed_pawns(pawns: BitBoard, color: Color, opponent_pawns: BitBoard) -> (r: BitBoard)
    ensures
        forall|i: int| #[trigger] holds(r, i) == (holds(pawns, i) && passed(i, color == Color::White, opponent_pawns)),
{
    let mut result: BitBoard = 0;
    let mut rem = pawns;
    proof {
        lemma_has_zero();
    }
    while rem != 0
        invariant
            forall|i: int| #[trigger] holds(rem, i) ==> holds(pawns, i),
            forall|i: int| #[trigger] holds(result, i) == (holds(pawns, i) && !holds(rem, i) && passed(
                i,
                color == Color::White,
                opponent_pawns,
            )),
        decreases rem,
    {
        let sq = bit_scan(rem);
        proof {
            lemma_lowest(rem);
            lemma_clear_lowest(rem);
            lemma_has_single(sq as u64);
        }
        if is_passed(sq, color, opponent_pawns) {
            proof {
                lemma_has_or(result, 1u64 << (sq as u64));
            }
            result = result | (1u64 << (sq as u64));
        }
        rem = rem & (rem - 1);
    }
    result
}

impl Chess {
    fn count_passed_pawns(&self) -> (r: i32)
        ensures
            r == passed_count(*self),
            -64 <= r <= 64,
    {
        reveal(passed_count);
        let white_passed = passed_pawns(self.white_pawns, Color::White, self.black_pawns);
        let black_passed = passed_pawns(self.black_pawns, Color::Black, self.white_pawns);
        proof {
            lemma_popcount_where(white_passed, |i: int| holds(self.white_pawns, i) && passed(i, true, self.black_pawns));
            lemma_popcount_where(black_passed, |i: int| holds(self.black_pawns, i) && passed(i, false, self.white_pawns));
            lemma_count_where_bounds(|i: int| holds(self.white_pawns, i) && passed(i, true, self.black_pawns));
            lemma_count_where_bounds(|i: int| holds(self.black_pawns, i) && passed(i, false, self.white_pawns));
        }
        let mut score: i32 = 0;
        score = score + count_ones(white_passed);
        score = score - count_ones(black_passed);
        score
    }
}

} // verus!

verus! {

/// The number of squares a piece of kind `kind` on `from` attacks that hold no piece of `own`.
pub open spec fn attack_count(kind: Attack, from: int, occ: u64, own: u64) -> int {
    count_where(|t: int| attack_reach(kind, from, occ, t) && !holds(own, t))
}

pub open spec fn attack_count_fn(kind: Attack, occ: u64, own: u64) -> spec_fn(int) -> int {
    |f: int| attack_count(kind, f, occ, own)
}

/// The number of attacked squares without an own piece, summed over the pieces of `pieces`.
fn count_attacks(pieces: BitBoard, own_occ: BitBoard, kind: Attack, occ: BitBoard) -> (r: i32)
    ensures
        r == bb_sum(pieces, attack_count_fn(kind, occ, own_occ)),
        0 <= r <= 4096,
{
    let ghost g = attack_count_fn(kind, occ, own_occ);
    assert forall|i: int| 0 <= i < 64 implies 0 <= #[trigger] g(i) <= 64 by {
        lemma_count_where_bounds(|t: int| attack_reach(kind, i, occ, t) && !holds(own_occ, t));
    }
    let mut count: i32 = 0;
    let mut rem = pieces;
    proof {
        lemma_bb_sum_bounds(rem, g, 0, 64);
    }
    while rem != 0
        invariant
            g == attack_count_fn(kind, occ, own_occ),
            forall|i: int| 0 <= i < 64 ==> 0 <= #[trigger] g(i) <= 64,
            count + bb_sum(rem, g) == bb_sum(pieces, g),
            0 <= bb_sum(rem, g) <= 4096,
            0 <= bb_sum(pieces, g) <= 4096,
        decreases rem,
    {
        let from = bit_scan(rem);
        proof {
            lemma_bb_sum_clear_lowest(rem, g);
            lemma_clear_lowest(rem);
            lemma_bb_sum_bounds(rem & ((rem - 1) as u64), g, 0, 64);
        }
        let att = attacks_from(kind, from, occ);
        proof {
            lemma_has_and_not(att, own_occ);
            lemma_popcount_where(att & !own_occ, |t: int| attack_reach(kind, from as int, occ, t) && !holds(own_occ, t));
        }
        count = count + count_ones(att & !own_occ);
        rem = rem & (rem - 1);
    }
    proof {
        lemma_bb_sum_zero(g);
    }
    count
}

/// The weight of a pawn move onto `t`: four moves (one per promotion piece) on the last rank.
pub open spec fn promotion_weight(t: int, color: Color) -> int {
    if promotion_square(color, t) { 4 } else { 1 }
}

pub open spec fn push_term(f: int, occ: u64, color: Color) -> spec_fn(int) -> int {
    |t: int| if push1_reach(row_of(f), col_of(f), color == Color::White, t) && !holds(occ, t) {
        promotion_weight(t, color)
    } else {
        0
    }
}

pub open spec fn capture_term(f: int, enemy: u64, color: Color) -> spec_fn(int) -> int {
    |t: int| if pawn_attack_reach(row_of(f), col_of(f), color == Color::White, t) && holds(enemy, t) {
        promotion_weight(t, color)
    } else {
        0
    }
}

/// A double push from `f` is open: its destination and the square it passes are empty.
pub open spec fn double_push_open(f: int, occ: u64, color: Color) -> bool {
    let white = color == Color::White;
    exists|t: int|
        #[trigger] push2_reach(row_of(f), col_of(f), white, t) && !holds(
            occ,
            if color == Color::White { f + 8 } else { f - 8 },
        ) && !holds(occ, t)
}

/// The number of pawn moves from `f` (a promotion counting four).
pub open spec fn pawn_moves_from(f: int, own: u64, enemy: u64, color: Color) -> int {
    let occ = own | enemy;
    sum_to(push_term(f, occ, color), 64) + (if double_push_open(f, occ, color) { 1int } else { 0int }) + sum_to(
        capture_term(f, enemy, color),
        64,
    )
}

pub open spec fn pawn_moves_fn(own: u64, enemy: u64, color: Color) -> spec_fn(int) -> int {
    |f: int| pawn_moves_from(f, own, enemy, color)
}

proof fn lemma_pawn_moves_bounds(own: u64, enemy: u64, color: Color)
    ensures
        forall|f: int| 0 <= f < 64 ==> 0 <= #[trigger] pawn_moves_fn(own, enemy, color)(f) <= 513,
{
    assert forall|f: int| 0 <= f < 64 implies 0 <= #[trigger] pawn_moves_fn(own, enemy, color)(f) <= 513 by {
        lemma_sum_to_bounds(push_term(f, own | enemy, color), 64, 0, 4);
        lemma_sum_to_bounds(capture_term(f, enemy, color), 64, 0, 4);
    }
}

fn is_promotion_rank(sq: usize, color: Color) -> (r: bool)
    ensures
        r == promotion_square(color, sq as int),
{
    match color {
        Color::White => sq >= 56,
        Color::Black => sq < 8,
    }
}

/// The weighted number of moves onto the squares of `targets`.
fn count_targets(targets: BitBoard, color: Color) -> (r: i32)
    ensures
        r == bb_sum(targets, |t: int| promotion_weight(t, color)),
        0 <= r <= 256,
{
    let ghost w = |t: int| promotion_weight(t, color);
    let mut count: i32 = 0;
    let mut rem = targets;
    proof {
        lemma_bb_sum_bounds(rem, w, 0, 4);
    }
    while rem != 0
        invariant
            w == (|t: int| promotion_weight(t, color)),
            count + bb_sum(rem, w) == bb_sum(targets, w),
            0 <= bb_sum(rem, w) <= 256,
            0 <= bb_sum(targets, w) <= 256,
        decreases rem,
    {
        let to = bit_scan(rem);
        proof {
            lemma_bb_sum_clear_lowest(rem, w);
            lemma_clear_lowest(rem);
            lemma_bb_sum_bounds(rem & ((rem - 1) as u64), w, 0, 4);
        }
        count = count + if is_promotion_rank(to, color) { 4 } else { 1 };
        rem = rem & (rem - 1);
    }
    proof {
        lemma_bb_sum_zero(w);
    }
    count
}

/// The number of pawn moves of the pawns of `pawns`, a promotion counting four.
fn count_pawn_moves(pawns: BitBoard, own_occ: BitBoard, enemy_occ: BitBoard, color: Color) -> (r: i32)
    ensures
        r == bb_sum(pawns, pawn_moves_fn(own_occ, enemy_occ, color)),
        0 <= r <= 64 * 513,
{
    let ghost g = pawn_moves_fn(own_occ, enemy_occ, color);
    let all_occ = own_occ | enemy_occ;
    let white = match color {
        Color::White => true,
        Color::Black => false,
    };
    proof {
        lemma_pawn_moves_bounds(own_occ, enemy_occ, color);
        lemma_bb_sum_bounds(pawns, g, 0, 513);
    }
    let mut count: i32 = 0;
    let mut rem = pawns;
    while rem != 0
        invariant
            g == pawn_moves_fn(own_occ, enemy_occ, color),
            all_occ == own_occ | enemy_occ,
            white == (color == Color::White),
            forall|f: int| 0 <= f < 64 ==> 0 <= #[trigger] g(f) <= 513,
            count + bb_sum(rem, g) == bb_sum(pawns, g),
            0 <= bb_sum(rem, g) <= 64 * 513,
            0 <= bb_sum(pawns, g) <= 64 * 513,
        decreases rem,
    {
        let from = bit_scan(rem);
        proof {
            lemma_bb_sum_clear_lowest(rem, g);
            lemma_clear_lowest(rem);
            lemma_bb_sum_bounds(rem & ((rem - 1) as u64), g, 0, 513);
        }
        let push1 = pawn_push_1(from, white);
        let single = push1 & !all_occ;
        let single_count = count_targets(single, color);
        proof {
            lemma_has_and_not(push1, all_occ);
            assert(crate::sums::on_board(single, |t: int| promotion_weight(t, color)) =~= push_term(from as int, all_occ, color));
        }
        let double_mask = pawn_push_2(from, white);
        let mut double_count: i32 = 0;
        if double_mask != 0 {
            let to = bit_scan(double_mask);
            proof {
                lemma_lowest(double_mask);
            }
            let intermediate: usize = if white { from + 8 } else { from - 8 };
            let inter_bit: u64 = 1u64 << (intermediate as u64);
            let to_bit: u64 = 1u64 << (to as u64);
            proof {
                lemma_has_single(intermediate as u64);
                lemma_has_single(to as u64);
                lemma_has_and(all_occ, inter_bit);
                lemma_has_and(all_occ, to_bit);
                lemma_nonzero(all_occ & inter_bit);
                lemma_nonzero(all_occ & to_bit);
                assert(holds(all_occ & inter_bit, intermediate as int) == holds(all_occ, intermediate as int));
                assert(holds(all_occ & to_bit, to as int) == holds(all_occ, to as int));
            }
            if (all_occ & inter_bit) == 0 && (all_occ & to_bit) == 0 {
                double_count = 1;
            } else {
                proof {
                    assert forall|t: int| push2_reach(row_of(from as int), col_of(from as int), white, t) implies t == to by {
                        assert(holds(double_mask, t));
                    }
                }
            }
        } else {
            proof {
                lemma_has_zero();
                assert forall|t: int| !push2_reach(row_of(from as int), col_of(from as int), white, t) by {
                    assert(!holds(double_mask, t));
                }
            }
        }
        let att = pawn_attacks(from, white);
        let captures = att & enemy_occ;
        let capture_count = count_targets(captures, color);
        proof {
            lemma_has_and(att, enemy_occ);
            assert(crate::sums::on_board(captures, |t: int| promotion_weight(t, color)) =~= capture_term(from as int, enemy_occ, color));
        }
        count = count + single_count + double_count + capture_count;
        rem = rem & (rem - 1);
    }
    proof {
        lemma_bb_sum_zero(g);
    }
    count
}

/// A pawn on `f` attacks a square of `ep`.
pub open spec fn attacks_ep(f: int, ep: u64, color: Color) -> bool {
    exists|t: int| #[trigger] holds(ep, t) && pawn_attack_reach(row_of(f), col_of(f), color == Color::White, t)
}

pub open spec fn ep_fn(ep: u64, color: Color) -> spec_fn(int) -> int {
    |f: int| if attacks_ep(f, ep, color) { 1int } else { 0int }
}

/// The number of pawns of `pawns` that attack the en-passant square.
fn count_ep_moves(pawns: BitBoard, en_passent: BitBoard, color: Color) -> (r: i32)
    ensures
        r == if en_passent == 0 { 0 } else { bb_sum(pawns, ep_fn(en_passent, color)) },
        0 <= r <= 64,
{
    if en_passent == 0 {
        return 0;
    }
    let ghost g = ep_fn(en_passent, color);
    let white = match color {
        Color::White => true,
        Color::Black => false,
    };
    let mut count: i32 = 0;
    let mut rem = pawns;
    proof {
        lemma_bb_sum_bounds(rem, g, 0, 1);
    }
    while rem != 0
        invariant
            g == ep_fn(en_passent, color),
            white == (color == Color::White),
            count + bb_sum(rem, g) == bb_sum(pawns, g),
            0 <= bb_sum(rem, g) <= 64,
            0 <= bb_sum(pawns, g) <= 64,
        decreases rem,
    {
        let from = bit_scan(rem);
        proof {
            lemma_bb_sum_clear_lowest(rem, g);
            lemma_clear_lowest(rem);
            lemma_bb_sum_bounds(rem & ((rem - 1) as u64), g, 0, 1);
        }
        let attacks = pawn_attacks(from, white);
        proof {
            lemma_has_and(attacks, en_passent);
            lemma_nonzero(attacks & en_passent);
            if attacks_ep(from as int, en_passent, color) {
                let t = choose|t: int| #[trigger] holds(en_passent, t) && pawn_attack_reach(
                    row_of(from as int),
                    col_of(from as int),
                    white,
                    t,
                );
                assert(holds(attacks & en_passent, t));
            }
        }
        if attacks & en_passent != 0 {
            count = count + 1;
        }
        rem = rem & (rem - 1);
    }
    proof {
        lemma_bb_sum_zero(g);
    }
    count
}

/// Mobility: pseudo-legal moves of the knights, bishops, rooks, queens and pawns of `color`
/// (a promotion counting four) and its en-passant captures; king moves do not count.
#[verifier::opaque]
pub open spec fn mobility(b: Chess, color: Color) -> int {
    let own = b.side_occ(color);
    let enemy = b.side_occ(color.opponent());
    let occ = own | enemy;
    bb_sum(b.bitboard_of(knight_of(color)), attack_count_fn(Attack::Knight, occ, own)) + bb_sum(
        b.bitboard_of(bishop_of(color)),
        attack_count_fn(Attack::Bishop, occ, own),
    ) + bb_sum(b.bitboard_of(rook_piece_of(color)), attack_count_fn(Attack::Rook, occ, own)) + bb_sum(
        b.bitboard_of(queen_of(color)),
        attack_count_fn(Attack::Queen, occ, own),
    ) + bb_sum(b.bitboard_of(pawn_of(color)), pawn_moves_fn(own, enemy, color)) + (if b.en_passent != 0 {
        bb_sum(b.bitboard_of(pawn_of(color)), ep_fn(b.en_passent, color))
    } else {
        0
    })
}

impl Chess {
    fn count_pseudolegal_moves(&self, color: Color) -> (r: i32)
        requires
            self.wf(),
        ensures
            r == mobility(*self, color),
            0 <= r <= 4 * 4096 + 64 * 513 + 64,
    {
        reveal(mobility);
        let (rooks, knights, bishops, queens, pawns, own_occ, enemy_occ) = match color {
            Color::White => (
                self.white_rooks,
                self.white_knights,
                self.white_bishops,
                self.white_queens,
                self.white_pawns,
                self.white_occupancy(),
                self.black_occupancy(),
            ),
            Color::Black => (
                self.black_rooks,
                self.black_knights,
                self.black_bishops,
                self.black_queens,
                self.black_pawns,
                self.black_occupancy(),
                self.white_occupancy(),
            ),
        };
        let all_occ: BitBoard = own_occ | enemy_occ;
        let mut count: i32 = 0;
        count = count + count_attacks(knights, own_occ, Attack::Knight, all_occ);
        count = count + count_attacks(bishops, own_occ, Attack::Bishop, all_occ);
        count = count + count_attacks(rooks, own_occ, Attack::Rook, all_occ);
        count = count + count_attacks(queens, own_occ, Attack::Queen, all_occ);
        count = count + count_pawn_moves(pawns, own_occ, enemy_occ, color);
        if self.en_passent != 0 {
            count = count + count_ep_moves(pawns, self.en_passent, color);
        }
        count
    }
}

} // verus!

verus! {

/// File `f` is the king's file `kf` or next to it.
pub open spec fn adjacent_file(f: int, kf: int) -> bool {
    0 <= f < 8 && -1 <= f - kf <= 1
}

/// Square `t` lies `step` ranks in front of the king on `ksq` (forward for White when
/// `white`), on the king's file or an adjacent one.
pub open spec fn shield_square(t: int, ksq: int, white: bool, step: int) -> bool {
    let r = if white { ksq / 8 + step } else { ksq / 8 - step };
    0 <= r < 8 && 0 <= t < 64 && t / 8 == r && adjacent_file(t % 8, ksq % 8)
}

/// Pawn shield and pawn storm: own pawns one or two ranks in front of the king count 15 each,
/// enemy pawns there cost 30 (one rank) or 10 (two ranks).
pub open spec fn shield_score(own_pawns: u64, enemy_pawns: u64, ksq: int, white: bool) -> int {
    15 * count_where(|t: int| holds(own_pawns, t) && (shield_square(t, ksq, white, 1) || shield_square(t, ksq, white, 2)))
        - 30 * count_where(|t: int| holds(enemy_pawns, t) && shield_square(t, ksq, white, 1)) - 10 * count_where(
        |t: int| holds(enemy_pawns, t) && shield_square(t, ksq, white, 2),
    )
}

/// The squares `step` ranks in front of the king, on its file and the adjacent ones.
fn shield_mask(king_sq: usize, white: bool, step: usize) -> (m: BitBoard)
    requires
        king_sq < 64,
        1 <= step <= 2,
    ensures
        forall|t: int| #[trigger] holds(m, t) == shield_square(t, king_sq as int, white, step as int),
{
    let king_file = king_sq % 8;
    let kr = (king_sq / 8) as i32;
    let rank: Option<i32> = if white {
        if kr + (step as i32) < 8 { Some(kr + step as i32) } else { None }
    } else {
        if kr - (step as i32) >= 0 { Some(kr - step as i32) } else { None }
    };
    let mut m: BitBoard = 0;
    proof {
        lemma_has_zero();
    }
    if let Some(r) = rank {
        let mut d: usize = 0;
        while d < 3
            invariant
                king_sq < 64,
                king_file == king_sq % 8,
                0 <= r < 8,
                r == if white { king_sq / 8 + step } else { king_sq / 8 - step },
                d <= 3,
                forall|t: int| #[trigger] holds(m, t) == (0 <= t < 64 && t / 8 == r && adjacent_file(t % 8, (king_sq % 8) as int)
                    && t % 8 < king_file + d - 1),
            decreases 3 - d,
        {
            if king_file + d >= 1 && king_file + d - 1 < 8 {
                let f = king_file + d - 1;
                let sq = (r as usize) * 8 + f;
                proof {
                    lemma_has_single(sq as u64);
                    lemma_has_or(m, 1u64 << (sq as u64));
                }
                m = m | (1u64 << (sq as u64));
            }
            d = d + 1;
        }
    } else {
        proof {
            assert forall|t: int| !#[trigger] shield_square(t, king_sq as int, white, step as int) by {
            }
        }
    }
    m
}

fn pawn_shield_score(own_pawns: BitBoard, enemy_pawns: BitBoard, king_sq: usize, white: bool) -> (r: i32)
    requires
        king_sq < 64,
    ensures
        r == shield_score(own_pawns, enemy_pawns, king_sq as int, white),
        -2560 <= r <= 960,
{
    let front_shield = shield_mask(king_sq, white, 1);
    let deep_shield = shield_mask(king_sq, white, 2);
    let shield = front_shield | deep_shield;
    proof {
        lemma_has_or(front_shield, deep_shield);
        lemma_has_and(own_pawns, shield);
        lemma_has_and(enemy_pawns, front_shield);
        lemma_has_and(enemy_pawns, deep_shield);
        let ksq = king_sq as int;
        lemma_popcount_where(own_pawns & shield, |t: int| holds(own_pawns, t) && (shield_square(t, ksq, white, 1)
            || shield_square(t, ksq, white, 2)));
        lemma_popcount_where(enemy_pawns & front_shield, |t: int| holds(enemy_pawns, t) && shield_square(t, ksq, white, 1));
        lemma_popcount_where(enemy_pawns & deep_shield, |t: int| holds(enemy_pawns, t) && shield_square(t, ksq, white, 2));
    }
    let shield_count = count_ones(own_pawns & shield);
    let storm_front = count_ones(enemy_pawns & front_shield);
    let storm_deep = count_ones(enemy_pawns & deep_shield);
    shield_count * 15 - storm_front * 30 - storm_deep * 10
}

} // verus!

verus! {

/// Square `t` is the king's square or next to it.
pub open spec fn in_zone(king: u64, ksq: int, t: int) -> bool {
    king_reach(row_of(ksq), col_of(ksq), t) || holds(king, t)
}

/// A piece of kind `kind` on `sq` attacks a square of the king zone.
pub open spec fn hits_zone(kind: Attack, sq: int, occ: u64, king: u64, ksq: int) -> bool {
    exists|t: int| #[trigger] attack_reach(kind, sq, occ, t) && in_zone(king, ksq, t)
}

pub open spec fn zone_fn(kind: Attack, occ: u64, king: u64, ksq: int, w: int) -> spec_fn(int) -> int {
    |sq: int| if hits_zone(kind, sq, occ, king, ksq) { w } else { 0 }
}

/// An enemy pawn attacks square `t` (enemy pawns move up the board when `enemy_white`).
pub open spec fn pawn_attacked(enemy_pawns: u64, enemy_white: bool, t: int) -> bool {
    exists|p: int| #[trigger] holds(enemy_pawns, p) && pawn_attack_reach(row_of(p), col_of(p), enemy_white, t)
}

/// The squares the pawns of `pawns` attack.
fn pawn_attack_set(pawns: BitBoard, white: bool) -> (r: BitBoard)
    ensures
        forall|t: int| #[trigger] holds(r, t) == pawn_attacked(pawns, white, t),
{
    let mut result: BitBoard = 0;
    let mut rem = pawns;
    proof {
        lemma_has_zero();
    }
    while rem != 0
        invariant
            forall|i: int| #[trigger] holds(rem, i) ==> holds(pawns, i),
            forall|t: int| #[trigger] holds(result, t) == exists|p: int| #[trigger] holds(pawns, p) && !holds(rem, p)
                && pawn_attack_reach(row_of(p), col_of(p), white, t),
        decreases rem,
    {
        let sq = bit_scan(rem);
        proof {
            lemma_lowest(rem);
            lemma_clear_lowest(rem);
        }
        let att = pawn_attacks(sq, white);
        proof {
            lemma_has_or(result, att);
        }
        result = result | att;
        rem = rem & (rem - 1);
        proof {
            assert forall|t: int| #[trigger] holds(result, t) == exists|p: int| #[trigger] holds(pawns, p) && !holds(rem, p)
                && pawn_attack_reach(row_of(p), col_of(p), white, t) by {
                if holds(att, t) {
                    assert(holds(pawns, sq as int) && !holds(rem, sq as int));
                }
            }
        }
    }
    proof {
        lemma_has_zero();
        assert forall|t: int| #[trigger] holds(result, t) == pawn_attacked(pawns, white, t) by {
            if pawn_attacked(pawns, white, t) {
                let p = choose|p: int| #[trigger] holds(pawns, p) && pawn_attack_reach(row_of(p), col_of(p), white, t);
                assert(!holds(rem, p));
            }
        }
    }
    result
}

/// `w` for each piece of `pieces` that attacks the king zone.
fn zone_attackers(pieces: BitBoard, kind: Attack, occ: BitBoard, king_zone: BitBoard, king: BitBoard, king_sq: usize, w: i32) -> (r: i32)
    requires
        0 <= w <= 45,
        king_sq < 64,
        forall|t: int| #[trigger] holds(king_zone, t) == in_zone(king, king_sq as int, t),
    ensures
        r == bb_sum(pieces, zone_fn(kind, occ, king, king_sq as int, w as int)),
        0 <= r <= 64 * 45,
{
    let ghost g = zone_fn(kind, occ, king, king_sq as int, w as int);
    let mut score: i32 = 0;
    let mut rem = pieces;
    proof {
        lemma_bb_sum_bounds(rem, g, 0, 45);
    }
    while rem != 0
        invariant
            0 <= w <= 45,
            king_sq < 64,
            forall|t: int| #[trigger] holds(king_zone, t) == in_zone(king, king_sq as int, t),
            g == zone_fn(kind, occ, king, king_sq as int, w as int),
            score + bb_sum(rem, g) == bb_sum(pieces, g),
            0 <= bb_sum(rem, g) <= 64 * 45,
            0 <= bb_sum(pieces, g) <= 64 * 45,
        decreases rem,
    {
        let sq = bit_scan(rem);
        proof {
            lemma_bb_sum_clear_lowest(rem, g);
            lemma_clear_lowest(rem);
            lemma_bb_sum_bounds(rem & ((rem - 1) as u64), g, 0, 45);
        }
        let att = attacks_from(kind, sq, occ);
        proof {
            lemma_has_and(att, king_zone);
            lemma_nonzero(att & king_zone);
            if hits_zone(kind, sq as int, occ, king, king_sq as int) {
                let t = choose|t: int| #[trigger] attack_reach(kind, sq as int, occ, t) && in_zone(king, king_sq as int, t);
                assert(holds(att & king_zone, t));
            }
        }
        if att & king_zone != 0 {
            score = score + w;
        }
        rem = rem & (rem - 1);
    }
    proof {
        lemma_bb_sum_zero(g);
    }
    score
}

/// Chebyshev distance between squares `sq` and `k`.
pub open spec fn chebyshev(sq: int, k: int) -> int {
    let df = if sq % 8 >= k % 8 { sq % 8 - k % 8 } else { k % 8 - sq % 8 };
    let dr = if sq / 8 >= k / 8 { sq / 8 - k / 8 } else { k / 8 - sq / 8 };
    if df >= dr { df } else { dr }
}

pub open spec fn tropism_fn(ksq: int, w: int) -> spec_fn(int) -> int {
    |sq: int| (6 - (if chebyshev(sq, ksq) < 6 { chebyshev(sq, ksq) } else { 6 })) * w
}

/// King tropism: for each piece of `pieces`, `w` times how much closer than six squares it is
/// to the king.
fn tropism(pieces: BitBoard, king_sq: usize, w: i32) -> (r: i32)
    requires
        0 <= w <= 30,
        king_sq < 64,
    ensures
        r == bb_sum(pieces, tropism_fn(king_sq as int, w as int)),
        0 <= r <= 64 * 180,
{
    let ghost g = tropism_fn(king_sq as int, w as int);
    assert forall|i: int| 0 <= i < 64 implies 0 <= #[trigger] g(i) <= 180 by {
        assert(0 <= chebyshev(i, king_sq as int));
        assert((6 - (if chebyshev(i, king_sq as int) < 6 { chebyshev(i, king_sq as int) } else { 6 })) * w <= 6 * 30)
            by (nonlinear_arith)
            requires
                0 <= w <= 30,
                0 <= chebyshev(i, king_sq as int),
        ;
        assert(0 <= (6 - (if chebyshev(i, king_sq as int) < 6 { chebyshev(i, king_sq as int) } else { 6 })) * w)
            by (nonlinear_arith)
            requires
                0 <= w,
                0 <= chebyshev(i, king_sq as int),
        ;
    }
    let kf = (king_sq % 8) as i32;
    let kr = (king_sq / 8) as i32;
    let mut score: i32 = 0;
    let mut rem = pieces;
    proof {
        lemma_bb_sum_bounds(rem, g, 0, 180);
    }
    while rem != 0
        invariant
            0 <= w <= 30,
            king_sq < 64,
            kf == king_sq % 8,
            kr == king_sq / 8,
            g == tropism_fn(king_sq as int, w as int),
            forall|i: int| 0 <= i < 64 ==> 0 <= #[trigger] g(i) <= 180,
            score + bb_sum(rem, g) == bb_sum(pieces, g),
            0 <= bb_sum(rem, g) <= 64 * 180,
            0 <= bb_sum(pieces, g) <= 64 * 180,
        decreases rem,
    {
        let sq = bit_scan(rem);
        proof {
            lemma_bb_sum_clear_lowest(rem, g);
            lemma_clear_lowest(rem);
            lemma_bb_sum_bounds(rem & ((rem - 1) as u64), g, 0, 180);
        }
        let file_diff = (sq % 8) as i32 - kf;
        let rank_diff = (sq / 8) as i32 - kr;
        let df = if file_diff < 0 { -file_diff } else { file_diff };
        let dr = if rank_diff < 0 { -rank_diff } else { rank_diff };
        let cheb = if df >= dr { df } else { dr };
        let capped = if cheb < 6 { cheb } else { 6 };
        score = score + (6 - capped) * w;
        rem = rem & (rem - 1);
    }
    proof {
        lemma_bb_sum_zero(g);
    }
    score
}

} // verus!

verus! {

/// A pawn of `pawns` stands on file `f`.
pub open spec fn pawn_on_file(pawns: u64, f: int) -> bool {
    exists|t: int| #[trigger] holds(pawns, t) && t % 8 == f
}

/// Penalty for a file next to the king without own pawns: more when enemy pawns are gone too,
/// and more on the king's own file.
pub open spec fn file_penalty(own: u64, enemy: u64, f: int, kf: int) -> int {
    if pawn_on_file(own, f) {
        0
    } else if !pawn_on_file(enemy, f) {
        if f == kf { 30 } else { 15 }
    } else {
        if f == kf { 15 } else { 8 }
    }
}

pub open spec fn open_file_score(own: u64, enemy: u64, kf: int) -> int {
    (if kf > 0 { file_penalty(own, enemy, kf - 1, kf) } else { 0 }) + file_penalty(own, enemy, kf, kf) + (if kf < 7 {
        file_penalty(own, enemy, kf + 1, kf)
    } else {
        0
    })
}

fn file_penalty_of(own_pawns: BitBoard, enemy_pawns: BitBoard, f: usize, king_file: usize) -> (r: i32)
    requires
        f < 8,
    ensures
        r == file_penalty(own_pawns, enemy_pawns, f as int, king_file as int),
{
    let file_bb = file_mask(f);
    proof {
        lemma_has_and(own_pawns, file_bb);
        lemma_has_and(enemy_pawns, file_bb);
        lemma_nonzero(own_pawns & file_bb);
        lemma_nonzero(enemy_pawns & file_bb);
        if pawn_on_file(own_pawns, f as int) {
            let t = choose|t: int| #[trigger] holds(own_pawns, t) && t % 8 == f;
            assert(holds(own_pawns & file_bb, t));
        }
        if pawn_on_file(enemy_pawns, f as int) {
            let t = choose|t: int| #[trigger] holds(enemy_pawns, t) && t % 8 == f;
            assert(holds(enemy_pawns & file_bb, t));
        }
    }
    let has_friendly = (own_pawns & file_bb) != 0;
    if has_friendly {
        return 0;
    }
    let is_king_file = f == king_file;
    let has_enemy = (enemy_pawns & file_bb) != 0;
    if !has_enemy {
        if is_king_file { 30 } else { 15 }
    } else {
        if is_king_file { 15 } else { 8 }
    }
}

fn open_files(own_pawns: BitBoard, enemy_pawns: BitBoard, king_file: usize) -> (r: i32)
    requires
        king_file < 8,
    ensures
        r == open_file_score(own_pawns, enemy_pawns, king_file as int),
        0 <= r <= 60,
{
    let mut score: i32 = 0;
    if king_file > 0 {
        score = score + file_penalty_of(own_pawns, enemy_pawns, king_file - 1, king_file);
    }
    score = score + file_penalty_of(own_pawns, enemy_pawns, king_file, king_file);
    if king_file < 7 {
        score = score + file_penalty_of(own_pawns, enemy_pawns, king_file + 1, king_file);
    }
    score
}

/// Enemy pieces that give check from where they stand: pawns 15 (counted with the pawn pattern
/// of the king's own side), knights 35, bishops 25, rooks 35, queens 50.
pub open spec fn check_score(
    pawns: u64,
    knights: u64,
    bishops: u64,
    rooks: u64,
    queens: u64,
    ksq: int,
    occ: u64,
    white: bool,
) -> int {
    15 * count_where(|t: int| holds(pawns, t) && pawn_attack_reach(row_of(ksq), col_of(ksq), !white, t)) + 35
        * count_where(|t: int| holds(knights, t) && knight_reach(row_of(ksq), col_of(ksq), t)) + 25 * count_where(
        |t: int| holds(bishops, t) && diagonal_reach(ksq, occ, t),
    ) + 35 * count_where(|t: int| holds(rooks, t) && straight_reach(ksq, occ, t)) + 50 * count_where(
        |t: int| holds(queens, t) && (diagonal_reach(ksq, occ, t) || straight_reach(ksq, occ, t)),
    )
}

fn safe_checks(
    pawns: BitBoard,
    knights: BitBoard,
    bishops: BitBoard,
    rooks: BitBoard,
    queens: BitBoard,
    king_sq: usize,
    occ: BitBoard,
    white: bool,
) -> (r: i32)
    requires
        king_sq < 64,
    ensures
        r == check_score(pawns, knights, bishops, rooks, queens, king_sq as int, occ, white),
        0 <= r <= 64 * 160,
{
    let diag_atk = diagonal_attacks(king_sq, occ);
    let strt_atk = straight_attacks(king_sq, occ);
    let pawn_pattern = pawn_attacks(king_sq, !white);
    let knight_pattern = knight_moves(king_sq);
    let ghost ksq = king_sq as int;
    proof {
        lemma_has_and(pawns, pawn_pattern);
        lemma_has_and(knights, knight_pattern);
        lemma_has_and(diag_atk, bishops);
        lemma_has_and(strt_atk, rooks);
        lemma_has_or(diag_atk, strt_atk);
        lemma_has_and(diag_atk | strt_atk, queens);
        lemma_popcount_where(pawns & pawn_pattern, |t: int| holds(pawns, t) && pawn_attack_reach(row_of(ksq), col_of(ksq), !white, t));
        lemma_popcount_where(knights & knight_pattern, |t: int| holds(knights, t) && knight_reach(row_of(ksq), col_of(ksq), t));
        lemma_popcount_where(diag_atk & bishops, |t: int| holds(bishops, t) && diagonal_reach(ksq, occ, t));
        lemma_popcount_where(strt_atk & rooks, |t: int| holds(rooks, t) && straight_reach(ksq, occ, t));
        lemma_popcount_where((diag_atk | strt_atk) & queens, |t: int| holds(queens, t) && (diagonal_reach(ksq, occ, t)
            || straight_reach(ksq, occ, t)));
    }
    let pawn_checks = count_ones(pawns & pawn_pattern);
    let knight_checks = count_ones(knights & knight_pattern);
    let bishop_checks = count_ones(diag_atk & bishops);
    let rook_checks = count_ones(strt_atk & rooks);
    let queen_checks = count_ones((diag_atk | strt_atk) & queens);
    pawn_checks * 15 + knight_checks * 35 + bishop_checks * 25 + rook_checks * 35 + queen_checks * 50
}

} // verus!

verus! {

/// The king of `c` (its lowest square) has the enemy king next to it.
pub open spec fn kings_adjacent(b: Chess, c: Color) -> bool {
    let ksq = lowest(b.bitboard_of(king_of(c)));
    exists|t: int| #[trigger] king_reach(row_of(ksq), col_of(ksq), t) && holds(b.bitboard_of(king_of(c.opponent())), t)
}

/// King safety of side `c`, higher being safer: the pawn shield, attacks on the king zone,
/// tropism of the enemy pieces, open files near the king, and enemy pieces giving check.
#[verifier::opaque]
pub open spec fn king_safety_score(b: Chess, c: Color) -> int {
    let white = c == Color::White;
    let e = c.opponent();
    let king = b.bitboard_of(king_of(c));
    let ksq = lowest(king);
    let own_pawns = b.bitboard_of(pawn_of(c));
    let enemy_pawns = b.bitboard_of(pawn_of(e));
    let knights = b.bitboard_of(knight_of(e));
    let bishops = b.bitboard_of(bishop_of(e));
    let rooks = b.bitboard_of(rook_piece_of(e));
    let queens = b.bitboard_of(queen_of(e));
    let occ = b.side_occ(c) | b.side_occ(e);
    let adjacent = if kings_adjacent(b, c) { 10int } else { 0int };
    shield_score(own_pawns, enemy_pawns, ksq, white)
        - 10 * count_where(|t: int| in_zone(king, ksq, t) && pawn_attacked(enemy_pawns, !white, t))
        - bb_sum(knights, zone_fn(Attack::Knight, occ, king, ksq, 25))
        - bb_sum(bishops, zone_fn(Attack::Bishop, occ, king, ksq, 20))
        - bb_sum(rooks, zone_fn(Attack::Rook, occ, king, ksq, 30))
        - bb_sum(queens, zone_fn(Attack::Queen, occ, king, ksq, 45))
        - adjacent
        - (bb_sum(knights, tropism_fn(ksq, 10)) + bb_sum(bishops, tropism_fn(ksq, 10)) + bb_sum(
        rooks,
        tropism_fn(ksq, 15),
    ) + bb_sum(queens, tropism_fn(ksq, 30)))
        - open_file_score(own_pawns, enemy_pawns, ksq % 8)
        - check_score(enemy_pawns, knights, bishops, rooks, queens, ksq, occ, white)
        - adjacent
}

impl Chess {
    fn king_safety(&self, color: &Color) -> (r: i32)
        requires
            self.wf(),
            self.bitboard_of(king_of(*color)) != 0,
        ensures
            r == king_safety_score(*self, *color),
            -80000 <= r <= 1000,
    {
        reveal(king_safety_score);
        let (king, own_pawns, enemy_pawns, enemy_knights, enemy_bishops, enemy_rooks, enemy_queens, enemy_king, own_occ, enemy_occ) =
            match color {
            Color::White => (
                self.white_king,
                self.white_pawns,
                self.black_pawns,
                self.black_knights,
                self.black_bishops,
                self.black_rooks,
                self.black_queens,
                self.black_king,
                self.white_occupancy(),
                self.black_occupancy(),
            ),
            Color::Black => (
                self.black_king,
                self.black_pawns,
                self.white_pawns,
                self.white_knights,
                self.white_bishops,
                self.white_rooks,
                self.white_queens,
                self.white_king,
                self.black_occupancy(),
                self.white_occupancy(),
            ),
        };
        let white = match color {
            Color::White => true,
            Color::Black => false,
        };
        let all_occ: BitBoard = own_occ | enemy_occ;
        let king_sq = bit_scan(king);
        let king_file = king_sq % 8;
        let king_moves_bb = king_moves(king_sq);
        let king_zone = king_moves_bb | king;
        proof {
            lemma_has_or(king_moves_bb, king);
        }
        let mut score: i32 = 0;
        score = score + pawn_shield_score(own_pawns, enemy_pawns, king_sq, white);
        let pawn_attacks_bb = pawn_attack_set(enemy_pawns, !white);
        proof {
            lemma_has_and(pawn_attacks_bb, king_zone);
            lemma_popcount_where(pawn_attacks_bb & king_zone, |t: int| in_zone(king, king_sq as int, t) && pawn_attacked(
                enemy_pawns,
                !white,
                t,
            ));
        }
        score = score - count_ones(pawn_attacks_bb & king_zone) * 10;
        score = score - zone_attackers(enemy_knights, Attack::Knight, all_occ, king_zone, king, king_sq, 25);
        score = score - zone_attackers(enemy_bishops, Attack::Bishop, all_occ, king_zone, king, king_sq, 20);
        score = score - zone_attackers(enemy_rooks, Attack::Rook, all_occ, king_zone, king, king_sq, 30);
        score = score - zone_attackers(enemy_queens, Attack::Queen, all_occ, king_zone, king, king_sq, 45);
        proof {
            lemma_has_and(king_moves_bb, enemy_king);
            lemma_nonzero(king_moves_bb & enemy_king);
            if kings_adjacent(*self, *color) {
                let t = choose|t: int| #[trigger] king_reach(row_of(king_sq as int), col_of(king_sq as int), t)
                    && holds(enemy_king, t);
                assert(holds(king_moves_bb & enemy_king, t));
            }
        }
        let adjacent = king_moves_bb & enemy_king != 0;
        if adjacent {
            score = score - 10;
        }
        let mut trop: i32 = 0;
        trop = trop + tropism(enemy_knights, king_sq, 10);
        trop = trop + tropism(enemy_bishops, king_sq, 10);
        trop = trop + tropism(enemy_rooks, king_sq, 15);
        trop = trop + tropism(enemy_queens, king_sq, 30);
        score = score - trop;
        score = score - open_files(own_pawns, enemy_pawns, king_file);
        score = score - safe_checks(enemy_pawns, enemy_knights, enemy_bishops, enemy_rooks, enemy_queens, king_sq, all_occ, white);
        if adjacent {
            score = score - 10;
        }
        proof {
            assert(king == self.bitboard_of(king_of(*color)));
            assert(own_pawns == self.bitboard_of(pawn_of(*color)));
            assert(enemy_pawns == self.bitboard_of(pawn_of(color.opponent())));
            assert(enemy_knights == self.bitboard_of(knight_of(color.opponent())));
            assert(enemy_bishops == self.bitboard_of(bishop_of(color.opponent())));
            assert(enemy_rooks == self.bitboard_of(rook_piece_of(color.opponent())));
            assert(enemy_queens == self.bitboard_of(queen_of(color.opponent())));
            assert(enemy_king == self.bitboard_of(king_of(color.opponent())));
        }
        score
    }
}

} // verus!

verus! {

/// Division rounding toward zero, as integer division does in code.
pub open spec fn trunc_div(a: int, b: int) -> int {
    if a >= 0 { a / b } else { -((-a) / b) }
}

} // verus!

verus! {

/// `r` is the integer square root of `n`: the largest number whose square is at most `n`.
pub open spec fn is_isqrt(r: int, n: int) -> bool {
    0 <= r && r * r <= n < (r + 1) * (r + 1)
}

pub open spec fn isqrt_of(n: int) -> int {
    choose|r: int| is_isqrt(r, n)
}

proof fn lemma_isqrt_unique(r: int, s: int, n: int)
    requires
        is_isqrt(r, n),
        is_isqrt(s, n),
    ensures
        r == s,
{
    if r < s {
        assert((r + 1) * (r + 1) <= s * s) by (nonlinear_arith)
            requires
                0 <= r < s,
        ;
    } else if s < r {
        assert((s + 1) * (s + 1) <= r * r) by (nonlinear_arith)
            requires
                0 <= s < r,
        ;
    }
}

/// Integer square root (what `i32::isqrt` computes).
fn isqrt(n: i32) -> (r: i32)
    requires
        0 <= n <= 100000,
    ensures
        r == isqrt_of(n as int),
        0 <= r <= 317,
{
    let mut r: i64 = 0;
    loop
        invariant
            0 <= n <= 100000,
            0 <= r <= 317,
            r * r <= n,
        ensures
            0 <= r <= 317,
            r * r <= n < (r + 1) * (r + 1),
        decreases 317 - r,
    {
        let next = r + 1;
        assert(next * next <= 318 * 318) by (nonlinear_arith)
            requires
                0 <= next <= 318,
        ;
        if next * next > n as i64 {
            break;
        }
        assert(next <= 316) by (nonlinear_arith)
            requires
                0 <= next,
                next * next <= 100000,
        ;
        r = next;
    }
    proof {
        assert(is_isqrt(r as int, n as int));
        lemma_isqrt_unique(r as int, isqrt_of(n as int), n as int);
    }
    r as i32
}

} // verus!

verus! {

/// The board's position occurred at least twice before, since the last capture or pawn move.
pub open spec fn repeated(b: Chess) -> bool {
    occurrences(last_n(b.history@, b.halfmove_clock as nat), b.hash) >= 2
}

/// Development in the opening: knights and bishops still on their home squares cost 10, pawns
/// in the centre earn 20, White minus Black.
#[verifier::opaque]
pub open spec fn development(b: Chess) -> int {
    -10 * popcount(b.white_knights & 0x42u64) - 10 * popcount(b.white_bishops & 0x24u64) + 10 * popcount(
        b.black_knights & 0x4200000000000000u64,
    ) + 10 * popcount(b.black_bishops & 0x2400000000000000u64) + 20 * popcount(b.white_pawns & 0x0000001818000000u64)
        - 20 * popcount(b.black_pawns & 0x0000001818000000u64)
}

/// The evaluation in centipawns, positive when White stands better: 0 for a draw by the
/// fifty-move rule or by repetition, else material, the piece-square score blended by game
/// phase, the square roots of both sides' mobility, king safety, development while the phase
/// is above 18, the bishop pair and passed pawns.
pub open spec fn evaluation(b: Chess) -> int {
    if b.halfmove_clock >= 100 {
        0
    } else if repeated(b) {
        0
    } else {
        let phase = game_phase(b);
        material(b) + trunc_div(pst_score(b, true) * phase + pst_score(b, false) * (24 - phase), 24) + isqrt_of(
            mobility(b, Color::White),
        ) - isqrt_of(mobility(b, Color::Black)) + king_safety_score(b, Color::White) - king_safety_score(
            b,
            Color::Black,
        ) + (if phase > 18 { development(b) } else { 0 }) + (if popcount(b.white_bishops) >= 2 { 30int } else { 0int })
            - (if popcount(b.black_bishops) >= 2 { 30int } else { 0int }) + passed_count(b) * 50
    }
}

/// Both sides have a king on the board.
pub open spec fn kings_present(b: Chess) -> bool {
    b.white_king != 0 && b.black_king != 0
}

impl Chess {
    fn development_bonus(&self) -> (r: i32)
        ensures
            r == development(*self),
            -5120 <= r <= 5120,
    {
        reveal(development);
        proof {
            lemma_popcount_bounds(self.white_knights & 0x42u64);
            lemma_popcount_bounds(self.white_bishops & 0x24u64);
            lemma_popcount_bounds(self.black_knights & 0x4200000000000000u64);
            lemma_popcount_bounds(self.black_bishops & 0x2400000000000000u64);
            lemma_popcount_bounds(self.white_pawns & 0x0000001818000000u64);
            lemma_popcount_bounds(self.black_pawns & 0x0000001818000000u64);
        }
        let mut score: i32 = 0;
        score = score - 10 * count_ones(self.white_knights & 0x42u64);
        score = score - 10 * count_ones(self.white_bishops & 0x24u64);
        score = score + 10 * count_ones(self.black_knights & 0x4200000000000000u64);
        score = score + 10 * count_ones(self.black_bishops & 0x2400000000000000u64);
        score = score + 20 * count_ones(self.white_pawns & 0x0000001818000000u64);
        score = score - 20 * count_ones(self.black_pawns & 0x0000001818000000u64);
        score
    }

    /// The evaluation from White's point of view (negative when Black stands better).
    pub fn evaluate(&self) -> (r: i32)
        requires
            self.wf(),
            kings_present(*self),
        ensures
            r == evaluation(*self),
            -1_000_000 <= r <= 1_000_000,
    {
        if self.halfmove_clock >= 100 {
            return 0;
        }
        if self.history.is_repetition(self) {
            return 0;
        }
        let mut score: i32 = 0;
        score = score + self.material_score();
        let mg_score = self.calculate_pst_score(true);
        let eg_score = self.calculate_pst_score(false);
        let phase = self.get_game_phase();
        proof {
            assert(-38400 * 24 <= mg_score * phase <= 38400 * 24) by (nonlinear_arith)
                requires
                    -38400 <= mg_score <= 38400,
                    0 <= phase <= 24,
            ;
            assert(-38400 * 24 <= eg_score * (24 - phase) <= 38400 * 24) by (nonlinear_arith)
                requires
                    -38400 <= eg_score <= 38400,
                    0 <= phase <= 24,
            ;
        }
        let blended = (mg_score * phase + eg_score * (24 - phase)) / 24;
        score = score + blended;
        let white_mobility = self.count_pseudolegal_moves(Color::White);
        let black_mobility = self.count_pseudolegal_moves(Color::Black);
        score = score + isqrt(white_mobility);
        score = score - isqrt(black_mobility);
        proof {
            assert(self.bitboard_of(king_of(Color::White)) == self.white_king);
            assert(self.bitboard_of(king_of(Color::Black)) == self.black_king);
        }
        score = score + self.king_safety(&Color::White);
        score = score - self.king_safety(&Color::Black);
        if phase > 18 {
            score = score + self.development_bonus();
        }
        if count_ones(self.white_bishops) >= 2 {
            score = score + 30;
        }
        if count_ones(self.black_bishops) >= 2 {
            score = score - 30;
        }
        let passed_pawns_count = self.count_passed_pawns();
        score = score + passed_pawns_count * 50;
        score
    }

    /// The evaluation from the point of view of the side to move.
    pub fn evaluate_stm(&self) -> (r: i32)
        requires
            self.wf(),
            kings_present(*self),
        ensures
            r == if self.active_color == Color::White { evaluation(*self) } else { -evaluation(*self) },
            -1_000_000 <= r <= 1_000_000,
    {
        let score = self.evaluate();
        if self.active_color == Color::White {
            score
        } else {
            -score
        }
    }
}

} // verus!
