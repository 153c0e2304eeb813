//! Pawn pushes and pawn attacks.
use vstd::prelude::*;
use crate::bits::holds;
use crate::moves::geometry::{pawn_attack_reach, row_of, col_of, lemma_square_of};
use crate::utils::{BitBoard, set_bit, on_board, square_of};

verus! {

/// The single push of a pawn on (row, col): one row forward, never from the first or last row.
pub open spec fn push1_reach(row: int, col: int, white: bool, t: int) -> bool {
    row != 1 && row != 8 && {
        let r = if white { row + 1 } else { row - 1 };
        on_board(r, col) && t == square_of(r, col)
    }
}

/// The double push of a pawn on its starting row.
pub open spec fn push2_reach(row: int, col: int, white: bool, t: int) -> bool {
    if white {
        row == 2 && on_board(4, col) && t == square_of(4, col)
    } else {
        row == 7 && on_board(5, col) && t == square_of(5, col)
    }
}

pub fn forward_move_1(row: i32, col: i32, white: bool) -> (r: BitBoard)
    requires
        i32::MIN + 1 <= row <= i32::MAX - 1,
    ensures
        forall|t: int| #[trigger] holds(r, t) == push1_reach(row as int, col as int, white, t),
{
    let mut bitboard: BitBoard = 0;
    proof {
        crate::bits::lemma_has_zero();
    }
    if row == 1 || row == 8 {
        return bitboard;
    }
    if white {
        bitboard = set_bit(bitboard, row + 1, col);
    } else {
        bitboard = set_bit(bitboard, row - 1, col);
    }
    bitboard
}

pub fn forward_move_2(row: i32, col: i32, white: bool) -> (r: BitBoard)
    requires
        i32::MIN + 2 <= row <= i32::MAX - 2,
    ensures
        forall|t: int| #[trigger] holds(r, t) == push2_reach(row as int, col as int, white, t),
{
    let mut bitboard: BitBoard = 0;
    proof {
        crate::bits::lemma_has_zero();
    }
    if row == 1 || row == 8 {
        return bitboard;
    }
    if white {
        if row == 2 {
            bitboard = set_bit(bitboard, row + 2, col);
        }
    } else {
        if row == 7 {
            bitboard = set_bit(bitboard, row - 2, col);
        }
    }
    bitboard
}

pub fn diagonal_move(row: i32, col: i32, white: bool) -> (r: BitBoard)
    requires
        i32::MIN + 1 <= row <= i32::MAX - 1,
        i32::MIN + 1 <= col <= i32::MAX - 1,
    ensures
        forall|t: int| #[trigger] holds(r, t) == pawn_attack_reach(row as int, col as int, white, t),
{
    let mut bitboard: BitBoard = 0;
    proof {
        crate::bits::lemma_has_zero();
    }
    if white {
        bitboard = set_bit(bitboard, row + 1, col + 1);
        bitboard = set_bit(bitboard, row + 1, col - 1);
    } else {
        bitboard = set_bit(bitboard, row - 1, col + 1);
        bitboard = set_bit(bitboard, row - 1, col - 1);
    }
    proof {
        assert forall|t: int| #[trigger] holds(bitboard, t) == pawn_attack_reach(row as int, col as int, white, t) by {
            lemma_square_of(row + 1, col + 1);
            lemma_square_of(row + 1, col - 1);
            lemma_square_of(row - 1, col + 1);
            lemma_square_of(row - 1, col - 1);
            if 0 <= t < 64 {
                let rr = row_of(t);
                let cc = col_of(t);
            }
        }
    }
    bitboard
}

/// Single pushes from square `sq`.
pub fn pawn_push_1(sq: usize, white: bool) -> (r: BitBoard)
    requires
        sq < 64,
    ensures
        forall|t: int| #[trigger] holds(r, t) == push1_reach(row_of(sq as int), col_of(sq as int), white, t),
{
    forward_move_1((sq / 8 + 1) as i32, (sq % 8 + 1) as i32, white)
}

/// Double pushes from square `sq`.
pub fn pawn_push_2(sq: usize, white: bool) -> (r: BitBoard)
    requires
        sq < 64,
    ensures
        forall|t: int| #[trigger] holds(r, t) == push2_reach(row_of(sq as int), col_of(sq as int), white, t),
{
    forward_move_2((sq / 8 + 1) as i32, (sq % 8 + 1) as i32, white)
}

/// Squares a pawn on `sq` attacks.
pub fn pawn_attacks(sq: usize, white: bool) -> (r: BitBoard)
    requires
        sq < 64,
    ensures
        forall|t: int| #[trigger] holds(r, t) == pawn_attack_reach(row_of(sq as int), col_of(sq as int), white, t),
{
    diagonal_move((sq / 8 + 1) as i32, (sq % 8 + 1) as i32, white)
}

pub fn generate_forward_1(white: bool) -> (r: [BitBoard; 64])
    ensures
        forall|sq: int, t: int|
            0 <= sq < 64 ==> #[trigger] holds(r[sq], t) == push1_reach(row_of(sq), col_of(sq), white, t),
{
    let mut boards: [BitBoard; 64] = [0; 64];
    let mut sq: usize = 0;
    while sq < 64
        invariant
            sq <= 64,
            forall|s: int, t: int|
                0 <= s < sq ==> #[trigger] holds(boards[s], t) == push1_reach(row_of(s), col_of(s), white, t),
        decreases 64 - sq,
    {
        boards[sq] = pawn_push_1(sq, white);
        sq = sq + 1;
    }
    boards
}

pub fn generate_forward_2(white: bool) -> (r: [BitBoard; 64])
    ensures
        forall|sq: int, t: int|
            0 <= sq < 64 ==> #[trigger] holds(r[sq], t) == push2_reach(row_of(sq), col_of(sq), white, t),
{
    let mut boards: [BitBoard; 64] = [0; 64];
    let mut sq: usize = 0;
    while sq < 64
        invariant
            sq <= 64,
            forall|s: int, t: int|
                0 <= s < sq ==> #[trigger] holds(boards[s], t) == push2_reach(row_of(s), col_of(s), white, t),
        decreases 64 - sq,
    {
        boards[sq] = pawn_push_2(sq, white);
        sq = sq + 1;
    }
    boards
}

pub fn generate_diagonal(white: bool) -> (r: [BitBoard; 64])
    ensures
        forall|sq: int, t: int|
            0 <= sq < 64 ==> #[trigger] holds(r[sq], t) == pawn_attack_reach(row_of(sq), col_of(sq), white, t),
{
    let mut boards: [BitBoard; 64] = [0; 64];
    let mut sq: usize = 0;
    while sq < 64
        invariant
            sq <= 64,
            forall|s: int, t: int|
                0 <= s < sq ==> #[trigger] holds(boards[s], t) == pawn_attack_reach(row_of(s), col_of(s), white, t),
        decreases 64 - sq,
    {
        boards[sq] = pawn_attacks(sq, white);
        sq = sq + 1;
    }
    boards
}

} // verus!
