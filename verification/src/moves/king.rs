//! King steps.
use vstd::prelude::*;
use crate::bits::holds;
use crate::moves::geometry::{king_reach, row_of, col_of, lemma_square_of};
use crate::utils::{BitBoard, set_bit};

verus! {

/// Squares a king on 1-based (row, col) attacks.
pub fn king_move(row: i32, col: i32) -> (r: BitBoard)
    requires
        i32::MIN + 1 <= row <= i32::MAX - 1,
        i32::MIN + 1 <= col <= i32::MAX - 1,
    ensures
        forall|t: int| #[trigger] holds(r, t) == king_reach(row as int, col as int, t),
{
    let mut bitboard: BitBoard = 0;
    proof {
        crate::bits::lemma_has_zero();
    }
    bitboard = set_bit(bitboard, row + 1, col);
    bitboard = set_bit(bitboard, row - 1, col);
    bitboard = set_bit(bitboard, row, col + 1);
    bitboard = set_bit(bitboard, row, col - 1);
    bitboard = set_bit(bitboard, row + 1, col + 1);
    bitboard = set_bit(bitboard, row - 1, col - 1);
    bitboard = set_bit(bitboard, row - 1, col + 1);
    bitboard = set_bit(bitboard, row + 1, col - 1);
    proof {
        assert forall|t: int| #[trigger] holds(bitboard, t) == king_reach(row as int, col as int, t) by {
            lemma_square_of(row + 1, col as int);
            lemma_square_of(row - 1, col as int);
            lemma_square_of(row as int, col + 1);
            lemma_square_of(row as int, col - 1);
            lemma_square_of(row + 1, col + 1);
            lemma_square_of(row - 1, col - 1);
            lemma_square_of(row - 1, col + 1);
            lemma_square_of(row + 1, col - 1);
            if 0 <= t < 64 {
                let rr = row_of(t);
                let cc = col_of(t);
            }
        }
    }
    bitboard
}

/// Squares a king on square `sq` attacks.
pub fn king_moves(sq: usize) -> (r: BitBoard)
    requires
        sq < 64,
    ensures
        forall|t: int| #[trigger] holds(r, t) == king_reach(row_of(sq as int), col_of(sq as int), t),
{
    king_move((sq / 8 + 1) as i32, (sq % 8 + 1) as i32)
}

/// The king attacks of every square.
pub fn generate_king_moves() -> (r: [BitBoard; 64])
    ensures
        forall|sq: int, t: int|
            0 <= sq < 64 ==> #[trigger] holds(r[sq], t) == king_reach(row_of(sq), col_of(sq), t),
{
    let mut attacks: [BitBoard; 64] = [0; 64];
    let mut sq: usize = 0;
    while sq < 64
        invariant
            sq <= 64,
            forall|s: int, t: int|
                0 <= s < sq ==> #[trigger] holds(attacks[s], t) == king_reach(row_of(s), col_of(s), t),
        decreases 64 - sq,
    {
        attacks[sq] = king_moves(sq);
        sq = sq + 1;
    }
    attacks
}

} // verus!
