//! Knight steps.
use vstd::prelude::*;
use crate::bits::holds;
use crate::moves::geometry::{knight_reach, row_of, col_of};
use crate::utils::{BitBoard, set_bit};

verus! {

/// Squares a knight on 1-based (row, col) attacks.
pub fn knight_attacks(row: i32, col: i32) -> (r: BitBoard)
    requires
        i32::MIN + 2 <= row <= i32::MAX - 2,
        i32::MIN + 2 <= col <= i32::MAX - 2,
    ensures
        forall|t: int| #[trigger] holds(r, t) == knight_reach(row as int, col as int, t),
{
    let mut bitboard: BitBoard = 0;
    proof {
        crate::bits::lemma_has_zero();
    }
    bitboard = set_bit(bitboard, row + 1, col + 2);
    bitboard = set_bit(bitboard, row + 1, col - 2);
    bitboard = set_bit(bitboard, row - 1, col + 2);
    bitboard = set_bit(bitboard, row - 1, col - 2);
    bitboard = set_bit(bitboard, row + 2, col + 1);
    bitboard = set_bit(bitboard, row + 2, col - 1);
    bitboard = set_bit(bitboard, row - 2, col + 1);
    bitboard = set_bit(bitboard, row - 2, col - 1);
    proof {
        assert forall|t: int| #[trigger] holds(bitboard, t) == knight_reach(row as int, col as int, t) by {
            crate::moves::geometry::lemma_square_of(row + 1, col + 2);
            crate::moves::geometry::lemma_square_of(row + 1, col - 2);
            crate::moves::geometry::lemma_square_of(row - 1, col + 2);
            crate::moves::geometry::lemma_square_of(row - 1, col - 2);
            crate::moves::geometry::lemma_square_of(row + 2, col + 1);
            crate::moves::geometry::lemma_square_of(row + 2, col - 1);
            crate::moves::geometry::lemma_square_of(row - 2, col + 1);
            crate::moves::geometry::lemma_square_of(row - 2, col - 1);
            if 0 <= t < 64 {
                let rr = row_of(t);
                let cc = col_of(t);
            }
        }
    }
    bitboard
}

/// Squares a knight on square `sq` attacks.
pub fn knight_moves(sq: usize) -> (r: BitBoard)
    requires
        sq < 64,
    ensures
        forall|t: int| #[trigger] holds(r, t) == knight_reach(row_of(sq as int), col_of(sq as int), t),
{
    knight_attacks((sq / 8 + 1) as i32, (sq % 8 + 1) as i32)
}

/// The knight attacks of every square.
pub fn generate_knight_attacks() -> (r: [BitBoard; 64])
    ensures
        forall|sq: int, t: int|
            0 <= sq < 64 ==> #[trigger] holds(r[sq], t) == knight_reach(row_of(sq), col_of(sq), t),
{
    let mut attacks: [BitBoard; 64] = [0; 64];
    let mut sq: usize = 0;
    while sq < 64
        invariant
            sq <= 64,
            forall|s: int, t: int|
                0 <= s < sq ==> #[trigger] holds(attacks[s], t) == knight_reach(row_of(s), col_of(s), t),
        decreases 64 - sq,
    {
        attacks[sq] = knight_moves(sq);
        sq = sq + 1;
    }
    attacks
}

/// The knight attacks of every square, indexed by square.
pub struct KnightAttacks(pub Vec<BitBoard>);

impl KnightAttacks {
    pub fn new() -> (r: Self)
        ensures
            r.0@.len() == 64,
            forall|sq: int, t: int|
                0 <= sq < 64 ==> #[trigger] holds(r.0@[sq], t) == knight_reach(row_of(sq), col_of(sq), t),
    {
        let mut attacks: Vec<BitBoard> = Vec::new();
        let mut sq: usize = 0;
        while sq < 64
            invariant
                sq <= 64,
                attacks@.len() == sq,
                forall|s: int, t: int|
                    0 <= s < sq ==> #[trigger] holds(attacks@[s], t) == knight_reach(row_of(s), col_of(s), t),
            decreases 64 - sq,
        {
            attacks.push(knight_moves(sq));
            sq = sq + 1;
        }
        KnightAttacks(attacks)
    }
}

} // verus!
