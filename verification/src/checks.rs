//! Which squares a side attacks, and whether a side's king stands in check.
use vstd::prelude::*;
use crate::apply_undo_move::{apply_ok, position_after, Move};
use crate::bits::{holds, lowest, lemma_has_and, lemma_has_or, lemma_nonzero, lemma_lowest, lemma_bits_ext};
use crate::chess::Chess;
use crate::color::Color;
use crate::moves::geometry::{row_of, col_of, knight_reach, king_reach, pawn_attack_reach, straight_reach, diagonal_reach};
use crate::moves::king::king_moves;
use crate::moves::knight::knight_moves;
use crate::moves::pawn::pawn_attacks;
use crate::moves::ray::{diagonal_attacks, straight_attacks};
use crate::square::Square;
use crate::utils::{BitBoard, bit_scan};

verus! {

pub open spec fn pawn_of(c: Color) -> Square {
    if c == Color::White { Square::WhitePawn } else { Square::BlackPawn }
}

pub open spec fn knight_of(c: Color) -> Square {
    if c == Color::White { Square::WhiteKnight } else { Square::BlackKnight }
}

pub open spec fn bishop_of(c: Color) -> Square {
    if c == Color::White { Square::WhiteBishop } else { Square::BlackBishop }
}

pub open spec fn rook_piece_of(c: Color) -> Square {
    if c == Color::White { Square::WhiteRook } else { Square::BlackRook }
}

pub open spec fn queen_of(c: Color) -> Square {
    if c == Color::White { Square::WhiteQueen } else { Square::BlackQueen }
}

pub open spec fn king_of(c: Color) -> Square {
    if c == Color::White { Square::WhiteKing } else { Square::BlackKing }
}

/// The bitboard of the occupied squares among the first `n`.
pub open spec fn occupancy_below(s: Seq<Square>, n: int) -> u64
    decreases n,
{
    if n <= 0 {
        0
    } else {
        occupancy_below(s, n - 1) | if s[n - 1] != Square::Empty {
            1u64 << ((n - 1) as u64)
        } else {
            0u64
        }
    }
}

/// The bitboard of the occupied squares.
pub open spec fn occupancy_of(s: Seq<Square>) -> u64 {
    occupancy_below(s, 64)
}

pub proof fn lemma_occupancy_below(s: Seq<Square>, n: int)
    requires
        0 <= n <= 64,
    ensures
        forall|i: int| #[trigger] holds(occupancy_below(s, n), i) == (0 <= i < n && s[i] != Square::Empty),
    decreases n,
{
    if n == 0 {
        crate::bits::lemma_has_zero();
    } else {
        lemma_occupancy_below(s, n - 1);
        let b: u64 = if s[n - 1] != Square::Empty { 1u64 << ((n - 1) as u64) } else { 0u64 };
        lemma_has_or(occupancy_below(s, n - 1), b);
        crate::bits::lemma_has_single((n - 1) as u64);
        crate::bits::lemma_has_zero();
    }
}

/// A pawn of `c` stands where it attacks `t`.
pub open spec fn attacked_by_pawn(s: Seq<Square>, t: int, c: Color) -> bool {
    exists|i: int|
        0 <= i < 64 && #[trigger] s[i] == pawn_of(c) && pawn_attack_reach(
            row_of(t),
            col_of(t),
            c == Color::Black,
            i,
        )
}

/// A knight of `c` stands a knight's jump away from `t`.
pub open spec fn attacked_by_knight(s: Seq<Square>, t: int, c: Color) -> bool {
    exists|i: int| 0 <= i < 64 && #[trigger] s[i] == knight_of(c) && knight_reach(row_of(t), col_of(t), i)
}

/// The king of `c` stands next to `t`.
pub open spec fn attacked_by_king(s: Seq<Square>, t: int, c: Color) -> bool {
    exists|i: int| 0 <= i < 64 && #[trigger] s[i] == king_of(c) && king_reach(row_of(t), col_of(t), i)
}

/// A bishop or queen of `c` is the first piece on a diagonal from `t`, or a rook or queen of
/// `c` the first piece on a rank or file from `t`.
pub open spec fn attacked_by_ray(s: Seq<Square>, t: int, c: Color) -> bool {
    exists|i: int|
        0 <= i < 64 && ((#[trigger] s[i] == bishop_of(c) || s[i] == queen_of(c)) && diagonal_reach(
            t,
            occupancy_of(s),
            i,
        ) || (s[i] == rook_piece_of(c) || s[i] == queen_of(c)) && straight_reach(t, occupancy_of(s), i))
}

/// Side `c` attacks square `t`.
pub open spec fn square_attacked(s: Seq<Square>, t: int, c: Color) -> bool {
    attacked_by_pawn(s, t, c) || attacked_by_knight(s, t, c) || attacked_by_ray(s, t, c)
        || attacked_by_king(s, t, c)
}

/// `k` is the lowest square holding the king of `c`.
pub open spec fn king_square(s: Seq<Square>, c: Color, k: int) -> bool {
    0 <= k < 64 && s[k] == king_of(c) && forall|j: int| 0 <= j < k ==> #[trigger] s[j] != king_of(c)
}

/// The king of `c` (the lowest one, should there be several) is attacked; a side without a king
/// is never in check.
pub open spec fn in_check(s: Seq<Square>, c: Color) -> bool {
    exists|k: int| #[trigger] king_square(s, c, k) && square_attacked(s, k, c.opponent())
}

/// The lowest square of a side's king bitboard is its king square, and the only one.
pub proof fn lemma_king_square(b: Chess, c: Color)
    requires
        b.wf(),
        b.bitboard_of(king_of(c)) != 0,
    ensures
        king_square(b.squares@, c, lowest(b.bitboard_of(king_of(c)))),
        forall|k: int| #[trigger] king_square(b.squares@, c, k) ==> k == lowest(b.bitboard_of(king_of(c))),
{
    let bb = b.bitboard_of(king_of(c));
    let k = lowest(bb);
    lemma_lowest(bb);
    assert forall|j: int| 0 <= j < k implies #[trigger] b.squares@[j] != king_of(c) by {
        assert(!holds(bb, j));
    }
    assert forall|k2: int| #[trigger] king_square(b.squares@, c, k2) implies k2 == k by {
        if k2 < k {
            assert(!holds(bb, k2));
        } else if k2 > k {
            assert(b.squares@[k] != king_of(c));
        }
    }
}

/// A side whose king bitboard is empty has no king square.
pub proof fn lemma_no_king_square(b: Chess, c: Color)
    requires
        b.wf(),
        b.bitboard_of(king_of(c)) == 0,
    ensures
        forall|k: int| !#[trigger] king_square(b.squares@, c, k),
{
    crate::bits::lemma_has_zero();
    assert forall|k: int| !#[trigger] king_square(b.squares@, c, k) by {
        if king_square(b.squares@, c, k) {
            assert(holds(b.bitboard_of(king_of(c)), k));
        }
    }
}

impl Chess {
    pub fn is_attacked_by_pawn(&self, target: usize, att_color: Color) -> (r: bool)
        requires
            self.wf(),
            target < 64,
        ensures
            r == attacked_by_pawn(self.squares@, target as int, att_color),
    {
        let (pawns, attacks) = match att_color {
            Color::White => (self.white_pawns, pawn_attacks(target, false)),
            Color::Black => (self.black_pawns, pawn_attacks(target, true)),
        };
        proof {
            lemma_has_and(attacks, pawns);
            lemma_nonzero(attacks & pawns);
            assert(pawns == self.bitboard_of(pawn_of(att_color)));
            if attacked_by_pawn(self.squares@, target as int, att_color) {
                let i = choose|i: int|
                    0 <= i < 64 && #[trigger] self.squares@[i] == pawn_of(att_color) && pawn_attack_reach(
                        row_of(target as int),
                        col_of(target as int),
                        att_color == Color::Black,
                        i,
                    );
                assert(holds(attacks & pawns, i));
            }
        }
        (attacks & pawns) != 0
    }

    pub fn is_attacked_by_knight(&self, target: usize, att_color: Color) -> (r: bool)
        requires
            self.wf(),
            target < 64,
        ensures
            r == attacked_by_knight(self.squares@, target as int, att_color),
    {
        let knights: BitBoard = match att_color {
            Color::White => self.white_knights,
            Color::Black => self.black_knights,
        };
        let attacks = knight_moves(target);
        proof {
            lemma_has_and(attacks, knights);
            lemma_nonzero(attacks & knights);
            assert(knights == self.bitboard_of(knight_of(att_color)));
            if attacked_by_knight(self.squares@, target as int, att_color) {
                let i = choose|i: int|
                    0 <= i < 64 && #[trigger] self.squares@[i] == knight_of(att_color) && knight_reach(
                        row_of(target as int),
                        col_of(target as int),
                        i,
                    );
                assert(holds(attacks & knights, i));
            }
        }
        (attacks & knights) != 0
    }

    pub fn is_attacked_by_king(&self, target: usize, att_color: Color) -> (r: bool)
        requires
            self.wf(),
            target < 64,
        ensures
            r == attacked_by_king(self.squares@, target as int, att_color),
    {
        let att_king: BitBoard = match att_color {
            Color::White => self.white_king,
            Color::Black => self.black_king,
        };
        let attacks = king_moves(target);
        proof {
            lemma_has_and(attacks, att_king);
            lemma_nonzero(attacks & att_king);
            assert(att_king == self.bitboard_of(king_of(att_color)));
            if attacked_by_king(self.squares@, target as int, att_color) {
                let i = choose|i: int|
                    0 <= i < 64 && #[trigger] self.squares@[i] == king_of(att_color) && king_reach(
                        row_of(target as int),
                        col_of(target as int),
                        i,
                    );
                assert(holds(attacks & att_king, i));
            }
        }
        (attacks & att_king) != 0
    }

    /// The occupancy bitboard is the bitboard of the occupied squares.
    pub fn occupancy(&self) -> (r: BitBoard)
        requires
            self.wf(),
        ensures
            r == occupancy_of(self.squares@),
    {
        let w = self.white_occupancy();
        let b = self.black_occupancy();
        let r = w | b;
        proof {
            lemma_has_or(w, b);
            lemma_occupancy_below(self.squares@, 64);
            assert forall|i: int| 0 <= i < 64 implies #[trigger] holds(r, i) == holds(
                occupancy_of(self.squares@),
                i,
            ) by {
                assert(self.squares@[i].spec_color() is Some <==> self.squares@[i] != Square::Empty);
            }
            lemma_bits_ext(r, occupancy_of(self.squares@));
        }
        r
    }

    pub fn is_attacked_by_ray(&self, target: usize, att_color: Color) -> (r: bool)
        requires
            self.wf(),
            target < 64,
        ensures
            r == attacked_by_ray(self.squares@, target as int, att_color),
    {
        let (bishops, rooks, queens) = match att_color {
            Color::White => (self.white_bishops, self.white_rooks, self.white_queens),
            Color::Black => (self.black_bishops, self.black_rooks, self.black_queens),
        };
        let occupancy: BitBoard = self.occupancy();
        let diag = diagonal_attacks(target, occupancy);
        let straight = straight_attacks(target, occupancy);
        let diagonal_attackers: BitBoard = diag & (bishops | queens);
        let straight_attackers: BitBoard = straight & (rooks | queens);
        proof {
            assert(bishops == self.bitboard_of(bishop_of(att_color)));
            assert(rooks == self.bitboard_of(rook_piece_of(att_color)));
            assert(queens == self.bitboard_of(queen_of(att_color)));
            lemma_has_or(bishops, queens);
            lemma_has_or(rooks, queens);
            lemma_has_and(diag, bishops | queens);
            lemma_has_and(straight, rooks | queens);
            lemma_nonzero(diagonal_attackers);
            lemma_nonzero(straight_attackers);
            let s = self.squares@;
            if attacked_by_ray(s, target as int, att_color) {
                let i = choose|i: int|
                    0 <= i < 64 && ((#[trigger] s[i] == bishop_of(att_color) || s[i] == queen_of(att_color))
                        && diagonal_reach(target as int, occupancy_of(s), i) || (s[i] == rook_piece_of(att_color)
                        || s[i] == queen_of(att_color)) && straight_reach(target as int, occupancy_of(s), i));
                assert(holds(diagonal_attackers, i) || holds(straight_attackers, i));
            }
        }
        if diagonal_attackers != 0 {
            return true;
        }
        straight_attackers != 0
    }

    pub fn is_square_attacked_by_color(&self, target: usize, att_color: Color) -> (r: bool)
        requires
            self.wf(),
            target < 64,
        ensures
            r == square_attacked(self.squares@, target as int, att_color),
    {
        self.is_attacked_by_pawn(target, att_color) || self.is_attacked_by_knight(target, att_color)
            || self.is_attacked_by_ray(target, att_color) || self.is_attacked_by_king(target, att_color)
    }

    pub fn is_color_in_check(&self, color: Color) -> (r: bool)
        requires
            self.wf(),
        ensures
            r == in_check(self.squares@, color),
    {
        let (own_king_bb, opp_color) = match color {
            Color::White => (self.white_king, Color::Black),
            Color::Black => (self.black_king, Color::White),
        };
        proof {
            assert(own_king_bb == self.bitboard_of(king_of(color)));
        }
        if own_king_bb == 0 {
            proof {
                lemma_no_king_square(*self, color);
            }
            return false;
        }
        let k = bit_scan(own_king_bb);
        proof {
            lemma_king_square(*self, color);
        }
        self.is_square_attacked_by_color(k, opp_color)
    }

    /// The side to move stands in check.
    pub fn is_active_color_in_check(&self) -> (r: bool)
        requires
            self.wf(),
        ensures
            r == in_check(self.squares@, self.active_color),
    {
        self.is_color_in_check(self.active_color)
    }

    /// A copy of the board, field for field.
    pub fn duplicate(&self) -> (r: Chess)
        requires
            self.wf(),
        ensures
            r.wf(),
            r@ == self@,
    {
        let r = Chess {
            squares: self.squares,
            active_color: self.active_color,
            castling_rights: self.castling_rights,
            en_passent: self.en_passent,
            halfmove_clock: self.halfmove_clock,
            fullmove_number: self.fullmove_number,
            white_pawns: self.white_pawns,
            white_knights: self.white_knights,
            white_bishops: self.white_bishops,
            white_rooks: self.white_rooks,
            white_queens: self.white_queens,
            white_king: self.white_king,
            black_pawns: self.black_pawns,
            black_knights: self.black_knights,
            black_bishops: self.black_bishops,
            black_rooks: self.black_rooks,
            black_queens: self.black_queens,
            black_king: self.black_king,
            hash: self.hash,
            history: self.history.copy(),
        };
        proof {
            crate::chess::lemma_wf_kept(*self, r);
        }
        r
    }

    /// Playing `m` would leave the mover's king in check.
    pub fn leaves_king_in_check(&self, m: &Move) -> (r: bool)
        requires
            self.wf(),
            apply_ok(self@, *m),
        ensures
            r == in_check(position_after(self@, *m).squares, self.active_color),
    {
        let mut temp_board = self.duplicate();
        let king_color = self.active_color;
        temp_board.apply_move(m);
        temp_board.is_color_in_check(king_color)
    }
}

} // verus!
