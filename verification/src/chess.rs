//! The board: one piece per square, and one bitboard per piece kind kept in step with it.
use vstd::prelude::*;
use crate::bits::{holds, lemma_has_or, lemma_has_and_not, lemma_has_single, lemma_bits_ext};
use crate::color::Color;
use crate::history::History;
use crate::square::Square;
use crate::utils::BitBoard;

verus! {

#[derive(Clone, Debug, PartialEq, Eq)]
pub struct Chess {
    pub squares: [Square; 64],
    pub active_color: Color,
    pub castling_rights: u8,
    pub en_passent: BitBoard,
    pub halfmove_clock: usize,
    pub fullmove_number: usize,
    pub white_pawns: BitBoard,
    pub white_knights: BitBoard,
    pub white_bishops: BitBoard,
    pub white_rooks: BitBoard,
    pub white_queens: BitBoard,
    pub white_king: BitBoard,
    pub black_pawns: BitBoard,
    pub black_knights: BitBoard,
    pub black_bishops: BitBoard,
    pub black_rooks: BitBoard,
    pub black_queens: BitBoard,
    pub black_king: BitBoard,
    pub hash: u64,
    /// Hashes of the positions on the way to this one, latest last.
    pub history: History,
}

/// Everything a board holds besides its bitboards, which follow from the squares.
pub struct Position {
    pub squares: Seq<Square>,
    pub active_color: Color,
    pub castling_rights: u8,
    pub en_passent: u64,
    pub halfmove_clock: usize,
    pub fullmove_number: usize,
    pub hash: u64,
    pub path: Seq<u64>,
}

impl View for Chess {
    type V = Position;

    open spec fn view(&self) -> Position {
        Position {
            squares: self.squares@,
            active_color: self.active_color,
            castling_rights: self.castling_rights,
            en_passent: self.en_passent,
            halfmove_clock: self.halfmove_clock,
            fullmove_number: self.fullmove_number,
            hash: self.hash,
            path: self.history@,
        }
    }
}

/// Piece kinds are the non-empty squares.
pub open spec fn is_piece(p: Square) -> bool {
    p != Square::Empty
}

impl Chess {
    /// The bitboard of one piece kind (0 for `Empty`).
    pub open spec fn bitboard_of(self, p: Square) -> u64 {
        match p {
            Square::WhitePawn => self.white_pawns,
            Square::WhiteKnight => self.white_knights,
            Square::WhiteBishop => self.white_bishops,
            Square::WhiteRook => self.white_rooks,
            Square::WhiteQueen => self.white_queens,
            Square::WhiteKing => self.white_king,
            Square::BlackPawn => self.black_pawns,
            Square::BlackKnight => self.black_knights,
            Square::BlackBishop => self.black_bishops,
            Square::BlackRook => self.black_rooks,
            Square::BlackQueen => self.black_queens,
            Square::BlackKing => self.black_king,
            Square::Empty => 0,
        }
    }

    /// Every bitboard holds exactly the squares of its piece kind; castling rights use four bits.
    pub open spec fn wf(self) -> bool {
        &&& forall|p: Square, i: int|
            is_piece(p) && 0 <= i < 64 ==> #[trigger] holds(self.bitboard_of(p), i) == (
            self.squares@[i] == p)
        &&& self.castling_rights < 16
    }

    /// The occupancy bitboard of one side.
    pub open spec fn side_occ(self, c: Color) -> u64 {
        if c == Color::White {
            self.white_pawns | self.white_knights | self.white_bishops | self.white_rooks | self.white_queens
                | self.white_king
        } else {
            self.black_pawns | self.black_knights | self.black_bishops | self.black_rooks | self.black_queens
                | self.black_king
        }
    }

    /// Squares holding a piece of the given side.
    pub open spec fn occupied_by(self, c: Color, i: int) -> bool {
        0 <= i < 64 && self.squares@[i].spec_color() == Some(c)
    }

    pub open spec fn occupied(self, i: int) -> bool {
        0 <= i < 64 && self.squares@[i] != Square::Empty
    }

    /// The bitboard of one piece kind.
    pub fn get_bitboard(&self, p: Square) -> (r: BitBoard)
        ensures
            r == self.bitboard_of(p),
    {
        match p {
            Square::WhitePawn => self.white_pawns,
            Square::WhiteKnight => self.white_knights,
            Square::WhiteBishop => self.white_bishops,
            Square::WhiteRook => self.white_rooks,
            Square::WhiteQueen => self.white_queens,
            Square::WhiteKing => self.white_king,
            Square::BlackPawn => self.black_pawns,
            Square::BlackKnight => self.black_knights,
            Square::BlackBishop => self.black_bishops,
            Square::BlackRook => self.black_rooks,
            Square::BlackQueen => self.black_queens,
            Square::BlackKing => self.black_king,
            Square::Empty => 0,
        }
    }

    /// Replaces the bitboard of one piece kind.
    pub fn set_bitboard(&mut self, p: Square, v: BitBoard)
        requires
            is_piece(p),
        ensures
            final(self)@ == old(self)@,
            forall|k: Square| #[trigger] final(self).bitboard_of(k) == if k == p {
                v
            } else {
                old(self).bitboard_of(k)
            },
    {
        match p {
            Square::WhitePawn => self.white_pawns = v,
            Square::WhiteKnight => self.white_knights = v,
            Square::WhiteBishop => self.white_bishops = v,
            Square::WhiteRook => self.white_rooks = v,
            Square::WhiteQueen => self.white_queens = v,
            Square::WhiteKing => self.white_king = v,
            Square::BlackPawn => self.black_pawns = v,
            Square::BlackKnight => self.black_knights = v,
            Square::BlackBishop => self.black_bishops = v,
            Square::BlackRook => self.black_rooks = v,
            Square::BlackQueen => self.black_queens = v,
            Square::BlackKing => self.black_king = v,
            Square::Empty => {},
        }
    }

    pub fn white_occupancy(&self) -> (r: BitBoard)
        ensures
            r == self.side_occ(Color::White),
            self.wf() ==> forall|i: int| #[trigger] holds(r, i) == self.occupied_by(Color::White, i),
    {
        let r = self.white_pawns | self.white_knights | self.white_bishops | self.white_rooks
            | self.white_queens | self.white_king;
        proof {
            lemma_has_or(self.white_pawns, self.white_knights);
            lemma_has_or(self.white_pawns | self.white_knights, self.white_bishops);
            lemma_has_or(self.white_pawns | self.white_knights | self.white_bishops, self.white_rooks);
            lemma_has_or(self.white_pawns | self.white_knights | self.white_bishops | self.white_rooks, self.white_queens);
            lemma_has_or(self.white_pawns | self.white_knights | self.white_bishops | self.white_rooks | self.white_queens, self.white_king);
            assert forall|i: int| self.wf() implies #[trigger] holds(r, i) == self.occupied_by(Color::White, i) by {
                if 0 <= i < 64 {
                    assert(holds(self.bitboard_of(Square::WhitePawn), i) == (self.squares@[i] == Square::WhitePawn));
                    assert(holds(self.bitboard_of(Square::WhiteKnight), i) == (self.squares@[i] == Square::WhiteKnight));
                    assert(holds(self.bitboard_of(Square::WhiteBishop), i) == (self.squares@[i] == Square::WhiteBishop));
                    assert(holds(self.bitboard_of(Square::WhiteRook), i) == (self.squares@[i] == Square::WhiteRook));
                    assert(holds(self.bitboard_of(Square::WhiteQueen), i) == (self.squares@[i] == Square::WhiteQueen));
                    assert(holds(self.bitboard_of(Square::WhiteKing), i) == (self.squares@[i] == Square::WhiteKing));
                }
            }
        }
        r
    }

    pub fn black_occupancy(&self) -> (r: BitBoard)
        ensures
            r == self.side_occ(Color::Black),
            self.wf() ==> forall|i: int| #[trigger] holds(r, i) == self.occupied_by(Color::Black, i),
    {
        let r = self.black_pawns | self.black_knights | self.black_bishops | self.black_rooks
            | self.black_queens | self.black_king;
        proof {
            lemma_has_or(self.black_pawns, self.black_knights);
            lemma_has_or(self.black_pawns | self.black_knights, self.black_bishops);
            lemma_has_or(self.black_pawns | self.black_knights | self.black_bishops, self.black_rooks);
            lemma_has_or(self.black_pawns | self.black_knights | self.black_bishops | self.black_rooks, self.black_queens);
            lemma_has_or(self.black_pawns | self.black_knights | self.black_bishops | self.black_rooks | self.black_queens, self.black_king);
            assert forall|i: int| self.wf() implies #[trigger] holds(r, i) == self.occupied_by(Color::Black, i) by {
                if 0 <= i < 64 {
                    assert(holds(self.bitboard_of(Square::BlackPawn), i) == (self.squares@[i] == Square::BlackPawn));
                    assert(holds(self.bitboard_of(Square::BlackKnight), i) == (self.squares@[i] == Square::BlackKnight));
                    assert(holds(self.bitboard_of(Square::BlackBishop), i) == (self.squares@[i] == Square::BlackBishop));
                    assert(holds(self.bitboard_of(Square::BlackRook), i) == (self.squares@[i] == Square::BlackRook));
                    assert(holds(self.bitboard_of(Square::BlackQueen), i) == (self.squares@[i] == Square::BlackQueen));
                    assert(holds(self.bitboard_of(Square::BlackKing), i) == (self.squares@[i] == Square::BlackKing));
                }
            }
        }
        r
    }

    /// Both sides' pieces.
    pub fn all_occupancy(&self) -> (r: BitBoard)
        requires
            self.wf(),
        ensures
            r == self.side_occ(Color::White) | self.side_occ(Color::Black),
            forall|i: int| #[trigger] holds(r, i) == self.occupied(i),
    {
        let w = self.white_occupancy();
        let b = self.black_occupancy();
        proof {
            lemma_has_or(w, b);
        }
        w | b
    }

    /// Removes whatever stands on `sq`.
    pub fn remove_piece_at(&mut self, sq: usize)
        requires
            old(self).wf(),
            sq < 64,
        ensures
            final(self).wf(),
            final(self)@ == (Position { squares: old(self)@.squares.update(sq as int, Square::Empty), ..old(self)@ }),
    {
        let p = self.squares[sq];
        if !p.is_empty() {
            let bb = self.get_bitboard(p);
            proof {
                lemma_has_single(sq as u64);
                lemma_has_and_not(bb, 1u64 << (sq as u64));
            }
            self.set_bitboard(p, bb & !(1u64 << (sq as u64)));
        }
        let ghost mid = *self;
        self.squares[sq] = Square::Empty;
        proof {
            assert(self@.squares =~= old(self)@.squares.update(sq as int, Square::Empty));
            assert forall|k: Square, i: int| is_piece(k) && 0 <= i < 64 implies #[trigger] holds(self.bitboard_of(k), i) == (
                self.squares@[i] == k) by {
                assert(self.bitboard_of(k) == mid.bitboard_of(k));
                assert(holds(old(self).bitboard_of(k), i) == (old(self).squares@[i] == k));
            }
        }
    }

    /// Puts piece `piece` on the empty square `sq`.
    pub fn add_piece_at(&mut self, sq: usize, piece: Square)
        requires
            old(self).wf(),
            sq < 64,
            is_piece(piece),
            old(self)@.squares[sq as int] == Square::Empty,
        ensures
            final(self).wf(),
            final(self)@ == (Position { squares: old(self)@.squares.update(sq as int, piece), ..old(self)@ }),
    {
        self.squares[sq] = piece;
        let bb = self.get_bitboard(piece);
        proof {
            lemma_has_single(sq as u64);
            lemma_has_or(bb, 1u64 << (sq as u64));
        }
        let ghost mid = *self;
        self.set_bitboard(piece, bb | (1u64 << (sq as u64)));
        proof {
            assert(self@.squares =~= old(self)@.squares.update(sq as int, piece));
            assert forall|k: Square, i: int| is_piece(k) && 0 <= i < 64 implies #[trigger] holds(self.bitboard_of(k), i) == (
                self.squares@[i] == k) by {
                assert(holds(old(self).bitboard_of(k), i) == (old(self).squares@[i] == k));
            }
        }
    }
}

/// A side's occupancy bitboard holds exactly the squares of that side's pieces.
pub proof fn lemma_side_occ(b: Chess, c: Color)
    requires
        b.wf(),
    ensures
        forall|i: int| #[trigger] holds(b.side_occ(c), i) == b.occupied_by(c, i),
{
    let (p0, p1, p2, p3, p4, p5) = if c == Color::White {
        (Square::WhitePawn, Square::WhiteKnight, Square::WhiteBishop, Square::WhiteRook, Square::WhiteQueen, Square::WhiteKing)
    } else {
        (Square::BlackPawn, Square::BlackKnight, Square::BlackBishop, Square::BlackRook, Square::BlackQueen, Square::BlackKing)
    };
    let (a0, a1, a2, a3, a4, a5) = (b.bitboard_of(p0), b.bitboard_of(p1), b.bitboard_of(p2), b.bitboard_of(p3),
        b.bitboard_of(p4), b.bitboard_of(p5));
    assert(b.side_occ(c) == a0 | a1 | a2 | a3 | a4 | a5);
    lemma_has_or(a0, a1);
    lemma_has_or(a0 | a1, a2);
    lemma_has_or(a0 | a1 | a2, a3);
    lemma_has_or(a0 | a1 | a2 | a3, a4);
    lemma_has_or(a0 | a1 | a2 | a3 | a4, a5);
    assert forall|i: int| #[trigger] holds(b.side_occ(c), i) == b.occupied_by(c, i) by {
        if 0 <= i < 64 {
            assert(holds(a0, i) == (b.squares@[i] == p0));
            assert(holds(a1, i) == (b.squares@[i] == p1));
            assert(holds(a2, i) == (b.squares@[i] == p2));
            assert(holds(a3, i) == (b.squares@[i] == p3));
            assert(holds(a4, i) == (b.squares@[i] == p4));
            assert(holds(a5, i) == (b.squares@[i] == p5));
        }
    }
}

/// A board that differs from a well-formed one only outside its squares, bitboards and
/// castling rights (or in rights that stay below 16) is well-formed too.
pub proof fn lemma_wf_kept(a: Chess, b: Chess)
    requires
        a.wf(),
        a.squares@ == b.squares@,
        b.castling_rights < 16,
        a.white_pawns == b.white_pawns,
        a.white_knights == b.white_knights,
        a.white_bishops == b.white_bishops,
        a.white_rooks == b.white_rooks,
        a.white_queens == b.white_queens,
        a.white_king == b.white_king,
        a.black_pawns == b.black_pawns,
        a.black_knights == b.black_knights,
        a.black_bishops == b.black_bishops,
        a.black_rooks == b.black_rooks,
        a.black_queens == b.black_queens,
        a.black_king == b.black_king,
    ensures
        b.wf(),
{
    assert forall|p: Square, i: int| is_piece(p) && 0 <= i < 64 implies #[trigger] holds(b.bitboard_of(p), i) == (
        b.squares@[i] == p) by {
        assert(b.bitboard_of(p) == a.bitboard_of(p));
        assert(holds(a.bitboard_of(p), i) == (a.squares@[i] == p));
    }
}

/// Two well-formed boards with the same squares have the same bitboards.
pub proof fn lemma_bitboards_follow_squares(a: Chess, b: Chess, p: Square)
    requires
        a.wf(),
        b.wf(),
        a@.squares == b@.squares,
    ensures
        a.bitboard_of(p) == b.bitboard_of(p),
{
    if is_piece(p) {
        assert forall|i: int| 0 <= i < 64 implies #[trigger] holds(a.bitboard_of(p), i) == holds(b.bitboard_of(p), i) by {
            assert(holds(a.bitboard_of(p), i) == (a.squares@[i] == p));
            assert(holds(b.bitboard_of(p), i) == (b.squares@[i] == p));
        }
        lemma_bits_ext(a.bitboard_of(p), b.bitboard_of(p));
    }
}

/// A picture of the board: eight lines, the eighth rank first, each square's letter followed
/// by a space.
pub open spec fn board_text(s: Seq<Square>) -> Seq<char> {
    Seq::new(
        136,
        |k: int|
            if k % 17 == 16 {
                '\n'
            } else if k % 17 % 2 == 1 {
                ' '
            } else {
                s[(7 - k / 17) * 8 + k % 17 / 2].spec_char()
            },
    )
}

impl Chess {
    /// Draws the board.
    pub fn to_string(&self) -> (r: String)
        ensures
            r@ == board_text(self@.squares),
    {
        let mut out = String::new();
        let mut k: usize = 0;
        while k < 136
            invariant
                k <= 136,
                out@ == board_text(self@.squares).subrange(0, k as int),
            decreases 136 - k,
        {
            let c: char = if k % 17 == 16 {
                '\n'
            } else if k % 17 % 2 == 1 {
                ' '
            } else {
                self.squares[(7 - k / 17) * 8 + k % 17 / 2].to_char()
            };
            crate::text::push_char(&mut out, c);
            k = k + 1;
            assert(out@ =~= board_text(self@.squares).subrange(0, k as int));
        }
        assert(board_text(self@.squares).subrange(0, 136) =~= board_text(self@.squares));
        out
    }

    /// Moves the piece on `from` to `to`, taking off whatever stood there.
    pub fn move_piece(&mut self, from: usize, to: usize)
        requires
            old(self).wf(),
            from < 64,
            to < 64,
            old(self)@.squares[from as int] != Square::Empty,
        ensures
            final(self).wf(),
            final(self)@ == (Position {
                squares: old(self)@.squares.update(from as int, Square::Empty).update(
                    to as int,
                    old(self)@.squares[from as int],
                ),
                ..old(self)@
            }),
    {
        let piece = self.squares[from];
        self.remove_piece_at(to);
        self.remove_piece_at(from);
        self.add_piece_at(to, piece);
        assert(self@.squares =~= old(self)@.squares.update(from as int, Square::Empty).update(
            to as int,
            piece,
        ));
    }
}

} // verus!
