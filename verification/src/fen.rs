//! Forsyth-Edwards Notation: writing a board as text and reading it back.
use vstd::prelude::*;
use vstd::string::{StrSliceExecFns, StringExecFns};
use crate::apply_undo_move::has_flag;
use crate::bits::lowest;
use crate::castling_rights::CastlingRights;
use crate::chess::{Chess, Position};
use crate::apply_undo_move::Flags;
use crate::color::Color;
use crate::square::Square;
use crate::text::{dec, push_char, append_dec, chars_of};
use crate::history::History;
use crate::bits::lemma_has_zero;
use crate::utils::{split_spec, split_on, pos_to_bit};
use crate::zobrist_hash::position_key;
use crate::utils::{algebraic, index_to_algebraic, bit_scan};

verus! {

/// The placement text of one rank from file `f` on, `empty` empty squares being still uncounted.
pub open spec fn rank_text(s: Seq<Square>, rank: int, f: int, empty: nat) -> Seq<char>
    decreases 8 - f,
{
    if f >= 8 {
        if empty > 0 { dec(empty) } else { Seq::empty() }
    } else if s[rank * 8 + f] == Square::Empty {
        rank_text(s, rank, f + 1, empty + 1)
    } else {
        (if empty > 0 { dec(empty) } else { Seq::empty() }) + seq![s[rank * 8 + f].spec_char()] + rank_text(
            s,
            rank,
            f + 1,
            0,
        )
    }
}

/// The placement text of ranks `rank` down to the first, separated by '/'.
pub open spec fn placement_text(s: Seq<Square>, rank: int) -> Seq<char>
    decreases rank,
{
    if rank <= 0 {
        rank_text(s, 0, 0, 0)
    } else {
        rank_text(s, rank, 0, 0) + seq!['/'] + placement_text(s, rank - 1)
    }
}

/// "KQkq" for the rights held, "-" for none.
pub open spec fn castling_text(cr: u8) -> Seq<char> {
    let t = (if has_flag(cr, CastlingRights::WHITEKINGSIDE) { seq!['K'] } else { Seq::empty() }) + (if has_flag(
        cr,
        CastlingRights::WHITEQUEENSIDE,
    ) { seq!['Q'] } else { Seq::empty() }) + (if has_flag(cr, CastlingRights::BLACKKINGSIDE) { seq!['k'] } else {
        Seq::empty()
    }) + (if has_flag(cr, CastlingRights::BLACKQUEENSIDE) { seq!['q'] } else { Seq::empty() });
    if t.len() == 0 { seq!['-'] } else { t }
}

/// The name of the en-passant square, "-" for none.
pub open spec fn en_passant_text(ep: u64) -> Seq<char> {
    if ep == 0 { seq!['-'] } else { algebraic(lowest(ep) as nat) }
}

/// The FEN text of a position.
pub open spec fn fen_text(p: Position) -> Seq<char> {
    placement_text(p.squares, 7) + seq![' ', if p.active_color == Color::White { 'w' } else { 'b' }, ' ']
        + castling_text(p.castling_rights) + seq![' '] + en_passant_text(p.en_passent) + seq![' '] + dec(
        p.halfmove_clock as nat,
    ) + seq![' '] + dec(p.fullmove_number as nat)
}

/// Appends the rights held ("KQkq"), or "-" for none.
fn append_castling(fen: &mut String, cr: u8)
    ensures
        final(fen)@ == old(fen)@ + castling_text(cr),
{
    let mut any: bool = false;
    if cr.contains(CastlingRights::WHITEKINGSIDE) {
        push_char(fen, 'K');
        any = true;
    }
    if cr.contains(CastlingRights::WHITEQUEENSIDE) {
        push_char(fen, 'Q');
        any = true;
    }
    if cr.contains(CastlingRights::BLACKKINGSIDE) {
        push_char(fen, 'k');
        any = true;
    }
    if cr.contains(CastlingRights::BLACKQUEENSIDE) {
        push_char(fen, 'q');
        any = true;
    }
    if !any {
        push_char(fen, '-');
    }
    assert(final(fen)@ =~= old(fen)@ + castling_text(cr));
}

impl Chess {
    /// Appends the placement text of one rank.
    fn append_rank(&self, fen: &mut String, rank: usize)
        requires
            rank < 8,
        ensures
            final(fen)@ == old(fen)@ + rank_text(self.squares@, rank as int, 0, 0),
    {
        let ghost start = fen@;
        let mut empty: usize = 0;
        let mut file: usize = 0;
        while file < 8
            invariant
                rank < 8,
                file <= 8,
                empty <= file,
                self.squares@.len() == 64,
                fen@ + rank_text(self.squares@, rank as int, file as int, empty as nat) == start + rank_text(
                    self.squares@,
                    rank as int,
                    0,
                    0,
                ),
            decreases 8 - file,
        {
            let idx = rank * 8 + file;
            let sq = self.squares[idx];
            let ghost before = fen@;
            let ghost e0 = empty;
            if sq.is_empty() {
                empty = empty + 1;
            } else {
                if empty > 0 {
                    append_dec(fen, empty);
                    empty = 0;
                }
                push_char(fen, sq.to_char());
                assert(fen@ + rank_text(self.squares@, rank as int, file + 1, 0) =~= before + rank_text(
                    self.squares@,
                    rank as int,
                    file as int,
                    e0 as nat,
                ));
            }
            file = file + 1;
        }
        let ghost before_tail = fen@;
        if empty > 0 {
            append_dec(fen, empty);
        }
        assert(fen@ =~= before_tail + rank_text(self.squares@, rank as int, 8, empty as nat));
    }

    /// Appends the placement text of all ranks, the eighth first.
    fn append_placement(&self, fen: &mut String)
        ensures
            final(fen)@ == old(fen)@ + placement_text(self.squares@, 7),
    {
        let ghost start = fen@;
        let mut rank: usize = 8;
        while rank > 0
            invariant
                rank <= 8,
                self.squares@.len() == 64,
                fen@ + (if rank > 0 { placement_text(self.squares@, rank - 1) } else { Seq::empty() })
                    == start + placement_text(self.squares@, 7),
            decreases rank,
        {
            rank = rank - 1;
            let ghost before = fen@;
            self.append_rank(fen, rank);
            if rank > 0 {
                push_char(fen, '/');
            }
            assert(fen@ + (if rank > 0 { placement_text(self.squares@, rank - 1) } else { Seq::empty() }) =~= before
                + placement_text(self.squares@, rank as int));
        }
        assert(fen@ =~= start + placement_text(self.squares@, 7));
    }

    /// The board in Forsyth-Edwards Notation.
    pub fn to_fen(&self) -> (r: String)
        ensures
            r@ == fen_text(self@),
    {
        let mut fen = String::new();
        self.append_placement(&mut fen);
        push_char(&mut fen, ' ');
        push_char(&mut fen, if self.active_color == Color::White { 'w' } else { 'b' });
        push_char(&mut fen, ' ');
        append_castling(&mut fen, self.castling_rights);
        push_char(&mut fen, ' ');
        let ghost before_ep = fen@;
        if self.en_passent == 0 {
            push_char(&mut fen, '-');
        } else {
            let ep_idx = bit_scan(self.en_passent);
            let name = index_to_algebraic(ep_idx);
            fen.append(name.as_str());
        }
        assert(fen@ =~= before_ep + en_passant_text(self.en_passent));
        push_char(&mut fen, ' ');
        append_dec(&mut fen, self.halfmove_clock);
        push_char(&mut fen, ' ');
        append_dec(&mut fen, self.fullmove_number);
        assert(fen@ =~= fen_text(self@));
        fen
    }
}

} // verus!

verus! {

/// The value of a decimal digit character '1'..'8' of a placement, 0 for anything else.
pub open spec fn digit_of(c: char) -> int {
    if c == '1' { 1 } else if c == '2' { 2 } else if c == '3' { 3 } else if c == '4' { 4 } else if c == '5' {
        5
    } else if c == '6' { 6 } else if c == '7' { 7 } else if c == '8' { 8 } else { 0 }
}

/// The piece a FEN letter names, `Empty` for anything else.
pub open spec fn piece_of_char(c: char) -> Square {
    if c == 'P' { Square::WhitePawn } else if c == 'N' { Square::WhiteKnight } else if c == 'B' {
        Square::WhiteBishop
    } else if c == 'R' { Square::WhiteRook } else if c == 'Q' { Square::WhiteQueen } else if c == 'K' {
        Square::WhiteKing
    } else if c == 'p' { Square::BlackPawn } else if c == 'n' { Square::BlackKnight } else if c == 'b' {
        Square::BlackBishop
    } else if c == 'r' { Square::BlackRook } else if c == 'q' { Square::BlackQueen } else if c == 'k' {
        Square::BlackKing
    } else { Square::Empty }
}

/// Where the reading of a placement stands: the rank (7 for the eighth) and file it has reached,
/// and the pieces placed so far.
pub struct Placing {
    pub row: int,
    pub col: int,
    pub squares: Seq<Square>,
}

pub open spec fn empty_board() -> Seq<Square> {
    Seq::new(64, |i: int| Square::Empty)
}

/// One character of a placement: '/' starts the next rank down, a digit skips squares, a letter
/// puts its piece on the current square.
pub open spec fn place_step(st: Placing, c: char) -> Placing {
    if c == '/' {
        Placing { row: st.row - 1, col: 0, ..st }
    } else if digit_of(c) > 0 {
        Placing { col: st.col + digit_of(c), ..st }
    } else {
        Placing { col: st.col + 1, squares: st.squares.update(st.row * 8 + st.col, piece_of_char(c)), ..st }
    }
}

/// The character can be read: '/' with a rank left below, a digit, or a piece letter on an
/// empty square of the board.
pub open spec fn place_step_ok(st: Placing, c: char) -> bool {
    if c == '/' {
        st.row > 0
    } else if digit_of(c) > 0 {
        true
    } else {
        piece_of_char(c) != Square::Empty && 0 <= st.row * 8 + st.col < 64 && st.squares[st.row * 8 + st.col]
            == Square::Empty
    }
}

/// The state after reading the first `n` characters of a placement.
pub open spec fn placing(cs: Seq<char>, n: int) -> Placing
    decreases n,
{
    if n <= 0 {
        Placing { row: 7, col: 0, squares: empty_board() }
    } else {
        place_step(placing(cs, n - 1), cs[n - 1])
    }
}

/// The first `n` characters of a placement can be read.
pub open spec fn placing_ok(cs: Seq<char>, n: int) -> bool
    decreases n,
{
    n <= 0 || (placing_ok(cs, n - 1) && place_step_ok(placing(cs, n - 1), cs[n - 1]))
}

/// The castling bit a character of the castling field stands for.
pub open spec fn right_of_char(c: char) -> u8 {
    if c == 'K' {
        CastlingRights::WHITEKINGSIDE
    } else if c == 'Q' {
        CastlingRights::WHITEQUEENSIDE
    } else if c == 'k' {
        CastlingRights::BLACKKINGSIDE
    } else if c == 'q' {
        CastlingRights::BLACKQUEENSIDE
    } else {
        0
    }
}

pub open spec fn rights_char_ok(c: char) -> bool {
    c == 'K' || c == 'Q' || c == 'k' || c == 'q' || c == '-'
}

/// The rights the first `n` characters of the castling field give.
pub open spec fn rights_of(cs: Seq<char>, n: int) -> u8
    decreases n,
{
    if n <= 0 {
        0
    } else {
        rights_of(cs, n - 1) | right_of_char(cs[n - 1])
    }
}

/// The digits' value in decimal.
pub open spec fn digits_value(cs: Seq<char>) -> int
    decreases cs.len(),
{
    if cs.len() == 0 {
        0
    } else {
        digits_value(cs.drop_last()) * 10 + (cs.last() as int - 48)
    }
}

pub open spec fn is_digit(c: char) -> bool {
    48 <= (c as int) < 58
}

/// A number as `usize` parsing reads it: an optional '+', then at least one digit, the value
/// fitting in `usize`.
pub open spec fn decimal_body(cs: Seq<char>) -> Seq<char> {
    if cs.len() > 0 && cs[0] == '+' { cs.drop_first() } else { cs }
}

pub open spec fn parses_usize(cs: Seq<char>) -> bool {
    let b = decimal_body(cs);
    b.len() > 0 && (forall|i: int| 0 <= i < b.len() ==> is_digit(#[trigger] b[i])) && digits_value(b)
        <= usize::MAX
}

pub open spec fn usize_value(cs: Seq<char>) -> int {
    digits_value(decimal_body(cs))
}

proof fn lemma_digits_value_nonneg(cs: Seq<char>)
    requires
        forall|i: int| 0 <= i < cs.len() ==> is_digit(#[trigger] cs[i]),
    ensures
        digits_value(cs) >= 0,
    decreases cs.len(),
{
    if cs.len() > 0 {
        lemma_digits_value_nonneg(cs.drop_last());
        assert(is_digit(cs[cs.len() - 1]));
    }
}

/// Reads a decimal number as `usize` parsing does, `None` where it fails.
pub fn parse_usize(s: &str) -> (r: Option<usize>)
    ensures
        r is Some <==> parses_usize(s@),
        r is Some ==> r->0 == usize_value(s@),
{
    let n = s.unicode_len();
    let mut i: usize = 0;
    if n > 0 && s.get_char(0) == '+' {
        i = 1;
    }
    let ghost b = decimal_body(s@);
    assert(b =~= s@.subrange(i as int, n as int));
    if i >= n {
        return None;
    }
    let start = i;
    let mut value: usize = 0;
    while i < n
        invariant
            n == s@.len(),
            start <= i <= n,
            b == s@.subrange(start as int, n as int),
            b == decimal_body(s@),
            forall|j: int| start <= j < i ==> is_digit(#[trigger] s@[j]),
            value == digits_value(s@.subrange(start as int, i as int)),
        decreases n - i,
    {
        let c = s.get_char(i);
        let d: usize = match c {
            '0' => 0,
            '1' => 1,
            '2' => 2,
            '3' => 3,
            '4' => 4,
            '5' => 5,
            '6' => 6,
            '7' => 7,
            '8' => 8,
            '9' => 9,
            _ => {
                assert(b[i - start] == s@[i as int]);
                assert(!is_digit(b[i - start]));

                return None;
            },
        };
        assert(s@.subrange(start as int, i + 1).drop_last() =~= s@.subrange(start as int, i as int));
        assert(b.subrange(0, i + 1 - start) =~= s@.subrange(start as int, i + 1));
        assert(digits_value(s@.subrange(start as int, i + 1)) == value * 10 + d);
        proof {
            lemma_digits_value_nonneg(s@.subrange(start as int, i as int));
        }
        match value.checked_mul(10) {
            Some(v10) => match v10.checked_add(d) {
                Some(v) => {
                    value = v;
                },
                None => {
                    proof {
                        lemma_digits_prefix_bound(b, i + 1 - start);
                    }
                    return None;
                },
            },
            None => {
                proof {
                    lemma_digits_prefix_bound(b, i + 1 - start);
                }
                return None;
            },
        }
        i = i + 1;
    }
    assert(s@.subrange(start as int, n as int) =~= b);
    Some(value)
}

/// A digit string is worth at least any of its prefixes.
proof fn lemma_digits_prefix_bound(b: Seq<char>, k: int)
    requires
        0 <= k <= b.len(),
        forall|i: int| 0 <= i < k ==> is_digit(#[trigger] b[i]),
    ensures
        (forall|i: int| 0 <= i < b.len() ==> is_digit(#[trigger] b[i])) ==> digits_value(b) >= digits_value(
            b.subrange(0, k),
        ),
    decreases b.len() - k,
{
    if k < b.len() && (forall|i: int| 0 <= i < b.len() ==> is_digit(#[trigger] b[i])) {
        lemma_digits_prefix_bound(b, k + 1);
        assert(b.subrange(0, k + 1).drop_last() =~= b.subrange(0, k));
        lemma_digits_value_nonneg(b.subrange(0, k));
        assert(is_digit(b[k]));
    } else if k == b.len() {
        assert(b.subrange(0, k) =~= b);
    }
}

} // verus!

verus! {

/// The `k`-th field of a text whose fields are separated by spaces.
pub open spec fn field(cs: Seq<char>, k: nat) -> Seq<char>
    decreases k,
{
    if k == 0 {
        split_spec(cs, ' ').0
    } else {
        field(split_spec(cs, ' ').1, (k - 1) as nat)
    }
}

/// The en-passant field: "-" or a square name.
pub open spec fn ep_field_ok(f: Seq<char>) -> bool {
    f == seq!['-'] || (f.len() == 2 && 97 <= (f[0] as int) < 105 && 49 <= (f[1] as int) <= 56)
}

pub open spec fn ep_field_value(f: Seq<char>) -> u64 {
    if f == seq!['-'] {
        0
    } else {
        1u64 << (((f[1] as int - 49) * 8 + (f[0] as int - 97)) as u64)
    }
}

/// A FEN text `from_fen` reads: ASCII; a placement whose pieces land on empty squares of the
/// board and whose '/' leave a rank below; "w" or "b"; castling letters among "KQkq-"; "-" or a
/// square name; and two numbers that fit in `usize`.
pub open spec fn valid_fen(cs: Seq<char>) -> bool {
    let placement = field(cs, 0);
    let castling = field(cs, 2);
    &&& vstd::utf8::is_ascii_chars(cs)
    &&& cs.len() < usize::MAX / 16
    &&& placing_ok(placement, placement.len() as int)
    &&& (field(cs, 1) == seq!['w'] || field(cs, 1) == seq!['b'])
    &&& forall|i: int| 0 <= i < castling.len() ==> rights_char_ok(#[trigger] castling[i])
    &&& ep_field_ok(field(cs, 3))
    &&& parses_usize(field(cs, 4))
    &&& parses_usize(field(cs, 5))
}

/// The position a valid FEN text describes, with its hash computed from scratch and no path.
pub open spec fn fen_position(cs: Seq<char>) -> Position {
    let placement = field(cs, 0);
    let castling = field(cs, 2);
    let p = Position {
        squares: placing(placement, placement.len() as int).squares,
        active_color: if field(cs, 1) == seq!['w'] { Color::White } else { Color::Black },
        castling_rights: rights_of(castling, castling.len() as int),
        en_passent: ep_field_value(field(cs, 3)),
        halfmove_clock: usize_value(field(cs, 4)) as usize,
        fullmove_number: usize_value(field(cs, 5)) as usize,
        hash: 0,
        path: Seq::empty(),
    };
    Position { hash: position_key(p), ..p }
}

/// `ch` is among the first `n` characters exactly when it is among the first `n - 1` or is
/// the `n`-th.
proof fn lemma_seen_prefix(cs: Seq<char>, n: int, ch: char)
    requires
        0 < n <= cs.len(),
    ensures
        (exists|i: int| 0 <= i < n && cs[i] == ch) <==> ((exists|i: int| 0 <= i < n - 1 && cs[i] == ch) || cs[n - 1]
            == ch),
{
    if exists|i: int| 0 <= i < n && cs[i] == ch {
        let i = choose|i: int| 0 <= i < n && cs[i] == ch;
        if i < n - 1 {
            assert(0 <= i < n - 1 && cs[i] == ch);
        }
    }
    if cs[n - 1] == ch {
        assert(0 <= n - 1 < n && cs[n - 1] == ch);
    }
    if exists|i: int| 0 <= i < n - 1 && cs[i] == ch {
        let i = choose|i: int| 0 <= i < n - 1 && cs[i] == ch;
        assert(0 <= i < n && cs[i] == ch);
    }
}

/// The letters of a FEN castling field grant fixed rights: 'K' White's king-side castle, 'Q'
/// White's queen-side castle, 'k' Black's king-side castle and 'q' Black's queen-side castle;
/// each right is held exactly when its letter is among the first `n` characters.
pub proof fn lemma_castling_letters(cs: Seq<char>, n: int)
    requires
        0 <= n <= cs.len(),
    ensures
        has_flag(rights_of(cs, n), CastlingRights::WHITEKINGSIDE) <==> exists|i: int| 0 <= i < n && cs[i] == 'K',
        has_flag(rights_of(cs, n), CastlingRights::WHITEQUEENSIDE) <==> exists|i: int| 0 <= i < n && cs[i] == 'Q',
        has_flag(rights_of(cs, n), CastlingRights::BLACKKINGSIDE) <==> exists|i: int| 0 <= i < n && cs[i] == 'k',
        has_flag(rights_of(cs, n), CastlingRights::BLACKQUEENSIDE) <==> exists|i: int| 0 <= i < n && cs[i] == 'q',
    decreases n,
{
    assert(forall|x: u8, y: u8, f: u8| f == 1u8 || f == 2u8 || f == 4u8 || f == 8u8 ==> (#[trigger] ((x | y) & f)
        == f <==> (x & f == f || y & f == f))) by (bit_vector);
    assert(forall|f: u8| f == 1u8 || f == 2u8 || f == 4u8 || f == 8u8 ==> #[trigger] (0u8 & f) != f) by (bit_vector);
    assert(1u8 & 2u8 != 2u8 && 1u8 & 4u8 != 4u8 && 1u8 & 8u8 != 8u8 && 1u8 & 1u8 == 1u8) by (bit_vector);
    assert(2u8 & 1u8 != 1u8 && 2u8 & 4u8 != 4u8 && 2u8 & 8u8 != 8u8 && 2u8 & 2u8 == 2u8) by (bit_vector);
    assert(4u8 & 1u8 != 1u8 && 4u8 & 2u8 != 2u8 && 4u8 & 8u8 != 8u8 && 4u8 & 4u8 == 4u8) by (bit_vector);
    assert(8u8 & 1u8 != 1u8 && 8u8 & 2u8 != 2u8 && 8u8 & 4u8 != 4u8 && 8u8 & 8u8 == 8u8) by (bit_vector);
    if n == 0 {
        assert(rights_of(cs, 0) == 0u8);
        assert((0u8 & 1u8) != 1u8);
        assert((0u8 & 2u8) != 2u8);
        assert((0u8 & 4u8) != 4u8);
        assert((0u8 & 8u8) != 8u8);
    } else {
        lemma_castling_letters(cs, n - 1);
        let a = rights_of(cs, n - 1);
        let c = cs[n - 1];
        let b = right_of_char(c);
        assert(rights_of(cs, n) == a | b);
        assert(((a | b) & 1u8) == 1u8 <==> ((a & 1u8) == 1u8 || (b & 1u8) == 1u8));
        assert(((a | b) & 2u8) == 2u8 <==> ((a & 2u8) == 2u8 || (b & 2u8) == 2u8));
        assert(((a | b) & 4u8) == 4u8 <==> ((a & 4u8) == 4u8 || (b & 4u8) == 4u8));
        assert(((a | b) & 8u8) == 8u8 <==> ((a & 8u8) == 8u8 || (b & 8u8) == 8u8));
        assert((b & 1u8) == 1u8 <==> c == 'K');
        assert((b & 2u8) == 2u8 <==> c == 'Q');
        assert((b & 4u8) == 4u8 <==> c == 'k');
        assert((b & 8u8) == 8u8 <==> c == 'q');
        lemma_seen_prefix(cs, n, 'K');
        lemma_seen_prefix(cs, n, 'Q');
        lemma_seen_prefix(cs, n, 'k');
        lemma_seen_prefix(cs, n, 'q');
    }
}

/// The castling field a FEN is written with names each right held by its letter: 'K' exactly
/// when White may castle king-side, 'Q' queen-side, 'k' and 'q' likewise for Black, and '-'
/// alone when no right is held.
pub proof fn lemma_castling_text_letters(cr: u8)
    ensures
        castling_text(cr).contains('K') <==> has_flag(cr, CastlingRights::WHITEKINGSIDE),
        castling_text(cr).contains('Q') <==> has_flag(cr, CastlingRights::WHITEQUEENSIDE),
        castling_text(cr).contains('k') <==> has_flag(cr, CastlingRights::BLACKKINGSIDE),
        castling_text(cr).contains('q') <==> has_flag(cr, CastlingRights::BLACKQUEENSIDE),
{
    let wk = if has_flag(cr, CastlingRights::WHITEKINGSIDE) { seq!['K'] } else { Seq::<char>::empty() };
    let wq = if has_flag(cr, CastlingRights::WHITEQUEENSIDE) { seq!['Q'] } else { Seq::<char>::empty() };
    let bk = if has_flag(cr, CastlingRights::BLACKKINGSIDE) { seq!['k'] } else { Seq::<char>::empty() };
    let bq = if has_flag(cr, CastlingRights::BLACKQUEENSIDE) { seq!['q'] } else { Seq::<char>::empty() };
    let t = wk + wq + bk + bq;
    assert forall|c: char| #[trigger] t.contains(c) <==> wk.contains(c) || wq.contains(c) || bk.contains(c) || bq.contains(c) by {
        if t.contains(c) {
            let i = choose|i: int| 0 <= i < t.len() && t[i] == c;
            if i < wk.len() {
                assert(wk[i] == c);
            } else if i < wk.len() + wq.len() {
                assert(wq[i - wk.len()] == c);
            } else if i < wk.len() + wq.len() + bk.len() {
                assert(bk[i - wk.len() - wq.len()] == c);
            } else {
                assert(bq[i - wk.len() - wq.len() - bk.len()] == c);
            }
        }
        if wk.contains(c) {
            assert(t[0] == c);
        }
        if wq.contains(c) {
            assert(t[wk.len() as int] == c);
        }
        if bk.contains(c) {
            assert(t[(wk.len() + wq.len()) as int] == c);
        }
        if bq.contains(c) {
            assert(t[(wk.len() + wq.len() + bk.len()) as int] == c);
        }
    }
    if t.len() == 0 {
        assert(!seq!['-'].contains('K') && !seq!['-'].contains('Q') && !seq!['-'].contains('k') && !seq!['-'].contains('q')) by {
            if seq!['-'].contains('K') {
                let i = choose|i: int| 0 <= i < 1 && seq!['-'][i] == 'K';
            }
            if seq!['-'].contains('Q') {
                let i = choose|i: int| 0 <= i < 1 && seq!['-'][i] == 'Q';
            }
            if seq!['-'].contains('k') {
                let i = choose|i: int| 0 <= i < 1 && seq!['-'][i] == 'k';
            }
            if seq!['-'].contains('q') {
                let i = choose|i: int| 0 <= i < 1 && seq!['-'][i] == 'q';
            }
        }
    }
    assert(wk.contains('K') <==> has_flag(cr, CastlingRights::WHITEKINGSIDE)) by {
        if wk.contains('K') {
            let i = choose|i: int| 0 <= i < wk.len() && wk[i] == 'K';
        }
        if has_flag(cr, CastlingRights::WHITEKINGSIDE) {
            assert(wk[0] == 'K');
        }
    }
    assert(wq.contains('Q') <==> has_flag(cr, CastlingRights::WHITEQUEENSIDE)) by {
        if wq.contains('Q') {
            let i = choose|i: int| 0 <= i < wq.len() && wq[i] == 'Q';
        }
        if has_flag(cr, CastlingRights::WHITEQUEENSIDE) {
            assert(wq[0] == 'Q');
        }
    }
    assert(bk.contains('k') <==> has_flag(cr, CastlingRights::BLACKKINGSIDE)) by {
        if bk.contains('k') {
            let i = choose|i: int| 0 <= i < bk.len() && bk[i] == 'k';
        }
        if has_flag(cr, CastlingRights::BLACKKINGSIDE) {
            assert(bk[0] == 'k');
        }
    }
    assert(bq.contains('q') <==> has_flag(cr, CastlingRights::BLACKQUEENSIDE)) by {
        if bq.contains('q') {
            let i = choose|i: int| 0 <= i < bq.len() && bq[i] == 'q';
        }
        if has_flag(cr, CastlingRights::BLACKQUEENSIDE) {
            assert(bq[0] == 'q');
        }
    }
    assert(!wk.contains('Q') && !wk.contains('k') && !wk.contains('q')) by {
        if wk.contains('Q') { let i = choose|i: int| 0 <= i < wk.len() && wk[i] == 'Q'; }
        if wk.contains('k') { let i = choose|i: int| 0 <= i < wk.len() && wk[i] == 'k'; }
        if wk.contains('q') { let i = choose|i: int| 0 <= i < wk.len() && wk[i] == 'q'; }
    }
    assert(!wq.contains('K') && !wq.contains('k') && !wq.contains('q')) by {
        if wq.contains('K') { let i = choose|i: int| 0 <= i < wq.len() && wq[i] == 'K'; }
        if wq.contains('k') { let i = choose|i: int| 0 <= i < wq.len() && wq[i] == 'k'; }
        if wq.contains('q') { let i = choose|i: int| 0 <= i < wq.len() && wq[i] == 'q'; }
    }
    assert(!bk.contains('K') && !bk.contains('Q') && !bk.contains('q')) by {
        if bk.contains('K') { let i = choose|i: int| 0 <= i < bk.len() && bk[i] == 'K'; }
        if bk.contains('Q') { let i = choose|i: int| 0 <= i < bk.len() && bk[i] == 'Q'; }
        if bk.contains('q') { let i = choose|i: int| 0 <= i < bk.len() && bk[i] == 'q'; }
    }
    assert(!bq.contains('K') && !bq.contains('Q') && !bq.contains('k')) by {
        if bq.contains('K') { let i = choose|i: int| 0 <= i < bq.len() && bq[i] == 'K'; }
        if bq.contains('Q') { let i = choose|i: int| 0 <= i < bq.len() && bq[i] == 'Q'; }
        if bq.contains('k') { let i = choose|i: int| 0 <= i < bq.len() && bq[i] == 'k'; }
    }
}

proof fn lemma_rights_of_bound(cs: Seq<char>, n: int)
    ensures
        rights_of(cs, n) < 16,
    decreases n,
{
    if n > 0 {
        lemma_rights_of_bound(cs, n - 1);
        let a = rights_of(cs, n - 1);
        let b = right_of_char(cs[n - 1]);
        assert(b < 16);
        assert(a < 16 && b < 16 ==> a | b < 16) by (bit_vector);
    }
}

/// A board with no pieces: White to move, no castling rights, move number 1.
fn empty_chess() -> (r: Chess)
    ensures
        r.wf(),
        r@.squares == empty_board(),
        r.active_color == Color::White,
        r.castling_rights == 0,
        r.en_passent == 0,
        r.halfmove_clock == 0,
        r.fullmove_number == 1,
        r.hash == 0,
        r@.path == Seq::<u64>::empty(),
{
    let r = Chess {
        squares: [Square::Empty; 64],
        active_color: Color::White,
        castling_rights: CastlingRights::NONE,
        en_passent: 0,
        halfmove_clock: 0,
        fullmove_number: 1,
        white_pawns: 0,
        white_knights: 0,
        white_bishops: 0,
        white_rooks: 0,
        white_queens: 0,
        white_king: 0,
        black_pawns: 0,
        black_knights: 0,
        black_bishops: 0,
        black_rooks: 0,
        black_queens: 0,
        black_king: 0,
        hash: 0,
        history: History::new(),
    };
    proof {
        lemma_has_zero();
        assert(r.squares@ =~= empty_board());
    }
    r
}

/// The piece a FEN letter names, `Empty` for anything else.
fn square_of_char(c: char) -> (r: Square)
    ensures
        r == piece_of_char(c),
{
    match c {
        'P' => Square::WhitePawn,
        'N' => Square::WhiteKnight,
        'B' => Square::WhiteBishop,
        'R' => Square::WhiteRook,
        'Q' => Square::WhiteQueen,
        'K' => Square::WhiteKing,
        'p' => Square::BlackPawn,
        'n' => Square::BlackKnight,
        'b' => Square::BlackBishop,
        'r' => Square::BlackRook,
        'q' => Square::BlackQueen,
        'k' => Square::BlackKing,
        _ => Square::Empty,
    }
}

/// The value of a placement digit '1'..'8', 0 for anything else.
fn digit_value(c: char) -> (r: usize)
    ensures
        r == digit_of(c),
{
    match c {
        '1' => 1,
        '2' => 2,
        '3' => 3,
        '4' => 4,
        '5' => 5,
        '6' => 6,
        '7' => 7,
        '8' => 8,
        _ => 0,
    }
}

/// Reads the placement field onto an empty board; `false` where it cannot be read.
fn read_placement(chess: &mut Chess, position: &str) -> (ok: bool)
    requires
        old(chess).wf(),
        old(chess)@.squares == empty_board(),
        position@.len() < usize::MAX / 16,
    ensures
        ok == placing_ok(position@, position@.len() as int),
        ok ==> final(chess).wf() && final(chess)@ == (Position {
            squares: placing(position@, position@.len() as int).squares,
            ..old(chess)@
        }),
{
    let cs = chars_of(position);
    let n = cs.len();
    let mut row: usize = 7;
    let mut col: usize = 0;
    let mut i: usize = 0;
    while i < n
        invariant
            n == cs@.len(),
            cs@ == position@,
            n < usize::MAX / 16,
            i <= n,
            chess.wf(),
            placing_ok(cs@, i as int),
            chess@ == (Position { squares: placing(cs@, i as int).squares, ..old(chess)@ }),
            row == placing(cs@, i as int).row,
            col == placing(cs@, i as int).col,
            row <= 7,
            col <= 8 * i,
            placing(cs@, i as int).squares.len() == 64,
        decreases n - i,
    {
        let ch = cs[i];
        let d = digit_value(ch);
        if ch == '/' {
            if row == 0 {
                proof {
                    lemma_placing_ok_prefix(cs@, i as int + 1, n as int);
                }
                return false;
            }
            row = row - 1;
            col = 0;
        } else if d > 0 {
            col = col + d;
        } else {
            let piece = square_of_char(ch);
            let idx = row * 8 + col;
            if piece == Square::Empty || idx >= 64 {
                proof {
                    lemma_placing_ok_prefix(cs@, i as int + 1, n as int);
                }
                return false;
            }
            if !chess.squares[idx].is_empty() {
                proof {
                    lemma_placing_ok_prefix(cs@, i as int + 1, n as int);
                }
                return false;
            }
            chess.add_piece_at(idx, piece);
            col = col + 1;
        }
        i = i + 1;
    }
    true
}

/// A prefix that cannot be read makes the whole placement unreadable.
proof fn lemma_placing_ok_prefix(cs: Seq<char>, k: int, n: int)
    requires
        0 <= k <= n,
        !placing_ok(cs, k),
    ensures
        !placing_ok(cs, n),
    decreases n - k,
{
    if k < n {
        lemma_placing_ok_prefix(cs, k + 1, n);
    }
}

} // verus!

verus! {

/// The castling bit of a character of the castling field.
fn right_of(c: char) -> (r: u8)
    ensures
        r == right_of_char(c),
{
    match c {
        'K' => CastlingRights::WHITEKINGSIDE,
        'Q' => CastlingRights::WHITEQUEENSIDE,
        'k' => CastlingRights::BLACKKINGSIDE,
        'q' => CastlingRights::BLACKQUEENSIDE,
        _ => 0,
    }
}

/// Reads the castling field; `None` on a character other than "KQkq-".
fn read_castling(s: &str) -> (r: Option<u8>)
    ensures
        r is Some <==> forall|i: int| 0 <= i < s@.len() ==> rights_char_ok(#[trigger] s@[i]),
        r is Some ==> r->0 == rights_of(s@, s@.len() as int),
{
    let cs = chars_of(s);
    let mut rights: u8 = CastlingRights::NONE;
    let mut i: usize = 0;
    while i < cs.len()
        invariant
            cs@ == s@,
            i <= cs@.len(),
            rights == rights_of(s@, i as int),
            forall|j: int| 0 <= j < i ==> rights_char_ok(#[trigger] s@[j]),
        decreases cs@.len() - i,
    {
        let c = cs[i];
        if !(c == 'K' || c == 'Q' || c == 'k' || c == 'q' || c == '-') {
            assert(!rights_char_ok(s@[i as int]));
            return None;
        }
        rights = rights | right_of(c);
        i = i + 1;
    }
    Some(rights)
}

/// A separator that occurs has a first occurrence.
proof fn lemma_first_sep(s: Seq<char>, sep: char)
    requires
        exists|i: int| 0 <= i < s.len() && s[i] == sep,
    ensures
        exists|i: int| 0 <= i < s.len() && s[i] == sep && forall|j: int| 0 <= j < i ==> s[j] != sep,
    decreases s.len(),
{
    if s[0] == sep {
        assert(0 <= 0 < s.len() && s[0] == sep && forall|j: int| 0 <= j < 0 ==> s[j] != sep);
    } else {
        let k = choose|i: int| 0 <= i < s.len() && s[i] == sep;
        let t = s.drop_first();
        assert(t[k - 1] == sep);
        lemma_first_sep(t, sep);
        let i = choose|i: int| 0 <= i < t.len() && t[i] == sep && forall|j: int| 0 <= j < i ==> t[j] != sep;
        assert forall|j: int| 0 <= j < i + 1 implies s[j] != sep by {
            if j > 0 {
                assert(s[j] == t[j - 1]);
            }
        }
        assert(s[i + 1] == sep);
    }
}

/// Both parts of a split are no longer than the text.
proof fn lemma_split_len(s: Seq<char>, sep: char)
    ensures
        split_spec(s, sep).0.len() <= s.len(),
        split_spec(s, sep).1.len() <= s.len(),
{
    if exists|i: int| 0 <= i < s.len() && s[i] == sep {
        lemma_first_sep(s, sep);
    }
}

/// Reads the side-to-move field.
fn read_color(s: &str) -> (r: Option<Color>)
    ensures
        r is Some <==> (s@ == seq!['w'] || s@ == seq!['b']),
        r is Some ==> (r->0 == Color::White <==> s@ == seq!['w']),
{
    if s.unicode_len() == 1 && s.get_char(0) == 'w' {
        assert(s@ =~= seq!['w']);
        Some(Color::White)
    } else if s.unicode_len() == 1 && s.get_char(0) == 'b' {
        assert(s@ =~= seq!['b']);
        Some(Color::Black)
    } else {
        assert(s@ != seq!['w'] && s@ != seq!['b']) by {
            if s@ == seq!['w'] || s@ == seq!['b'] {
                assert(s@.len() == 1);
            }
        }
        None
    }
}

/// Reads the en-passant field.
fn read_en_passant(s: &str) -> (r: Option<u64>)
    requires
        s.is_ascii(),
    ensures
        r is Some <==> ep_field_ok(s@),
        r is Some ==> r->0 == ep_field_value(s@),
{
    proof {
        vstd::string::is_ascii_spec_bytes(s);
    }
    if s.unicode_len() == 1 && s.get_char(0) == '-' {
        assert(s@ =~= seq!['-']);
        Some(0)
    } else {
        assert(s@ != seq!['-']) by {
            if s@ == seq!['-'] {
                assert(s@.len() == 1);
            }
        }
        match pos_to_bit(s) {
            Ok(bit) => Some(bit),
            Err(_) => None,
        }
    }
}

/// Reads a FEN text: the board it describes, or `None` where `from_fen` would not accept it.
pub fn parse_fen(fen: &str) -> (r: Option<Chess>)
    ensures
        r is Some <==> valid_fen(fen@),
        r is Some ==> r->0.wf() && r->0@ == fen_position(fen@),
{
    if !fen.is_ascii() {
        return None;
    }
    if fen.unicode_len() >= usize::MAX / 16 {
        return None;
    }
    let mut chess = empty_chess();
    let (position, rest1) = split_on(fen, ' ');
    proof {
        reveal_with_fuel(field, 7);
        lemma_split_len(fen@, ' ');
    }
    if !read_placement(&mut chess, position) {
        return None;
    }
    let (color_to_move, rest2) = split_on(rest1, ' ');
    let (castling_str, rest3) = split_on(rest2, ' ');
    let (en_passent, rest4) = split_on(rest3, ' ');
    let (halfmove_clock, rest5) = split_on(rest4, ' ');
    let (fullmove_number, _) = split_on(rest5, ' ');
    proof {
        assert(field(fen@, 1) == color_to_move@);
        assert(field(fen@, 2) == castling_str@);
        assert(field(fen@, 3) == en_passent@);
        assert(field(fen@, 4) == halfmove_clock@);
        assert(field(fen@, 5) == fullmove_number@);
    }
    let color = match read_color(color_to_move) {
        Some(c) => c,
        None => {
            return None;
        },
    };
    let cr = match read_castling(castling_str) {
        Some(cr) => cr,
        None => {
            return None;
        },
    };
    let ep = match read_en_passant(en_passent) {
        Some(ep) => ep,
        None => {
            return None;
        },
    };
    let halfmove = match parse_usize(halfmove_clock) {
        Some(n) => n,
        None => {
            return None;
        },
    };
    let fullmove = match parse_usize(fullmove_number) {
        Some(n) => n,
        None => {
            return None;
        },
    };
    proof {
        lemma_rights_of_bound(castling_str@, castling_str@.len() as int);
    }
    let ghost before = chess;
    chess.active_color = color;
    chess.castling_rights = cr;
    chess.en_passent = ep;
    chess.halfmove_clock = halfmove;
    chess.fullmove_number = fullmove;
    proof {
        crate::chess::lemma_wf_kept(before, chess);
    }
    let ghost mid = chess;
    chess.hash = chess.zobrist_hash();
    proof {
        crate::chess::lemma_wf_kept(mid, chess);
    }
    Some(chess)
}

impl Chess {
    /// The board a valid FEN text describes.
    pub fn from_fen(fen: &str) -> (r: Chess)
        requires
            valid_fen(fen@),
        ensures
            r.wf(),
            r@ == fen_position(fen@),
    {
        match parse_fen(fen) {
            Some(chess) => chess,
            None => empty_chess(),
        }
    }
}

} // verus!

verus! {

/// The back-rank piece of file `f` for White ("RNBQKBNR").
pub open spec fn back_rank_piece(f: int, white: bool) -> Square {
    if f == 0 || f == 7 {
        if white { Square::WhiteRook } else { Square::BlackRook }
    } else if f == 1 || f == 6 {
        if white { Square::WhiteKnight } else { Square::BlackKnight }
    } else if f == 2 || f == 5 {
        if white { Square::WhiteBishop } else { Square::BlackBishop }
    } else if f == 3 {
        if white { Square::WhiteQueen } else { Square::BlackQueen }
    } else {
        if white { Square::WhiteKing } else { Square::BlackKing }
    }
}

/// What stands on square `i` in the starting position.
pub open spec fn start_square(i: int) -> Square {
    if 0 <= i < 8 {
        back_rank_piece(i, true)
    } else if 8 <= i < 16 {
        Square::WhitePawn
    } else if 48 <= i < 56 {
        Square::BlackPawn
    } else if 56 <= i < 64 {
        back_rank_piece(i - 56, false)
    } else {
        Square::Empty
    }
}

fn back_rank(f: usize, white: bool) -> (r: Square)
    ensures
        r == back_rank_piece(f as int, white),
{
    if f == 0 || f == 7 {
        if white { Square::WhiteRook } else { Square::BlackRook }
    } else if f == 1 || f == 6 {
        if white { Square::WhiteKnight } else { Square::BlackKnight }
    } else if f == 2 || f == 5 {
        if white { Square::WhiteBishop } else { Square::BlackBishop }
    } else if f == 3 {
        if white { Square::WhiteQueen } else { Square::BlackQueen }
    } else {
        if white { Square::WhiteKing } else { Square::BlackKing }
    }
}

impl Chess {
    /// The starting position ("rnbqkbnr/pppppppp/8/8/8/8/PPPPPPPP/RNBQKBNR w KQkq - 0 1").
    pub fn new() -> (r: Chess)
        ensures
            r.wf(),
            forall|i: int| 0 <= i < 64 ==> #[trigger] r@.squares[i] == start_square(i),
            r.active_color == Color::White,
            r.castling_rights == CastlingRights::ALL,
            r.en_passent == 0,
            r.halfmove_clock == 0,
            r.fullmove_number == 1,
            r.hash == position_key(r@),
            r@.path == Seq::<u64>::empty(),
    {
        let mut chess = empty_chess();
        let mut f: usize = 0;
        while f < 8
            invariant
                f <= 8,
                chess.wf(),
                chess.active_color == Color::White,
                chess.castling_rights == 0,
                chess.en_passent == 0,
                chess.halfmove_clock == 0,
                chess.fullmove_number == 1,
                chess@.path == Seq::<u64>::empty(),
                forall|i: int| 0 <= i < 64 ==> #[trigger] chess@.squares[i] == if (i < 16 || i >= 48) && i % 8 < f {
                    start_square(i)
                } else {
                    Square::Empty
                },
            decreases 8 - f,
        {
            chess.add_piece_at(f, back_rank(f, true));
            chess.add_piece_at(8 + f, Square::WhitePawn);
            chess.add_piece_at(48 + f, Square::BlackPawn);
            chess.add_piece_at(56 + f, back_rank(f, false));
            f = f + 1;
        }
        assert forall|i: int| 0 <= i < 64 implies #[trigger] chess@.squares[i] == start_square(i) by {
            assert(i % 8 < 8);
        }
        let ghost before = chess;
        chess.castling_rights = CastlingRights::ALL;
        proof {
            crate::chess::lemma_wf_kept(before, chess);
        }
        let ghost mid = chess;
        chess.hash = chess.zobrist_hash();
        proof {
            crate::chess::lemma_wf_kept(mid, chess);
        }
        chess
    }
}

} // verus!
