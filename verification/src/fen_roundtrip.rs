//! Reading back what `to_fen` writes gives the board it was written from.
use vstd::prelude::*;
use crate::apply_undo_move::has_flag;
use crate::bits::lowest;
use crate::castling_rights::CastlingRights;
use crate::chess::Position;
use crate::color::Color;
use crate::fen::{
    Placing, place_step, place_step_ok, placing, placing_ok, empty_board, digit_of, piece_of_char,
    rank_text, placement_text, is_digit, digits_value, decimal_body, parses_usize, usize_value,
    castling_text, en_passant_text, fen_text, rights_of, right_of_char, rights_char_ok, ep_field_ok,
    ep_field_value, field, valid_fen, fen_position,
};
use crate::utils::algebraic;
use crate::zobrist_hash::position_key;
use crate::square::Square;
use crate::text::{dec, digit_char};
use crate::utils::split_spec;

verus! {

/// Characters that may stand inside a FEN field: ASCII, and no space.
pub open spec fn field_chars(cs: Seq<char>) -> bool {
    forall|i: int| 0 <= i < cs.len() ==> (#[trigger] cs[i] as int) < 128 && cs[i] != ' '
}

proof fn lemma_field_chars_concat(a: Seq<char>, b: Seq<char>)
    requires
        field_chars(a),
        field_chars(b),
    ensures
        field_chars(a + b),
{
    assert forall|i: int| 0 <= i < (a + b).len() implies ((#[trigger] (a + b)[i]) as int) < 128 && (a
        + b)[i] != ' ' by {
        if i < a.len() {
            assert((a + b)[i] == a[i]);
        } else {
            assert((a + b)[i] == b[i - a.len()]);
        }
    }
}

/// A text without the separator is one field.
proof fn lemma_split_none(a: Seq<char>)
    requires
        field_chars(a),
    ensures
        split_spec(a, ' ') == (a, Seq::<char>::empty()),
{
    assert(!exists|i: int| 0 <= i < a.len() && a[i] == ' ');
}

/// The separator after a field ends it.
proof fn lemma_split_at(a: Seq<char>, b: Seq<char>)
    requires
        field_chars(a),
    ensures
        split_spec(a + seq![' '] + b, ' ') == (a, b),
{
    let s = a + seq![' '] + b;
    let n = a.len() as int;
    assert(s[n] == ' ');
    assert(exists|i: int| 0 <= i < s.len() && s[i] == ' ');
    let c = choose|i: int| 0 <= i < s.len() && s[i] == ' ' && forall|j: int| 0 <= j < i ==> s[j] != ' ';
    assert(forall|j: int| 0 <= j < n ==> s[j] != ' ') by {
        assert forall|j: int| 0 <= j < n implies s[j] != ' ' by {
            assert(s[j] == a[j]);
        }
    }
    assert(exists|i: int| 0 <= i < s.len() && s[i] == ' ' && forall|j: int| 0 <= j < i ==> s[j] != ' ');
    if c < n {
        assert(s[c] == a[c]);
    }
    assert(c == n);
    assert(s.subrange(0, n) =~= a);
    assert(s.subrange(n + 1, s.len() as int) =~= b);
}

// ---- reading a placement piece by piece ----

/// The reading state after the characters `cs`, from state `st`.
pub open spec fn run(st: Placing, cs: Seq<char>) -> Placing
    decreases cs.len(),
{
    if cs.len() == 0 {
        st
    } else {
        place_step(run(st, cs.drop_last()), cs.last())
    }
}

/// Every character of `cs` can be read, from state `st`.
pub open spec fn run_ok(st: Placing, cs: Seq<char>) -> bool
    decreases cs.len(),
{
    cs.len() == 0 || (run_ok(st, cs.drop_last()) && place_step_ok(run(st, cs.drop_last()), cs.last()))
}

proof fn lemma_run_concat(st: Placing, a: Seq<char>, b: Seq<char>)
    ensures
        run(st, a + b) == run(run(st, a), b),
        run_ok(st, a + b) == (run_ok(st, a) && run_ok(run(st, a), b)),
    decreases b.len(),
{
    if b.len() == 0 {
        assert(a + b =~= a);
    } else {
        lemma_run_concat(st, a, b.drop_last());
        assert((a + b).drop_last() =~= a + b.drop_last());
        assert((a + b).last() == b.last());
    }
}

proof fn lemma_run_single(st: Placing, c: char)
    ensures
        run(st, seq![c]) == place_step(st, c),
        run_ok(st, seq![c]) == place_step_ok(st, c),
{
    assert(seq![c].drop_last() =~= Seq::<char>::empty());
    assert(run(st, Seq::<char>::empty()) == st);
    assert(run_ok(st, Seq::<char>::empty()));
}

proof fn lemma_placing_run(cs: Seq<char>, n: int)
    requires
        0 <= n <= cs.len(),
    ensures
        placing(cs, n) == run(Placing { row: 7, col: 0, squares: empty_board() }, cs.subrange(0, n)),
        placing_ok(cs, n) == run_ok(Placing { row: 7, col: 0, squares: empty_board() }, cs.subrange(0, n)),
    decreases n,
{
    if n > 0 {
        lemma_placing_run(cs, n - 1);
        assert(cs.subrange(0, n).drop_last() =~= cs.subrange(0, n - 1));
    }
}

// ---- numbers ----

proof fn lemma_digit_char(d: int)
    requires
        0 <= d < 10,
    ensures
        digit_char(d) as int == 48 + d,
{
}

/// The characters of a decimal number.
proof fn lemma_dec(n: nat)
    ensures
        field_chars(dec(n)),
        forall|i: int| 0 <= i < dec(n).len() ==> is_digit(#[trigger] dec(n)[i]),
        dec(n).len() > 0,
        digits_value(dec(n)) == n,
        dec(n).len() <= 1 || n >= 10,
    decreases n,
{
    if n < 10 {
        lemma_digit_char(n as int);
        assert(seq![digit_char(n as int)].drop_last() =~= Seq::<char>::empty());
        assert(digits_value(dec(n)) == digits_value(Seq::<char>::empty()) * 10 + (digit_char(n as int) as int - 48));
    } else {
        lemma_dec(n / 10);
        let d = dec(n / 10);
        let c = digit_char((n % 10) as int);
        lemma_digit_char((n % 10) as int);
        assert(dec(n) == d.push(c));
        assert(d.push(c).drop_last() =~= d);
        assert(digits_value(d.push(c)) == digits_value(d) * 10 + (c as int - 48));
        assert(digits_value(dec(n)) == (n / 10) * 10 + n % 10);
        assert(field_chars(dec(n))) by {
            assert forall|i: int| 0 <= i < dec(n).len() implies (#[trigger] dec(n)[i] as int) < 128 && dec(n)[i]
                != ' ' by {
                if i < d.len() {
                    assert(dec(n)[i] == d[i]);
                }
            }
        }
        assert forall|i: int| 0 <= i < dec(n).len() implies is_digit(#[trigger] dec(n)[i]) by {
            if i < d.len() {
                assert(dec(n)[i] == d[i]);
            }
        }
    }
}

/// A decimal number reads back as itself.
proof fn lemma_dec_parses(n: nat)
    requires
        n <= usize::MAX,
    ensures
        parses_usize(dec(n)),
        usize_value(dec(n)) == n,
        field_chars(dec(n)),
{
    lemma_dec(n);
    assert(is_digit(dec(n)[0]));
    assert(decimal_body(dec(n)) == dec(n));
}

// ---- the placement field ----

proof fn lemma_digit_of_char(e: int)
    requires
        1 <= e <= 8,
    ensures
        digit_of(digit_char(e)) == e,
        digit_char(e) != '/',
{
    lemma_digit_char(e);
    if e == 1 {
        assert(digit_char(e) == '1');
    } else if e == 2 {
        assert(digit_char(e) == '2');
    } else if e == 3 {
        assert(digit_char(e) == '3');
    } else if e == 4 {
        assert(digit_char(e) == '4');
    } else if e == 5 {
        assert(digit_char(e) == '5');
    } else if e == 6 {
        assert(digit_char(e) == '6');
    } else if e == 7 {
        assert(digit_char(e) == '7');
    } else {
        assert(digit_char(e) == '8');
    }
}

proof fn lemma_piece_char(p: Square)
    requires
        p != Square::Empty,
    ensures
        piece_of_char(p.spec_char()) == p,
        digit_of(p.spec_char()) == 0,
        p.spec_char() != '/',
        field_chars(seq![p.spec_char()]),
{
}

/// The squares of rank `r` from file `from` on taken from `s`, the others from `t`.
pub open spec fn rank_filled(s: Seq<Square>, t: Seq<Square>, r: int, from: int) -> Seq<Square> {
    Seq::new(64, |i: int| if r * 8 + from <= i < r * 8 + 8 { s[i] } else { t[i] })
}

/// Reading the text of rank `r` from file `f` on, `e` empty squares before it still uncounted,
/// puts the rank's pieces on the board and ends after the eighth file.
proof fn lemma_rank(s: Seq<Square>, r: int, f: int, e: int, st: Placing)
    requires
        s.len() == 64,
        0 <= r < 8,
        0 <= e <= f <= 8,
        st.row == r,
        st.col == f - e,
        st.squares.len() == 64,
        forall|g: int| f - e <= g < 8 ==> #[trigger] st.squares[r * 8 + g] == Square::Empty,
        forall|g: int| f - e <= g < f ==> #[trigger] s[r * 8 + g] == Square::Empty,
    ensures
        field_chars(rank_text(s, r, f, e as nat)),
        rank_text(s, r, f, e as nat).len() <= 8 - f + if e > 0 { 1int } else { 0int },
        run_ok(st, rank_text(s, r, f, e as nat)),
        run(st, rank_text(s, r, f, e as nat)) == (Placing {
            row: r,
            col: 8,
            squares: rank_filled(s, st.squares, r, f - e),
        }),
    decreases 8 - f,
{
    let t = rank_text(s, r, f, e as nat);
    if f >= 8 {
        if e > 0 {
            lemma_dec(e as nat);
            lemma_digit_of_char(e);
            assert(dec(e as nat) == seq![digit_char(e)]);
            assert(seq![digit_char(e)].drop_last() =~= Seq::<char>::empty());
        }
        assert forall|i: int| 0 <= i < 64 implies #[trigger] rank_filled(s, st.squares, r, f - e)[i]
            == st.squares[i] by {
            if r * 8 + f - e <= i < r * 8 + 8 {
                let g = i - r * 8;
                assert(st.squares[r * 8 + g] == Square::Empty);
                assert(s[r * 8 + g] == Square::Empty);
            }
        }
        assert(rank_filled(s, st.squares, r, f - e) =~= st.squares);
        if e > 0 {
            lemma_run_single(st, digit_char(e));
        }
    } else if s[r * 8 + f] == Square::Empty {
        lemma_rank(s, r, f + 1, e + 1, st);
    } else {
        let p = s[r * 8 + f];
        let d = if e > 0 { dec(e as nat) } else { Seq::<char>::empty() };
        if e > 0 {
            assert(dec(e as nat) == seq![digit_char(e)]);
        }
        let rest = rank_text(s, r, f + 1, 0);
        assert(t == d + seq![p.spec_char()] + rest);
        let st1 = Placing { row: r, col: f, squares: st.squares };
        if e > 0 {
            lemma_dec(e as nat);
            lemma_digit_of_char(e);
            assert(d == seq![digit_char(e)]);
            lemma_run_single(st, digit_char(e));
            assert(run(st, d) == st1);
            assert(run_ok(st, d));
        } else {
            assert(run(st, d) == st1);
            assert(run_ok(st, d));
        }
        lemma_piece_char(p);
        let st2 = Placing { row: r, col: f + 1, squares: st.squares.update(r * 8 + f, p) };
        lemma_run_single(st1, p.spec_char());
        assert(run(st1, seq![p.spec_char()]) == st2);
        assert(run_ok(st1, seq![p.spec_char()]));
        lemma_run_concat(st, d, seq![p.spec_char()]);
        lemma_rank(s, r, f + 1, 0, st2);
        lemma_run_concat(st, d + seq![p.spec_char()], rest);
        assert forall|i: int| 0 <= i < 64 implies #[trigger] rank_filled(s, st2.squares, r, f + 1)[i]
            == rank_filled(s, st.squares, r, f - e)[i] by {
            if r * 8 + f - e <= i < r * 8 + f {
                let g = i - r * 8;
                assert(st.squares[r * 8 + g] == Square::Empty);
                assert(s[r * 8 + g] == Square::Empty);
            }
        }
        assert(rank_filled(s, st2.squares, r, f + 1) =~= rank_filled(s, st.squares, r, f - e));
        if e > 0 {
            lemma_field_chars_concat(d, seq![p.spec_char()]);
        } else {
            assert(d + seq![p.spec_char()] =~= seq![p.spec_char()]);
        }
        lemma_field_chars_concat(d + seq![p.spec_char()], rest);
    }
}

/// The board with the ranks from `lo` up taken from `s`, the lower ones empty.
pub open spec fn filled(s: Seq<Square>, lo: int) -> Seq<Square> {
    Seq::new(64, |i: int| if i >= lo * 8 { s[i] } else { Square::Empty })
}

/// Reading the placement text of ranks `rank` down to the first puts all their pieces on the board.
proof fn lemma_placement(s: Seq<Square>, rank: int)
    requires
        s.len() == 64,
        0 <= rank < 8,
    ensures
        forall|i: int| 0 <= i < placement_text(s, rank).len() ==> ((#[trigger] placement_text(s, rank)[i])
            as int) < 128 && placement_text(s, rank)[i] != ' ',
        placement_text(s, rank).len() <= 9 * rank + 9,
        run_ok(Placing { row: rank, col: 0, squares: filled(s, rank + 1) }, placement_text(s, rank)),
        run(Placing { row: rank, col: 0, squares: filled(s, rank + 1) }, placement_text(s, rank)) == (Placing {
            row: 0,
            col: 8,
            squares: filled(s, 0),
        }),
    decreases rank,
{
    let st = Placing { row: rank, col: 0, squares: filled(s, rank + 1) };
    lemma_rank(s, rank, 0, 0, st);
    assert(rank_filled(s, filled(s, rank + 1), rank, 0) =~= filled(s, rank));
    if rank > 0 {
        let a = rank_text(s, rank, 0, 0);
        let b = placement_text(s, rank - 1);
        let st1 = Placing { row: rank, col: 8, squares: filled(s, rank) };
        let st2 = Placing { row: rank - 1, col: 0, squares: filled(s, rank) };
        lemma_run_single(st1, '/');
        assert(run(st1, seq!['/']) == st2);
        assert(run_ok(st1, seq!['/']));
        lemma_run_concat(st, a, seq!['/']);
        lemma_placement(s, rank - 1);
        lemma_run_concat(st, a + seq!['/'], b);
        assert(field_chars(seq!['/']));
        lemma_field_chars_concat(a, seq!['/']);
        lemma_field_chars_concat(a + seq!['/'], b);
        assert(placement_text(s, rank) == a + seq!['/'] + b);
    }
}

/// The placement text of a board reads back as the board.
pub proof fn lemma_placement_reads_back(s: Seq<Square>)
    requires
        s.len() == 64,
    ensures
        field_chars(placement_text(s, 7)),
        placement_text(s, 7).len() <= 72,
        placing_ok(placement_text(s, 7), placement_text(s, 7).len() as int),
        placing(placement_text(s, 7), placement_text(s, 7).len() as int).squares == s,
{
    let pt = placement_text(s, 7);
    lemma_placement(s, 7);
    lemma_placing_run(pt, pt.len() as int);
    assert(pt.subrange(0, pt.len() as int) =~= pt);
    assert(filled(s, 8) =~= empty_board());
    assert(filled(s, 0) =~= s);
}

// ---- castling, en passant, numbers ----

proof fn lemma_rights_prefix(a: Seq<char>, b: Seq<char>, n: int)
    requires
        0 <= n <= a.len(),
        n <= b.len(),
        forall|i: int| 0 <= i < n ==> a[i] == b[i],
    ensures
        rights_of(a, n) == rights_of(b, n),
    decreases n,
{
    if n > 0 {
        lemma_rights_prefix(a, b, n - 1);
    }
}

/// Appending an optional castling letter adds its bit.
proof fn lemma_rights_letter(a: Seq<char>, held: bool, c: char)
    requires
        c == 'K' || c == 'Q' || c == 'k' || c == 'q',
        forall|i: int| 0 <= i < a.len() ==> rights_char_ok(#[trigger] a[i]) && field_chars(seq![a[i]]),
    ensures
        ({
            let b = a + if held { seq![c] } else { Seq::<char>::empty() };
            &&& rights_of(b, b.len() as int) == (rights_of(a, a.len() as int) | if held {
                right_of_char(c)
            } else {
                0u8
            })
            &&& forall|i: int| 0 <= i < b.len() ==> rights_char_ok(#[trigger] b[i]) && field_chars(seq![b[i]])
        }),
{
    let b = a + if held { seq![c] } else { Seq::<char>::empty() };
    if held {
        lemma_rights_prefix(a, b, a.len() as int);
        assert(b[a.len() as int] == c);
        assert(field_chars(seq![c]));
    } else {
        assert(b =~= a);
        let x = rights_of(a, a.len() as int);
        assert(x | 0u8 == x) by (bit_vector);
    }
}

/// The castling field reads back as the rights it was written from.
proof fn lemma_castling(cr: u8)
    requires
        cr < 16,
    ensures
        field_chars(castling_text(cr)),
        forall|i: int| 0 <= i < castling_text(cr).len() ==> rights_char_ok(#[trigger] castling_text(cr)[i]),
        rights_of(castling_text(cr), castling_text(cr).len() as int) == cr,
        castling_text(cr).len() <= 4,
{
    let b0 = has_flag(cr, CastlingRights::WHITEKINGSIDE);
    let b1 = has_flag(cr, CastlingRights::WHITEQUEENSIDE);
    let b2 = has_flag(cr, CastlingRights::BLACKKINGSIDE);
    let b3 = has_flag(cr, CastlingRights::BLACKQUEENSIDE);
    let e = Seq::<char>::empty();
    let t1 = e + if b0 { seq!['K'] } else { Seq::<char>::empty() };
    let t2 = t1 + if b1 { seq!['Q'] } else { Seq::<char>::empty() };
    let t3 = t2 + if b2 { seq!['k'] } else { Seq::<char>::empty() };
    let t4 = t3 + if b3 { seq!['q'] } else { Seq::<char>::empty() };
    lemma_rights_letter(e, b0, 'K');
    lemma_rights_letter(t1, b1, 'Q');
    lemma_rights_letter(t2, b2, 'k');
    lemma_rights_letter(t3, b3, 'q');
    assert(t4 =~= (if b0 { seq!['K'] } else { Seq::<char>::empty() }) + (if b1 { seq!['Q'] } else {
        Seq::<char>::empty()
    }) + (if b2 { seq!['k'] } else { Seq::<char>::empty() }) + (if b3 { seq!['q'] } else {
        Seq::<char>::empty()
    }));
    assert(cr < 16 ==> (((((0u8 | (if cr & 1 == 1 { 1u8 } else { 0u8 })) | (if cr & 2 == 2 { 2u8 } else {
        0u8
    })) | (if cr & 4 == 4 { 4u8 } else { 0u8 })) | (if cr & 8 == 8 { 8u8 } else { 0u8 })) == cr))
        by (bit_vector);
    assert(cr < 16 && cr & 1 != 1 && cr & 2 != 2 && cr & 4 != 4 && cr & 8 != 8 ==> cr == 0) by (bit_vector);
    if t4.len() == 0 {
        assert(castling_text(cr) == seq!['-']);
        assert(seq!['-'].drop_last() =~= Seq::<char>::empty());
        assert(rights_of(seq!['-'], 1) == (rights_of(seq!['-'], 0) | 0u8));
        assert(0u8 | 0u8 == 0u8) by (bit_vector);
        assert(field_chars(seq!['-']));
    } else {
        assert(castling_text(cr) == t4);
        assert forall|i: int| 0 <= i < t4.len() implies ((#[trigger] t4[i]) as int) < 128 && t4[i] != ' ' by {
            assert(field_chars(seq![t4[i]]));
            assert(seq![t4[i]][0] == t4[i]);
        }
    }
}

/// The character of file `f` ('a' for 0).
proof fn lemma_file_char(f: int)
    requires
        0 <= f < 8,
    ensures
        ((97 + f) as char) as int == 97 + f,
{
}

/// The en-passant field reads back as the en-passant bitboard it was written from.
proof fn lemma_en_passant(ep: u64)
    requires
        ep == 0 || (lowest(ep) < 64 && ep == 1u64 << (lowest(ep) as u64)),
    ensures
        field_chars(en_passant_text(ep)),
        ep_field_ok(en_passant_text(ep)),
        ep_field_value(en_passant_text(ep)) == ep,
        en_passant_text(ep).len() <= 2,
{
    if ep == 0 {
        assert(field_chars(seq!['-']));
    } else {
        let idx = lowest(ep);
        let f = idx % 8;
        let k = (idx / 8) % 256 + 1;
        assert(0 <= idx);
        assert(1 <= k <= 8);
        lemma_dec(k as nat);
        lemma_digit_char(k);
        lemma_file_char(f);
        assert(dec(k as nat) == seq![crate::text::digit_char(k)]);
        let t = en_passant_text(ep);
        assert(t == seq![(97 + f) as char, crate::text::digit_char(k)]);
        assert(t[0] as int - 97 == f);
        assert(t[1] as int - 49 == k - 1);
        assert((t[1] as int - 49) * 8 + (t[0] as int - 97) == idx);
        assert(t != seq!['-']);
        assert(field_chars(t));
    }
}

/// Powers of ten.
pub open spec fn pow10(k: nat) -> int
    decreases k,
{
    if k == 0 { 1 } else { 10 * pow10((k - 1) as nat) }
}

proof fn lemma_dec_len(n: nat, k: nat)
    requires
        n < pow10(k),
        k >= 1,
    ensures
        dec(n).len() <= k,
    decreases k,
{
    if n >= 10 {
        let q = pow10((k - 1) as nat);
        assert(n < 10 * q);
        if k == 1 {
            assert(q == 1);
        }
        assert(n / 10 < q) by (nonlinear_arith)
            requires
                n < 10 * q,
                n >= 10,
        ;
        lemma_dec_len(n / 10, (k - 1) as nat);
    }
}

proof fn lemma_pow10_pos(k: nat)
    ensures
        pow10(k) >= 1,
    decreases k,
{
    if k > 0 {
        lemma_pow10_pos((k - 1) as nat);
    }
}

/// A `usize` has at most twenty decimal digits.
proof fn lemma_dec_usize(n: usize)
    ensures
        dec(n as nat).len() <= 20,
{
    reveal_with_fuel(pow10, 21);
    assert(pow10(20) == 100000000000000000000);
    assert(n < pow10(20));
    lemma_dec_len(n as nat, 20);
}

proof fn lemma_field_chars_ascii(cs: Seq<char>)
    requires
        field_chars(cs),
    ensures
        vstd::utf8::is_ascii_chars(cs),
{
    assert forall|i: int| 0 <= i < cs.len() implies '\0' <= #[trigger] cs[i] <= '\u{7f}' by {
        assert((cs[i] as int) < 128);
        lemma_ascii_char(cs[i]);
    }
}

proof fn lemma_ascii_char(c: char)
    requires
        (c as int) < 128,
    ensures
        '\0' <= c <= '\u{7f}',
{
}

proof fn lemma_ascii_concat(a: Seq<char>, b: Seq<char>)
    requires
        vstd::utf8::is_ascii_chars(a),
        vstd::utf8::is_ascii_chars(b),
    ensures
        vstd::utf8::is_ascii_chars(a + b),
{
    assert forall|i: int| 0 <= i < (a + b).len() implies '\0' <= #[trigger] (a + b)[i] <= '\u{7f}' by {
        if i < a.len() {
            assert((a + b)[i] == a[i]);
        } else {
            assert((a + b)[i] == b[i - a.len()]);
        }
    }
}

/// The field after a separator.
proof fn lemma_field_step(a: Seq<char>, b: Seq<char>, k: nat)
    requires
        field_chars(a),
    ensures
        field(a + seq![' '] + b, 0) == a,
        field(a + seq![' '] + b, k + 1) == field(b, k),
{
    lemma_split_at(a, b);
}

/// The six fields of a FEN text joined by single spaces.
proof fn lemma_fields(pl: Seq<char>, col: Seq<char>, ca: Seq<char>, ep: Seq<char>, hm: Seq<char>, fm: Seq<char>)
    requires
        field_chars(pl),
        field_chars(col),
        field_chars(ca),
        field_chars(ep),
        field_chars(hm),
        field_chars(fm),
    ensures
        ({
            let text = pl + seq![' '] + (col + seq![' '] + (ca + seq![' '] + (ep + seq![' '] + (hm + seq![' ']
                + fm))));
            &&& field(text, 0) == pl
            &&& field(text, 1) == col
            &&& field(text, 2) == ca
            &&& field(text, 3) == ep
            &&& field(text, 4) == hm
            &&& field(text, 5) == fm
        }),
{
    let r4 = hm + seq![' '] + fm;
    let r3 = ep + seq![' '] + r4;
    let r2 = ca + seq![' '] + r3;
    let r1 = col + seq![' '] + r2;
    lemma_field_step(pl, r1, 0);
    lemma_field_step(pl, r1, 1);
    lemma_field_step(pl, r1, 2);
    lemma_field_step(pl, r1, 3);
    lemma_field_step(pl, r1, 4);
    lemma_field_step(col, r2, 0);
    lemma_field_step(col, r2, 1);
    lemma_field_step(col, r2, 2);
    lemma_field_step(col, r2, 3);
    lemma_field_step(ca, r3, 0);
    lemma_field_step(ca, r3, 1);
    lemma_field_step(ca, r3, 2);
    lemma_field_step(ep, r4, 0);
    lemma_field_step(ep, r4, 1);
    lemma_field_step(hm, fm, 0);
    lemma_split_none(fm);
}

/// A FEN text of ASCII fields is ASCII.
proof fn lemma_fields_ascii(pl: Seq<char>, col: Seq<char>, ca: Seq<char>, ep: Seq<char>, hm: Seq<char>, fm: Seq<char>)
    requires
        field_chars(pl),
        field_chars(col),
        field_chars(ca),
        field_chars(ep),
        field_chars(hm),
        field_chars(fm),
    ensures
        vstd::utf8::is_ascii_chars(pl + seq![' '] + (col + seq![' '] + (ca + seq![' '] + (ep + seq![' '] + (hm
            + seq![' '] + fm))))),
{
    let sp = seq![' '];
    let r4 = hm + sp + fm;
    let r3 = ep + sp + r4;
    let r2 = ca + sp + r3;
    let r1 = col + sp + r2;
    assert(vstd::utf8::is_ascii_chars(sp)) by {
        lemma_ascii_char(' ');
    }
    lemma_field_chars_ascii(pl);
    lemma_field_chars_ascii(col);
    lemma_field_chars_ascii(ca);
    lemma_field_chars_ascii(ep);
    lemma_field_chars_ascii(hm);
    lemma_field_chars_ascii(fm);
    lemma_ascii_concat(hm, sp);
    lemma_ascii_concat(hm + sp, fm);
    lemma_ascii_concat(ep, sp);
    lemma_ascii_concat(ep + sp, r4);
    lemma_ascii_concat(ca, sp);
    lemma_ascii_concat(ca + sp, r3);
    lemma_ascii_concat(col, sp);
    lemma_ascii_concat(col + sp, r2);
    lemma_ascii_concat(pl, sp);
    lemma_ascii_concat(pl + sp, r1);
}

/// The FEN text of a position, field by field.
pub open spec fn fen_fields(p: Position) -> (Seq<char>, Seq<char>, Seq<char>, Seq<char>, Seq<char>, Seq<char>) {
    (
        placement_text(p.squares, 7),
        seq![if p.active_color == Color::White { 'w' } else { 'b' }],
        castling_text(p.castling_rights),
        en_passant_text(p.en_passent),
        dec(p.halfmove_clock as nat),
        dec(p.fullmove_number as nat),
    )
}

proof fn lemma_fen_text_shape(p: Position)
    ensures
        ({
            let (pl, col, ca, ep, hm, fm) = fen_fields(p);
            fen_text(p) == pl + seq![' '] + (col + seq![' '] + (ca + seq![' '] + (ep + seq![' '] + (hm + seq![' ']
                + fm))))
        }),
{
    let (pl, col, ca, ep, hm, fm) = fen_fields(p);
    assert(fen_text(p) =~= pl + seq![' '] + (col + seq![' '] + (ca + seq![' '] + (ep + seq![' '] + (hm + seq![
        ' ',
    ] + fm)))));
}

/// What each field of the FEN text of `p` says.
proof fn lemma_fen_field_values(p: Position)
    requires
        p.squares.len() == 64,
        p.castling_rights < 16,
        p.en_passent == 0 || (lowest(p.en_passent) < 64 && p.en_passent == 1u64 << (lowest(p.en_passent) as u64)),
    ensures
        ({
            let (pl, col, ca, ep, hm, fm) = fen_fields(p);
            &&& field_chars(pl) && field_chars(col) && field_chars(ca) && field_chars(ep) && field_chars(hm)
                && field_chars(fm)
            &&& pl.len() <= 72 && ca.len() <= 4 && ep.len() <= 2 && hm.len() <= 20 && fm.len() <= 20
            &&& placing_ok(pl, pl.len() as int)
            &&& placing(pl, pl.len() as int).squares == p.squares
            &&& (col == seq!['w'] || col == seq!['b'])
            &&& (col == seq!['w']) == (p.active_color == Color::White)
            &&& forall|i: int| 0 <= i < ca.len() ==> rights_char_ok(#[trigger] ca[i])
            &&& rights_of(ca, ca.len() as int) == p.castling_rights
            &&& ep_field_ok(ep)
            &&& ep_field_value(ep) == p.en_passent
            &&& parses_usize(hm) && usize_value(hm) == p.halfmove_clock
            &&& parses_usize(fm) && usize_value(fm) == p.fullmove_number
        }),
{
    let (pl, col, ca, ep, hm, fm) = fen_fields(p);
    lemma_placement_reads_back(p.squares);
    lemma_castling(p.castling_rights);
    lemma_en_passant(p.en_passent);
    lemma_dec_parses(p.halfmove_clock as nat);
    lemma_dec_parses(p.fullmove_number as nat);
    lemma_dec_usize(p.halfmove_clock);
    lemma_dec_usize(p.fullmove_number);
    assert(field_chars(col));
    if p.active_color != Color::White {
        assert(col[0] == 'b');
    }
}

/// Reading back what `to_fen` writes gives the board it was written from: its pieces, side to
/// move, castling rights, en-passant square and both counters, with the hash computed from
/// scratch and no earlier positions. This holds for any board whose castling rights are four
/// bits and whose en-passant bitboard is empty or one square.
pub proof fn lemma_fen_roundtrip(p: Position)
    requires
        p.squares.len() == 64,
        p.castling_rights < 16,
        p.en_passent == 0 || (lowest(p.en_passent) < 64 && p.en_passent == 1u64 << (lowest(p.en_passent) as u64)),
    ensures
        valid_fen(fen_text(p)),
        fen_position(fen_text(p)) == (Position { hash: position_key(p), path: Seq::empty(), ..p }),
{
    let (pl, col, ca, ep, hm, fm) = fen_fields(p);
    let text = fen_text(p);
    lemma_fen_text_shape(p);
    lemma_fen_field_values(p);
    lemma_fields(pl, col, ca, ep, hm, fm);
    lemma_fields_ascii(pl, col, ca, ep, hm, fm);
    assert(text.len() <= 200);
    let q = Position {
        squares: placing(pl, pl.len() as int).squares,
        active_color: if col == seq!['w'] { Color::White } else { Color::Black },
        castling_rights: rights_of(ca, ca.len() as int),
        en_passent: ep_field_value(ep),
        halfmove_clock: usize_value(hm) as usize,
        fullmove_number: usize_value(fm) as usize,
        hash: 0,
        path: Seq::empty(),
    };
    assert(q == Position { hash: 0, path: Seq::empty(), ..p });
}

} // verus!

