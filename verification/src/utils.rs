//! Bitboards, square names and string splitting.
use vstd::prelude::*;
use crate::bits::{holds, lowest, highest, popcount, lemma_has_or, lemma_has_single, lemma_popcount_bounds,
    lemma_popcount_clear_lowest, lemma_clear_lowest, lemma_popcount_zero};
use vstd::string::{StringSliceAdditionalSpecFns, StrSliceExecFns, StringExecFns};
use crate::text::{dec, byte_char, byte_to_char, push_char, append_dec};

verus! {

/// One bit per square: bit `rank * 8 + file`.
pub type BitBoard = u64;

pub const FILE_A: BitBoard = 0x0101010101010101u64;
pub const FILE_B: BitBoard = 0x0202020202020202u64;
pub const FILE_C: BitBoard = 0x0404040404040404u64;
pub const FILE_D: BitBoard = 0x0808080808080808u64;
pub const FILE_E: BitBoard = 0x1010101010101010u64;
pub const FILE_F: BitBoard = 0x2020202020202020u64;
pub const FILE_G: BitBoard = 0x4040404040404040u64;
pub const FILE_H: BitBoard = 0x8080808080808080u64;

/// Square index of 1-based `row` and `col`.
pub open spec fn square_of(row: int, col: int) -> int {
    (row - 1) * 8 + (col - 1)
}

pub open spec fn on_board(row: int, col: int) -> bool {
    1 <= row <= 8 && 1 <= col <= 8
}

/// The file (0..8) of a square.
pub open spec fn file_of(sq: int) -> int {
    sq % 8
}

/// The mask of file `f` (0 = a .. 7 = h).
pub fn file_mask(f: usize) -> (r: BitBoard)
    requires
        f < 8,
    ensures
        forall|i: int| #[trigger] holds(r, i) == (0 <= i < 64 && file_of(i) == f),
{
    let r = if f == 0 {
        FILE_A
    } else if f == 1 {
        FILE_B
    } else if f == 2 {
        FILE_C
    } else if f == 3 {
        FILE_D
    } else if f == 4 {
        FILE_E
    } else if f == 5 {
        FILE_F
    } else if f == 6 {
        FILE_G
    } else {
        FILE_H
    };
    proof {
        lemma_file_masks();
    }
    r
}

proof fn lemma_file_masks()
    ensures
        forall|i: int| #[trigger] holds(FILE_A, i) == (0 <= i < 64 && file_of(i) == 0),
        forall|i: int| #[trigger] holds(FILE_B, i) == (0 <= i < 64 && file_of(i) == 1),
        forall|i: int| #[trigger] holds(FILE_C, i) == (0 <= i < 64 && file_of(i) == 2),
        forall|i: int| #[trigger] holds(FILE_D, i) == (0 <= i < 64 && file_of(i) == 3),
        forall|i: int| #[trigger] holds(FILE_E, i) == (0 <= i < 64 && file_of(i) == 4),
        forall|i: int| #[trigger] holds(FILE_F, i) == (0 <= i < 64 && file_of(i) == 5),
        forall|i: int| #[trigger] holds(FILE_G, i) == (0 <= i < 64 && file_of(i) == 6),
        forall|i: int| #[trigger] holds(FILE_H, i) == (0 <= i < 64 && file_of(i) == 7),
{
    assert forall|i: int|
        #![trigger holds(FILE_A, i)]
        #![trigger holds(FILE_B, i)]
        #![trigger holds(FILE_C, i)]
        #![trigger holds(FILE_D, i)]
        #![trigger holds(FILE_E, i)]
        #![trigger holds(FILE_F, i)]
        #![trigger holds(FILE_G, i)]
        #![trigger holds(FILE_H, i)]
        0 <= i < 64 implies (holds(FILE_A, i) == (file_of(i) == 0)
        && holds(FILE_B, i) == (file_of(i) == 1) && holds(FILE_C, i) == (file_of(i) == 2)
        && holds(FILE_D, i) == (file_of(i) == 3) && holds(FILE_E, i) == (file_of(i) == 4)
        && holds(FILE_F, i) == (file_of(i) == 5) && holds(FILE_G, i) == (file_of(i) == 6)
        && holds(FILE_H, i) == (file_of(i) == 7)) by {
        let j = i as u64;
        assert(j < 64 ==> (((0x0101010101010101u64 >> j) & 1u64 == 1u64) == (j % 8 == 0)
            && ((0x0202020202020202u64 >> j) & 1u64 == 1u64) == (j % 8 == 1)
            && ((0x0404040404040404u64 >> j) & 1u64 == 1u64) == (j % 8 == 2)
            && ((0x0808080808080808u64 >> j) & 1u64 == 1u64) == (j % 8 == 3)
            && ((0x1010101010101010u64 >> j) & 1u64 == 1u64) == (j % 8 == 4)
            && ((0x2020202020202020u64 >> j) & 1u64 == 1u64) == (j % 8 == 5)
            && ((0x4040404040404040u64 >> j) & 1u64 == 1u64) == (j % 8 == 6)
            && ((0x8080808080808080u64 >> j) & 1u64 == 1u64) == (j % 8 == 7))) by (bit_vector);
    }
}

/// Sets the square at 1-based `row`, `col`; off-board coordinates leave the board as it is.
pub fn set_bit(bitboard: BitBoard, row: i32, col: i32) -> (r: BitBoard)
    ensures
        forall|t: int| #[trigger] holds(r, t) == (holds(bitboard, t) || (on_board(row as int, col as int)
            && t == square_of(row as int, col as int))),
{
    if row < 1 || row > 8 || col < 1 || col > 8 {
        return bitboard;
    }
    let k: u64 = ((col - 1) + (row - 1) * 8) as u64;
    proof {
        lemma_has_or(bitboard, 1u64 << k);
        lemma_has_single(k);
    }
    bitboard | (1u64 << k)
}

/// Index of the lowest set square (64 for an empty board).
pub fn bit_scan(bit: BitBoard) -> (r: usize)
    ensures
        r == lowest(bit),
        bit != 0 ==> r < 64,
        bit == 0 ==> r == 64,
{
    proof {
        vstd::std_specs::bits::axiom_u64_trailing_zeros(bit);
    }
    bit.trailing_zeros() as usize
}

/// Index of the highest set square of a non-empty board.
pub fn bit_scan_backward(bit: BitBoard) -> (r: usize)
    requires
        bit != 0,
    ensures
        r == highest(bit),
        r < 64,
{
    proof {
        vstd::std_specs::bits::axiom_u64_leading_zeros(bit);
    }
    63 - bit.leading_zeros() as usize
}

/// Number of set squares.
pub fn count_ones(bit: BitBoard) -> (r: i32)
    ensures
        r == popcount(bit),
        0 <= r <= 64,
{
    let mut b = bit;
    let mut n: i32 = 0;
    proof {
        lemma_popcount_bounds(bit);
    }
    while b != 0
        invariant
            n + popcount(b) == popcount(bit),
            popcount(bit) <= 64,
            0 <= n <= 64,
        decreases b,
    {
        proof {
            lemma_popcount_clear_lowest(b);
            lemma_popcount_bounds(b);
            lemma_popcount_bounds(b & ((b - 1) as u64));
            lemma_clear_lowest(b);
        }
        b = b & (b - 1);
        n = n + 1;
        assert(n + popcount(b) == popcount(bit));
        proof {
            lemma_popcount_bounds(b);
        }
    }
    proof {
        lemma_popcount_zero();
    }
    n
}

/// Bytes of a square name "a1".."h8" that `pos_to_bit` accepts.
pub open spec fn valid_square_name(bs: Seq<u8>) -> bool {
    bs.len() == 2 && 97 <= bs[0] < 105 && 49 <= bs[1] <= 56
}

/// Square index named by valid bytes.
pub open spec fn named_square(bs: Seq<u8>) -> int {
    (bs[1] - 49) * 8 + (bs[0] - 97)
}

/// The message `pos_to_bit` gives for a name it refuses.
pub open spec fn pos_error(pos: Seq<char>, bs: Seq<u8>) -> Seq<char> {
    if bs.len() != 2 {
        "Invalid length for piece position: "@ + dec((bs.len() as usize) as nat) + ", string: '"@ + pos + "'"@
    } else if !(97 <= bs[0] < 105) {
        "Invalid column character: "@.push(byte_char(bs[0])) + ", string '"@ + pos + "'"@
    } else {
        "Invalid row character: "@.push(byte_char(bs[1])) + ", string: '"@ + pos + "'"@
    }
}

/// The bitboard of the square named by `pos` ("e4"), or why the name is refused.
pub fn pos_to_bit(pos: &str) -> (r: Result<BitBoard, String>)
    ensures
        valid_square_name(pos.spec_bytes()) ==> (r matches Ok(b) && b == 1u64 << (named_square(pos.spec_bytes()) as u64)
            && forall|t: int| #[trigger] holds(b, t) == (t == named_square(pos.spec_bytes()))),
        !valid_square_name(pos.spec_bytes()) ==> (r matches Err(e) && e@ == pos_error(
            pos@,
            pos.spec_bytes(),
        )),
{
    let bytes = pos.as_bytes();
    if pos.len() != 2 {
        let mut e = String::from_str("Invalid length for piece position: ");
        append_dec(&mut e, pos.len());
        e.append(", string: '");
        e.append(pos);
        e.append("'");
        assert(e@ =~= pos_error(pos@, pos.spec_bytes()));
        return Err(e);
    }
    let byte0 = bytes[0];
    if byte0 < 97 || byte0 >= 97 + 8 {
        let mut e = String::from_str("Invalid column character: ");
        push_char(&mut e, byte_to_char(byte0));
        e.append(", string '");
        e.append(pos);
        e.append("'");
        assert(e@ =~= pos_error(pos@, pos.spec_bytes()));
        return Err(e);
    }
    let column: u32 = (byte0 - 97) as u32;
    let byte1 = bytes[1];
    if byte1 < 49 || byte1 > 56 {
        let mut e = String::from_str("Invalid row character: ");
        push_char(&mut e, byte_to_char(byte1));
        e.append(", string: '");
        e.append(pos);
        e.append("'");
        assert(e@ =~= pos_error(pos@, pos.spec_bytes()));
        return Err(e);
    }
    let row: u32 = (byte1 - 49) as u32;
    let square_number: u32 = row * 8 + column;
    proof {
        lemma_has_single(square_number as u64);
    }
    Ok(1u64 << (square_number as u64))
}

/// The name of a square: file letter and rank number ("e4" for 28).
pub open spec fn algebraic(idx: nat) -> Seq<char> {
    seq![(97 + idx % 8) as char] + dec(((idx / 8) % 256 + 1) as nat)
}

pub fn index_to_algebraic(idx: usize) -> (r: String)
    requires
        (idx / 8) % 256 != 255,
    ensures
        r@ == algebraic(idx as nat),
{
    let file: u8 = (idx % 8) as u8;
    let rank: u8 = ((idx / 8) % 256) as u8;
    let mut s = String::new();
    push_char(&mut s, (97u8 + file) as char);
    append_dec(&mut s, (rank + 1) as usize);
    assert(s@ =~= algebraic(idx as nat));
    s
}

/// Square index of a name whose first two bytes are a file letter and a rank digit.
pub fn algebraic_to_index(s: &str) -> (r: usize)
    requires
        s.spec_bytes().len() >= 2,
        s.spec_bytes()[0] >= 97,
        s.spec_bytes()[1] >= 49,
    ensures
        r == (s.spec_bytes()[1] - 49) * 8 + (s.spec_bytes()[0] - 97),
{
    let bytes = s.as_bytes();
    let file = (bytes[0] - 97) as usize;
    let rank = (bytes[1] - 49) as usize;
    rank * 8 + file
}

/// Splits at the first `sep`: the text before it and the text after it,
/// or the whole text and "" when `sep` does not occur.
pub open spec fn split_spec(s: Seq<char>, sep: char) -> (Seq<char>, Seq<char>) {
    if exists|i: int| 0 <= i < s.len() && s[i] == sep {
        let i = choose|i: int|
            0 <= i < s.len() && s[i] == sep && forall|j: int| 0 <= j < i ==> s[j] != sep;
        (s.subrange(0, i), s.subrange(i + 1, s.len() as int))
    } else {
        (s, Seq::empty())
    }
}

pub fn split_on(s: &str, sep: char) -> (r: (&str, &str))
    requires
        s.is_ascii(),
    ensures
        r.0@ == split_spec(s@, sep).0,
        r.1@ == split_spec(s@, sep).1,
        r.0.is_ascii(),
        r.1.is_ascii(),
{
    let n = s.unicode_len();
    let mut i: usize = 0;
    while i < n
        invariant
            n == s@.len(),
            i <= n,
            s.is_ascii(),
            forall|j: int| 0 <= j < i ==> s@[j] != sep,
        decreases n - i,
    {
        if s.get_char(i) == sep {
            let a = s.substring_ascii(0, i);
            let b = s.substring_ascii(i + 1, n);
            proof {
                let k = choose|k: int|
                    0 <= k < s@.len() && s@[k] == sep && forall|j: int| 0 <= j < k ==> s@[j] != sep;
                assert(s@[i as int] == sep);
                if k < i {
                } else if k > i {
                    assert(s@[i as int] != sep);
                }
                assert(k == i);
            }
            return (a, b);
        }
        i = i + 1;
    }
    let a = s.substring_ascii(0, n);
    let b = s.substring_ascii(n, n);
    assert(a@ =~= s@);
    assert(b@ =~= Seq::<char>::empty());
    (a, b)
}

/// Square name with the rank counted without bound ("e4" for 28).
pub open spec fn position_name(idx: nat) -> Seq<char> {
    seq![(97 + idx % 8) as char] + dec(idx / 8 + 1)
}

/// The name of square `index`.
pub fn index_to_pos(index: usize) -> (r: String)
    ensures
        r@ == position_name(index as nat),
{
    let column: u8 = (index % 8) as u8;
    let mut s = String::new();
    push_char(&mut s, byte_to_char(97 + column));
    append_dec(&mut s, index / 8 + 1);
    assert(s@ =~= position_name(index as nat));
    s
}

/// Square of a one-bit bitboard by its remainder modulo 67 (64 where no square has it).
pub open spec fn mod67_table() -> Seq<usize> {
    seq![
        64, 0, 1, 39, 2, 15, 40, 23, 3, 12, 16, 59, 41, 19, 24, 54, 4, 64, 13, 10, 17, 62, 60, 28,
        42, 30, 20, 51, 25, 44, 55, 47, 5, 32, 64, 38, 14, 22, 11, 58, 18, 53, 63, 9, 61, 27, 29,
        50, 43, 46, 31, 37, 21, 57, 52, 8, 26, 49, 45, 36, 56, 7, 48, 35, 6, 34, 33,
    ]
}

/// The square a one-bit bitboard marks, looked up by its remainder modulo 67.
fn mod67_scan(bit: u64) -> (r: usize)
    ensures
        r == mod67_table()[(bit % 67) as int],
{
    let table: [usize; 67] = [
        64, 0, 1, 39, 2, 15, 40, 23, 3, 12, 16, 59, 41, 19, 24, 54, 4, 64, 13, 10, 17, 62, 60, 28,
        42, 30, 20, 51, 25, 44, 55, 47, 5, 32, 64, 38, 14, 22, 11, 58, 18, 53, 63, 9, 61, 27, 29,
        50, 43, 46, 31, 37, 21, 57, 52, 8, 26, 49, 45, 36, 56, 7, 48, 35, 6, 34, 33,
    ];
    assert(table@ =~= mod67_table());
    table[(bit % 67) as usize]
}

/// The name of the square a one-bit bitboard marks, or an error for an empty bitboard.
pub fn bit_to_pos(bit: u64) -> (r: Result<String, String>)
    ensures
        bit == 0 ==> (r matches Err(e) && e@ == "No piece present!"@),
        bit != 0 ==> (r matches Ok(s) && s@ == position_name(mod67_table()[(bit % 67) as int] as nat)),
{
    if bit == 0 {
        Err(String::from_str("No piece present!"))
    } else {
        let onebit_index = mod67_scan(bit);
        Ok(index_to_pos(onebit_index))
    }
}

/// The character a bitboard picture shows for square `i`: `X` for the marked square, `1` for a
/// set square, `.` otherwise.
pub open spec fn cell_char(b: u64, mark: Option<usize>, i: int) -> char {
    if mark == Some(i as usize) {
        'X'
    } else if holds(b, i) {
        '1'
    } else {
        '.'
    }
}

/// A picture of a bitboard: eight lines of eight cells, the eighth rank first.
pub open spec fn bitboard_text(b: u64, mark: Option<usize>) -> Seq<char> {
    Seq::new(72, |k: int| if k % 9 == 8 { '\n' } else { cell_char(b, mark, (7 - k / 9) * 8 + k % 9) })
}

/// Draws a bitboard, optionally marking one square.
pub fn bitboard_to_string(bitboard: BitBoard, mark: Option<usize>) -> (r: String)
    ensures
        r@ == bitboard_text(bitboard, mark),
{
    let mut s = String::new();
    let mut k: usize = 0;
    while k < 72
        invariant
            k <= 72,
            s@ == bitboard_text(bitboard, mark).subrange(0, k as int),
        decreases 72 - k,
    {
        let c: char = if k % 9 == 8 {
            '\n'
        } else {
            let i: usize = (7 - k / 9) * 8 + k % 9;
            if mark == Some(i) {
                'X'
            } else if (bitboard >> (i as u64)) & 1 == 1 {
                '1'
            } else {
                '.'
            }
        };
        push_char(&mut s, c);
        k = k + 1;
        assert(s@ =~= bitboard_text(bitboard, mark).subrange(0, k as int));
    }
    assert(bitboard_text(bitboard, mark).subrange(0, 72) =~= bitboard_text(bitboard, mark));
    s
}

} // verus!
