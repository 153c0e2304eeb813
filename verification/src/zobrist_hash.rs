//! Zobrist hashing: one pseudo-random key per (piece, square), castling state, en-passant
//! file and side to move; a position's hash is the XOR of the keys that apply to it.
//! The keys come from a 64-bit linear congruential generator with fixed seeds.
use vstd::prelude::*;
use vstd::arithmetic::div_mod::{lemma_mul_mod_noop_left, lemma_mul_mod_noop_right, lemma_add_mod_noop};
use crate::chess::{Chess, Position};
use crate::color::Color;
use crate::square::Square;
use crate::utils::BitBoard;

verus! {

pub open spec fn modulus() -> int {
    0x1_0000_0000_0000_0000
}

pub open spec fn lcg_mul() -> int {
    6364136223846793005
}

pub open spec fn lcg_inc() -> int {
    1442695040888963407
}

/// One step of the generator.
pub open spec fn lcg_step(x: int) -> int {
    (lcg_mul() * x + lcg_inc()) % modulus()
}

/// The generator's state after `n` steps from `seed`.
pub open spec fn lcg(seed: int, n: nat) -> int
    decreases n,
{
    if n == 0 {
        seed
    } else {
        lcg_step(lcg(seed, (n - 1) as nat))
    }
}

/// Multiplier of the affine map that `n` steps apply.
spec fn coef_a(n: nat) -> int
    decreases n,
{
    if n == 0 {
        1
    } else {
        (lcg_mul() * coef_a((n - 1) as nat)) % modulus()
    }
}

/// Increment of the affine map that `n` steps apply.
spec fn coef_c(n: nat) -> int
    decreases n,
{
    if n == 0 {
        0
    } else {
        (lcg_mul() * coef_c((n - 1) as nat) + lcg_inc()) % modulus()
    }
}

proof fn lemma_coef_bounds(n: nat)
    ensures
        0 <= coef_a(n) < modulus(),
        0 <= coef_c(n) < modulus(),
    decreases n,
{
    if n > 0 {
        lemma_coef_bounds((n - 1) as nat);
    }
}

/// Reducing the argument of an affine map modulo `m` does not change the result modulo `m`.
proof fn lemma_mod_affine_right(p: int, q: int, x: int, m: int)
    requires
        m > 0,
    ensures
        (p * (x % m) + q) % m == (p * x + q) % m,
{
    lemma_mul_mod_noop_right(p, x, m);
    lemma_add_mod_noop(p * (x % m), q, m);
    lemma_add_mod_noop(p * x, q, m);
}

/// Reducing the multiplier modulo `m` does not change the result modulo `m`.
proof fn lemma_mod_affine_left(p: int, s: int, q: int, m: int)
    requires
        m > 0,
    ensures
        ((p % m) * s + q) % m == (p * s + q) % m,
{
    lemma_mul_mod_noop_left(p, s, m);
    lemma_add_mod_noop((p % m) * s, q, m);
    lemma_add_mod_noop(p * s, q, m);
}

/// Reducing the increment modulo `m` does not change the result modulo `m`.
proof fn lemma_mod_add_right(y: int, q: int, m: int)
    requires
        m > 0,
    ensures
        (y + q % m) % m == (y + q) % m,
{
    lemma_add_mod_noop(y, q % m, m);
    lemma_add_mod_noop(y, q, m);
    lemma_mod_twice(q, m);
}

proof fn lemma_mod_twice(x: int, m: int)
    requires
        m > 0,
    ensures
        (x % m) % m == x % m,
{
    vstd::arithmetic::div_mod::lemma_mod_mod(x, m, 1);
    assert(m * 1 == m);
}

proof fn lemma_mod_small(x: int, m: int)
    requires
        0 <= x < m,
    ensures
        x % m == x,
{
    vstd::arithmetic::div_mod::lemma_small_mod(x as nat, m as nat);
}

/// Composing `p x + q` after `a s + c`, modulo `m`.
proof fn lemma_affine_after(p: int, q: int, a: int, c: int, s: int, m: int)
    requires
        m > 0,
    ensures
        (p * ((a * s + c) % m) + q) % m == (((p * a) % m) * s + (p * c + q) % m) % m,
{
    lemma_mod_affine_right(p, q, a * s + c, m);
    assert(p * (a * s + c) + q == (p * a) * s + (p * c + q)) by (nonlinear_arith);
    lemma_mod_add_right(((p * a) % m) * s, p * c + q, m);
    lemma_mod_affine_left(p * a, s, p * c + q, m);
}

/// `n` steps of the generator form one affine map.
proof fn lemma_lcg_affine(seed: int, n: nat)
    requires
        0 <= seed < modulus(),
    ensures
        lcg(seed, n) == (coef_a(n) * seed + coef_c(n)) % modulus(),
    decreases n,
{
    let m = modulus();
    if n == 0 {
        assert(1 * seed + 0 == seed) by (nonlinear_arith);
        lemma_mod_small(seed, m);
    } else {
        let k = (n - 1) as nat;
        lemma_lcg_affine(seed, k);
        lemma_affine_after(lcg_mul(), lcg_inc(), coef_a(k), coef_c(k), seed, m);
    }
}

/// `m` steps after `n` steps are `m + n` steps.
proof fn lemma_coef_compose(m: nat, n: nat)
    ensures
        coef_a(m + n) == (coef_a(m) * coef_a(n)) % modulus(),
        coef_c(m + n) == (coef_a(m) * coef_c(n) + coef_c(m)) % modulus(),
    decreases m,
{
    let md = modulus();
    lemma_coef_bounds(n);
    if m == 0 {
        assert(coef_a(0 + n) == coef_a(n));
        assert(1 * coef_a(n) == coef_a(n)) by (nonlinear_arith);
        assert(1 * coef_c(n) + 0 == coef_c(n)) by (nonlinear_arith);
        lemma_mod_small(coef_a(n), md);
        lemma_mod_small(coef_c(n), md);
    } else {
        let k = (m - 1) as nat;
        lemma_coef_compose(k, n);
        assert((m + n) as nat == ((k + n) as nat + 1) as nat);
        let ak = coef_a(k);
        let ck = coef_c(k);
        let an = coef_a(n);
        let cn = coef_c(n);
        let a = lcg_mul();
        let c = lcg_inc();
        // multiplier: a * ((ak * an) % md) % md == ((a * ak) % md) * an % md
        assert(a * (ak * an) + 0 == (a * ak) * an + 0) by (nonlinear_arith);
        lemma_mod_affine_right(a, 0, ak * an, md);
        lemma_mod_affine_left(a * ak, an, 0, md);
        // increment
        lemma_affine_after(a, c, ak, ck, cn, md);
    }
}

/// The generator's state after `n` steps from `seed`, in O(log n) time.
pub fn lcg_jump(seed: u64, n: u64) -> (r: u64)
    ensures
        r == lcg(seed as int, n as nat),
{
    let ghost md = modulus();
    let mut ra: u64 = 1;
    let mut rc: u64 = 0;
    let mut ba: u64 = 6364136223846793005;
    let mut bc: u64 = 1442695040888963407;
    let mut k: u64 = n;
    let ghost mut done: nat = 0;
    let ghost mut pw: nat = 1;
    proof {
        reveal_with_fuel(coef_a, 2);
        reveal_with_fuel(coef_c, 2);
    }
    while k > 0
        invariant
            md == modulus(),
            done + pw * k == n,
            pw >= 1,
            ra == coef_a(done),
            rc == coef_c(done),
            ba == coef_a(pw),
            bc == coef_c(pw),
        decreases k,
    {
        let ghost old_k = k as int;
        if k % 2 == 1 {
            let (na, nc) = compose(ba, bc, ra, rc);
            proof {
                lemma_coef_compose(pw, done);
                assert((pw + done) as nat == (done + pw) as nat);
            }
            ra = na;
            rc = nc;
            proof {
                done = done + pw;
            }
        }
        let (na2, nc2) = compose(ba, bc, ba, bc);
        proof {
            lemma_coef_compose(pw, pw);
        }
        ba = na2;
        bc = nc2;
        proof {
            lemma_halving(pw as int, old_k);
            pw = pw + pw;
        }
        k = k / 2;
    }
    proof {
        lemma_lcg_affine(seed as int, n as nat);
        lemma_coef_bounds(n as nat);
        assert(done == n);
    }
    apply_affine(ra, rc, seed)
}

proof fn lemma_halving(pw: int, k: int)
    requires
        k >= 1,
    ensures
        k % 2 == 1 ==> pw * k == pw + (pw + pw) * (k / 2),
        k % 2 == 0 ==> pw * k == (pw + pw) * (k / 2),
{
    assert(k % 2 == 1 ==> pw * k == pw + (pw + pw) * (k / 2)) by (nonlinear_arith);
    assert(k % 2 == 0 ==> pw * k == (pw + pw) * (k / 2)) by (nonlinear_arith);
}

/// The affine map `x -> a1 x + c1` after `x -> a2 x + c2`, modulo 2^64.
fn compose(a1: u64, c1: u64, a2: u64, c2: u64) -> (r: (u64, u64))
    ensures
        r.0 == (a1 * a2) % modulus(),
        r.1 == (a1 * c2 + c1) % modulus(),
{
    proof {
        lemma_mod_add_right(a1 * c2, c1 as int, modulus());
        lemma_mod_small(c1 as int, modulus());
        lemma_add_mod_noop(a1 * c2, c1 as int, modulus());
        lemma_mod_twice(a1 * c2, modulus());
    }
    (a1.wrapping_mul(a2), a1.wrapping_mul(c2).wrapping_add(c1))
}

fn apply_affine(a: u64, c: u64, x: u64) -> (r: u64)
    ensures
        r == (a * x + c) % modulus(),
{
    proof {
        lemma_mod_small(c as int, modulus());
        lemma_add_mod_noop(a * x, c as int, modulus());
        lemma_mod_twice(a * x, modulus());
    }
    a.wrapping_mul(x).wrapping_add(c)
}

pub open spec fn piece_seed() -> int {
    0x9e3779b97f4a7c15
}

pub open spec fn castling_seed() -> int {
    0x85ebca6b3c0c0e3f
}

pub open spec fn en_passant_seed() -> int {
    0xc3d2e1f0a1b2c3d4
}

pub open spec fn black_to_move_seed() -> int {
    0x1122334455667788
}

/// Key of piece index `piece` (0..12) of side `color` (0..2) on `square`.
pub closed spec fn piece_key(color: int, square: int, piece: int) -> u64 {
    lcg(piece_seed(), (color * 768 + square * 12 + piece + 1) as nat) as u64
}

pub closed spec fn castling_key(i: int) -> u64 {
    lcg(castling_seed(), (i + 1) as nat) as u64
}

pub closed spec fn en_passant_key(i: int) -> u64 {
    lcg(en_passant_seed(), (i + 1) as nat) as u64
}

pub closed spec fn black_to_move_key() -> u64 {
    lcg(black_to_move_seed(), 1) as u64
}

pub fn piece_hash(color: usize, square: usize, piece: usize) -> (r: u64)
    requires
        color < 2,
        square < 64,
        piece < 12,
    ensures
        r == piece_key(color as int, square as int, piece as int),
{
    let n: u64 = (color * 768 + square * 12 + piece + 1) as u64;
    let r = lcg_jump(0x9e3779b97f4a7c15u64, n);
    proof {
        lemma_lcg_bounds(piece_seed(), n as nat);
    }
    r
}

pub fn castling_hash(i: usize) -> (r: u64)
    requires
        i < 16,
    ensures
        r == castling_key(i as int),
{
    let r = lcg_jump(0x85ebca6b3c0c0e3fu64, (i + 1) as u64);
    proof {
        lemma_lcg_bounds(castling_seed(), (i + 1) as nat);
    }
    r
}

pub fn en_passant_hash(i: usize) -> (r: u64)
    requires
        i < 9,
    ensures
        r == en_passant_key(i as int),
{
    let r = lcg_jump(0xc3d2e1f0a1b2c3d4u64, (i + 1) as u64);
    proof {
        lemma_lcg_bounds(en_passant_seed(), (i + 1) as nat);
    }
    r
}

pub fn black_to_move_hash() -> (r: u64)
    ensures
        r == black_to_move_key(),
{
    let r = lcg_jump(0x1122334455667788u64, 1);
    proof {
        lemma_lcg_bounds(black_to_move_seed(), 1);
    }
    r
}

proof fn lemma_lcg_bounds(seed: int, n: nat)
    requires
        0 <= seed < modulus(),
    ensures
        0 <= lcg(seed, n) < modulus(),
    decreases n,
{
    if n > 0 {
        lemma_lcg_bounds(seed, (n - 1) as nat);
    }
}

/// (side index, piece index) of a piece: White 0 with pieces 0..6, Black 1 with pieces 6..12.
pub open spec fn piece_index(square: Square) -> Option<(usize, usize)> {
    match square {
        Square::WhitePawn => Some((0usize, 0usize)),
        Square::WhiteKnight => Some((0usize, 1usize)),
        Square::WhiteBishop => Some((0usize, 2usize)),
        Square::WhiteRook => Some((0usize, 3usize)),
        Square::WhiteQueen => Some((0usize, 4usize)),
        Square::WhiteKing => Some((0usize, 5usize)),
        Square::BlackPawn => Some((1usize, 6usize)),
        Square::BlackKnight => Some((1usize, 7usize)),
        Square::BlackBishop => Some((1usize, 8usize)),
        Square::BlackRook => Some((1usize, 9usize)),
        Square::BlackQueen => Some((1usize, 10usize)),
        Square::BlackKing => Some((1usize, 11usize)),
        Square::Empty => None,
    }
}

pub fn square_to_piece_index(square: Square) -> (r: Option<(usize, usize)>)
    ensures
        r == piece_index(square),
{
    match square {
        Square::WhitePawn => Some((0, 0)),
        Square::WhiteKnight => Some((0, 1)),
        Square::WhiteBishop => Some((0, 2)),
        Square::WhiteRook => Some((0, 3)),
        Square::WhiteQueen => Some((0, 4)),
        Square::WhiteKing => Some((0, 5)),
        Square::BlackPawn => Some((1, 6)),
        Square::BlackKnight => Some((1, 7)),
        Square::BlackBishop => Some((1, 8)),
        Square::BlackRook => Some((1, 9)),
        Square::BlackQueen => Some((1, 10)),
        Square::BlackKing => Some((1, 11)),
        Square::Empty => None,
    }
}

/// Key of what stands on `sq` (0 for an empty square).
pub open spec fn square_key(sq: int, p: Square) -> u64 {
    match piece_index(p) {
        Some((c, k)) => piece_key(c as int, sq, k as int),
        None => 0,
    }
}

/// XOR of the keys of the first `n` squares.
pub open spec fn squares_key(s: Seq<Square>, n: int) -> u64
    decreases n,
{
    if n <= 0 {
        0
    } else {
        squares_key(s, n - 1) ^ square_key(n - 1, s[n - 1])
    }
}

/// Replacing what stands on square `i` changes the key of the first `n` squares by the keys of
/// the old and the new occupant, when `i` is among them.
pub proof fn lemma_squares_key_update(s: Seq<Square>, i: int, x: Square, n: int)
    requires
        0 <= i < s.len(),
        0 <= n <= s.len(),
    ensures
        squares_key(s.update(i, x), n) == if i < n {
            squares_key(s, n) ^ square_key(i, s[i]) ^ square_key(i, x)
        } else {
            squares_key(s, n)
        },
    decreases n,
{
    if n > 0 {
        lemma_squares_key_update(s, i, x, n - 1);
        let a = squares_key(s, n - 1);
        let b = square_key(i, s[i]);
        let c = square_key(i, x);
        let d = square_key(n - 1, s[n - 1]);
        if i == n - 1 {
            assert(a ^ c == ((a ^ b) ^ b) ^ c) by (bit_vector);
        } else if i < n - 1 {
            assert(((a ^ b) ^ c) ^ d == ((a ^ d) ^ b) ^ c) by (bit_vector);
        }
    }
}

/// En-passant file index: the file of the lowest set square, 8 for none.
pub open spec fn en_passant_index(en_passant: u64) -> int {
    if en_passant == 0 {
        8
    } else {
        crate::bits::lowest(en_passant) % 8
    }
}

pub fn get_en_passant_index(en_passant: BitBoard) -> (r: usize)
    ensures
        r == en_passant_index(en_passant),
        r < 9,
{
    if en_passant == 0 {
        return 8;
    }
    let square = crate::utils::bit_scan(en_passant);
    square % 8
}

/// The hash of a position: pieces, castling rights, en-passant file and side to move.
pub open spec fn position_key(p: Position) -> u64 {
    squares_key(p.squares, 64) ^ castling_key(p.castling_rights as int) ^ en_passant_key(
        en_passant_index(p.en_passent),
    ) ^ (if p.active_color == Color::Black {
        black_to_move_key()
    } else {
        0u64
    })
}

impl Chess {
    /// Computes the hash of this position from scratch.
    pub fn zobrist_hash(&self) -> (r: u64)
        requires
            self.wf(),
        ensures
            r == position_key(self@),
    {
        let mut hash: u64 = 0;
        let mut i: usize = 0;
        while i < 64
            invariant
                i <= 64,
                hash == squares_key(self.squares@, i as int),
            decreases 64 - i,
        {
            let piece = self.squares[i];
            let ghost before = hash;
            match square_to_piece_index(piece) {
                Some((c, p)) => {
                    hash = hash ^ piece_hash(c, i, p);
                },
                None => {
                    assert(before ^ 0u64 == before) by (bit_vector);
                },
            }
            i = i + 1;
        }
        hash = hash ^ castling_hash(self.castling_rights as usize);
        let ep_index = get_en_passant_index(self.en_passent);
        hash = hash ^ en_passant_hash(ep_index);
        if self.active_color == Color::Black {
            hash = hash ^ black_to_move_hash();
        } else {
            let ghost h = hash;
            assert(h ^ 0u64 == h) by (bit_vector);
        }
        hash
    }
}

} // verus!
