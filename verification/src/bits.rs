//! Bit-level facts about 64-bit boards: which squares a bitboard holds
//! after the boolean operations that the rest of the library uses.
use vstd::prelude::*;
use vstd::std_specs::bits::{u64_trailing_zeros, u64_leading_zeros, axiom_u64_trailing_zeros, axiom_u64_leading_zeros};

verus! {

/// Square `i` (0..64) is set in bitboard `b`.
pub open spec fn holds(b: u64, i: int) -> bool {
    0 <= i < 64 && (b >> (i as u64)) & 1u64 == 1u64
}

/// Lowest set square of a bitboard (64 when empty).
pub open spec fn lowest(b: u64) -> int {
    u64_trailing_zeros(b) as int
}

/// Highest set square of a bitboard (-1 when empty).
pub open spec fn highest(b: u64) -> int {
    63 - u64_leading_zeros(b)
}

/// Number of squares below `n` that are set in `b`.
pub open spec fn count_below(b: u64, n: int) -> int
    decreases n,
{
    if n <= 0 {
        0
    } else {
        count_below(b, n - 1) + if holds(b, n - 1) { 1int } else { 0int }
    }
}

/// Number of set squares in `b`.
pub open spec fn popcount(b: u64) -> int {
    count_below(b, 64)
}

pub proof fn lemma_has_or(a: u64, b: u64)
    ensures
        forall|i: int| #[trigger] holds(a | b, i) == (holds(a, i) || holds(b, i)),
{
    assert forall|i: int| #[trigger] holds(a | b, i) == (holds(a, i) || holds(b, i)) by {
        if 0 <= i < 64 {
            let j = i as u64;
            assert((((a | b) >> j) & 1u64 == 1u64) == (((a >> j) & 1u64 == 1u64) || ((b >> j)
                & 1u64 == 1u64))) by (bit_vector);
        }
    }
}

pub proof fn lemma_has_and(a: u64, b: u64)
    ensures
        forall|i: int| #[trigger] holds(a & b, i) == (holds(a, i) && holds(b, i)),
{
    assert forall|i: int| #[trigger] holds(a & b, i) == (holds(a, i) && holds(b, i)) by {
        if 0 <= i < 64 {
            let j = i as u64;
            assert((((a & b) >> j) & 1u64 == 1u64) == (((a >> j) & 1u64 == 1u64) && ((b >> j)
                & 1u64 == 1u64))) by (bit_vector);
        }
    }
}

pub proof fn lemma_has_xor(a: u64, b: u64)
    ensures
        forall|i: int| #[trigger] holds(a ^ b, i) == (holds(a, i) != holds(b, i)),
{
    assert forall|i: int| #[trigger] holds(a ^ b, i) == (holds(a, i) != holds(b, i)) by {
        if 0 <= i < 64 {
            let j = i as u64;
            assert((((a ^ b) >> j) & 1u64 == 1u64) == (((a >> j) & 1u64 == 1u64) != ((b >> j)
                & 1u64 == 1u64))) by (bit_vector);
        }
    }
}

pub proof fn lemma_has_not(a: u64)
    ensures
        forall|i: int| 0 <= i < 64 ==> #[trigger] holds(!a, i) == !holds(a, i),
{
    assert forall|i: int| 0 <= i < 64 implies #[trigger] holds(!a, i) == !holds(a, i) by {
        let j = i as u64;
        assert((((!a) >> j) & 1u64 == 1u64) == !((a >> j) & 1u64 == 1u64)) by (bit_vector)
            requires
                j < 64,
        ;
    }
}

pub proof fn lemma_has_and_not(a: u64, b: u64)
    ensures
        forall|i: int| #[trigger] holds(a & !b, i) == (holds(a, i) && !holds(b, i)),
{
    lemma_has_and(a, !b);
    lemma_has_not(b);
}

pub proof fn lemma_has_single(k: u64)
    requires
        k < 64,
    ensures
        forall|i: int| #[trigger] holds(1u64 << k, i) == (i == k),
{
    assert forall|i: int| #[trigger] holds(1u64 << k, i) == (i == k) by {
        if 0 <= i < 64 {
            let j = i as u64;
            assert((((1u64 << k) >> j) & 1u64 == 1u64) == (j == k)) by (bit_vector)
                requires
                    j < 64,
                    k < 64,
            ;
        }
    }
}

pub proof fn lemma_has_zero()
    ensures
        forall|i: int| !#[trigger] holds(0u64, i),
{
    assert forall|i: int| !#[trigger] holds(0u64, i) by {
        if 0 <= i < 64 {
            let j = i as u64;
            assert((0u64 >> j) & 1u64 == 0u64) by (bit_vector);
        }
    }
}

/// A bitboard with no set squares is zero.
pub proof fn lemma_empty_is_zero(x: u64)
    requires
        forall|i: int| 0 <= i < 64 ==> !#[trigger] holds(x, i),
    ensures
        x == 0,
{
    axiom_u64_trailing_zeros(x);
    if x != 0 {
        assert(holds(x, u64_trailing_zeros(x) as int));
    }
}

/// Two bitboards that hold the same squares are equal.
pub proof fn lemma_bits_ext(a: u64, b: u64)
    requires
        forall|i: int| 0 <= i < 64 ==> #[trigger] holds(a, i) == holds(b, i),
    ensures
        a == b,
{
    lemma_has_xor(a, b);
    lemma_empty_is_zero(a ^ b);
    assert(a ^ b == 0 ==> a == b) by (bit_vector);
}

/// The lowest set square of a non-empty bitboard is set, and none below it is.
pub proof fn lemma_lowest(b: u64)
    requires
        b != 0,
    ensures
        0 <= lowest(b) < 64,
        holds(b, lowest(b)),
        forall|i: int| 0 <= i < lowest(b) ==> !#[trigger] holds(b, i),
{
    axiom_u64_trailing_zeros(b);
    assert forall|i: int| 0 <= i < lowest(b) implies !#[trigger] holds(b, i) by {
        let j = i as u64;
        assert((b >> j) & 1u64 == 0u64);
    }
}

/// The highest set square of a non-empty bitboard is set, and none above it is.
pub proof fn lemma_highest(b: u64)
    requires
        b != 0,
    ensures
        0 <= highest(b) < 64,
        holds(b, highest(b)),
        forall|i: int| highest(b) < i < 64 ==> !#[trigger] holds(b, i),
{
    axiom_u64_leading_zeros(b);
    let lz = u64_leading_zeros(b);
    let h = (63 - lz) as u64;
    assert((b >> h) & 1u64 != 0u64);
    assert(((b >> h) & 1u64 != 0u64) ==> ((b >> h) & 1u64 == 1u64)) by (bit_vector);
    assert forall|i: int| highest(b) < i < 64 implies !#[trigger] holds(b, i) by {
        let j = i as u64;
        assert((b >> j) & 1u64 == 0u64);
    }
}

/// Clearing the lowest set square: `b & (b - 1)`.
pub proof fn lemma_clear_lowest(b: u64)
    requires
        b != 0,
    ensures
        forall|i: int| #[trigger] holds(b & ((b - 1) as u64), i) == (holds(b, i) && i != lowest(b)),
        (b & ((b - 1) as u64)) < b,
{
    lemma_lowest(b);
    let t = u64_trailing_zeros(b) as u64;
    axiom_u64_trailing_zeros(b);
    let s = (64 - t) as u64;
    assert(b << s == 0);
    assert forall|i: int| #[trigger] holds(b & ((b - 1) as u64), i) == (holds(b, i) && i != lowest(b)) by {
        if 0 <= i < 64 {
            let j = i as u64;
            assert((((b & ((b - 1) as u64)) >> j) & 1u64 == 1u64) == (((b >> j) & 1u64 == 1u64) && j
                != t)) by (bit_vector)
                requires
                    j < 64,
                    t < 64,
                    (b >> t) & 1u64 == 1u64,
                    b << s == 0,
                    s == 64 - t,
            ;
        }
    }
    assert(b != 0 ==> (b & ((b - 1) as u64)) < b) by (bit_vector);
}

pub proof fn lemma_count_below_bounds(b: u64, n: int)
    ensures
        0 <= count_below(b, n) <= if n < 0 { 0 } else { n },
    decreases n,
{
    if n > 0 {
        lemma_count_below_bounds(b, n - 1);
    }
}

/// Counting the squares of two boards that differ only at square `k`.
proof fn lemma_count_below_remove(a: u64, b: u64, k: int, n: int)
    requires
        0 <= k < 64,
        holds(a, k),
        !holds(b, k),
        forall|i: int| 0 <= i < 64 && i != k ==> #[trigger] holds(a, i) == holds(b, i),
    ensures
        count_below(a, n) == count_below(b, n) + if k < n { 1int } else { 0int },
    decreases n,
{
    if n > 0 {
        lemma_count_below_remove(a, b, k, n - 1);
    }
}

/// Clearing the lowest square lowers the count by one.
pub proof fn lemma_popcount_clear_lowest(b: u64)
    requires
        b != 0,
    ensures
        popcount(b & ((b - 1) as u64)) == popcount(b) - 1,
{
    lemma_clear_lowest(b);
    lemma_lowest(b);
    lemma_count_below_remove(b, b & ((b - 1) as u64), lowest(b), 64);
}

pub proof fn lemma_popcount_zero()
    ensures
        popcount(0) == 0,
{
    lemma_has_zero();
    assert forall|n: int| 0 <= n <= 64 implies #[trigger] count_below(0, n) == 0 by {
        lemma_count_zero_below(n);
    }
}

proof fn lemma_count_zero_below(n: int)
    ensures
        count_below(0, n) == 0,
    decreases n,
{
    lemma_has_zero();
    if n > 0 {
        lemma_count_zero_below(n - 1);
    }
}

/// The count of a board lies between 0 and 64.
pub proof fn lemma_popcount_bounds(b: u64)
    ensures
        0 <= popcount(b) <= 64,
{
    lemma_count_below_bounds(b, 64);
}

} // verus!

verus! {

/// A bitboard is non-zero exactly when it holds some square.
pub proof fn lemma_nonzero(x: u64)
    ensures
        (x != 0) == exists|i: int| 0 <= i < 64 && #[trigger] holds(x, i),
{
    if x != 0 {
        lemma_lowest(x);
    } else {
        lemma_has_zero();
    }
}

} // verus!
