//! Sums over squares, and the sums that loops over the set squares of a bitboard add up.
use vstd::prelude::*;
use crate::bits::{holds, lowest, count_below, popcount, lemma_clear_lowest, lemma_lowest};

verus! {

/// `f(0) + f(1) + ... + f(n - 1)`.
pub open spec fn sum_to(f: spec_fn(int) -> int, n: int) -> int
    decreases n,
{
    if n <= 0 {
        0
    } else {
        sum_to(f, n - 1) + f(n - 1)
    }
}

/// `f` on the squares of `bb`, 0 elsewhere.
pub open spec fn on_board(bb: u64, f: spec_fn(int) -> int) -> spec_fn(int) -> int {
    |i: int| if holds(bb, i) { f(i) } else { 0 }
}

/// The sum of `f` over the squares of `bb`.
pub open spec fn bb_sum(bb: u64, f: spec_fn(int) -> int) -> int {
    sum_to(on_board(bb, f), 64)
}

/// 1 where `p` holds, 0 elsewhere.
pub open spec fn indicator(p: spec_fn(int) -> bool) -> spec_fn(int) -> int {
    |i: int| if p(i) { 1int } else { 0int }
}

/// The number of squares where `p` holds.
pub open spec fn count_where(p: spec_fn(int) -> bool) -> int {
    sum_to(indicator(p), 64)
}

pub proof fn lemma_sum_to_bounds(f: spec_fn(int) -> int, n: int, lo: int, hi: int)
    requires
        0 <= n,
        lo <= 0 <= hi,
        forall|i: int| 0 <= i < n ==> lo <= #[trigger] f(i) <= hi,
    ensures
        n * lo <= sum_to(f, n) <= n * hi,
    decreases n,
{
    if n > 0 {
        lemma_sum_to_bounds(f, n - 1, lo, hi);
        assert((n - 1) * lo + lo == n * lo) by (nonlinear_arith);
        assert((n - 1) * hi + hi == n * hi) by (nonlinear_arith);
        assert(lo <= f(n - 1) <= hi);
    } else {
        assert(n * lo == 0 && n * hi == 0) by (nonlinear_arith)
            requires
                n == 0,
        ;
    }
}

/// A sum over the squares of a bitboard lies within 64 times the bounds of its terms.
pub proof fn lemma_bb_sum_bounds(bb: u64, f: spec_fn(int) -> int, lo: int, hi: int)
    requires
        lo <= 0 <= hi,
        forall|i: int| 0 <= i < 64 ==> lo <= #[trigger] f(i) <= hi,
    ensures
        64 * lo <= bb_sum(bb, f) <= 64 * hi,
{
    assert forall|i: int| 0 <= i < 64 implies lo <= #[trigger] on_board(bb, f)(i) <= hi by {
    }
    lemma_sum_to_bounds(on_board(bb, f), 64, lo, hi);
}

proof fn lemma_sum_remove(a: u64, b: u64, f: spec_fn(int) -> int, k: int, n: int)
    requires
        0 <= k < 64,
        holds(a, k),
        !holds(b, k),
        forall|i: int| 0 <= i < 64 && i != k ==> #[trigger] holds(a, i) == holds(b, i),
    ensures
        sum_to(on_board(a, f), n) == sum_to(on_board(b, f), n) + if k < n { f(k) } else { 0 },
    decreases n,
{
    if n > 0 {
        lemma_sum_remove(a, b, f, k, n - 1);
    }
}

/// Clearing the lowest square of a bitboard takes its term out of the sum.
pub proof fn lemma_bb_sum_clear_lowest(b: u64, f: spec_fn(int) -> int)
    requires
        b != 0,
    ensures
        bb_sum(b, f) == bb_sum(b & ((b - 1) as u64), f) + f(lowest(b)),
        0 <= lowest(b) < 64,
{
    lemma_clear_lowest(b);
    lemma_lowest(b);
    lemma_sum_remove(b, b & ((b - 1) as u64), f, lowest(b), 64);
}

pub proof fn lemma_bb_sum_zero(f: spec_fn(int) -> int)
    ensures
        bb_sum(0, f) == 0,
{
    crate::bits::lemma_has_zero();
    assert forall|n: int| 0 <= n <= 64 implies #[trigger] sum_to(on_board(0, f), n) == 0 by {
        lemma_sum_zero_below(f, n);
    }
}

proof fn lemma_sum_zero_below(f: spec_fn(int) -> int, n: int)
    requires
        0 <= n <= 64,
    ensures
        sum_to(on_board(0, f), n) == 0,
    decreases n,
{
    crate::bits::lemma_has_zero();
    if n > 0 {
        lemma_sum_zero_below(f, n - 1);
    }
}

proof fn lemma_count_below_where(x: u64, p: spec_fn(int) -> bool, n: int)
    requires
        0 <= n <= 64,
        forall|i: int| 0 <= i < 64 ==> #[trigger] holds(x, i) == p(i),
    ensures
        count_below(x, n) == sum_to(indicator(p), n),
    decreases n,
{
    if n > 0 {
        lemma_count_below_where(x, p, n - 1);
    }
}

/// A bitboard's population is the number of squares where the property it holds is true.
pub proof fn lemma_popcount_where(x: u64, p: spec_fn(int) -> bool)
    requires
        forall|i: int| 0 <= i < 64 ==> #[trigger] holds(x, i) == p(i),
    ensures
        popcount(x) == count_where(p),
{
    lemma_count_below_where(x, p, 64);
}

pub proof fn lemma_count_where_bounds(p: spec_fn(int) -> bool)
    ensures
        0 <= count_where(p) <= 64,
{
    lemma_sum_to_bounds(indicator(p), 64, 0, 1);
}

} // verus!


