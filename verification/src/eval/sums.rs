//! Sums over the squares of the board, and over the squares of a bitboard.

use vstd::prelude::*;

use crate::bitboard::{bit_at, count_bits, sq_in};

verus! {

/// `f(0) + f(1) + ... + f(n - 1)`.
pub open spec fn square_sum(f: spec_fn(int) -> int, n: nat) -> int
    decreases n,
{
    if n == 0 {
        0
    } else {
        square_sum(f, (n - 1) as nat) + f(n - 1)
    }
}

/// The sum of `f` over the squares of `b` below `n`.
pub open spec fn bits_sum(b: u64, f: spec_fn(int) -> int, n: nat) -> int {
    square_sum(|s: int| if sq_in(b, s) { f(s) } else { 0 }, n)
}

pub proof fn lemma_sum_congr(f: spec_fn(int) -> int, g: spec_fn(int) -> int, n: nat)
    requires
        forall|s: int| 0 <= s < n ==> #[trigger] f(s) == g(s),
    ensures
        square_sum(f, n) == square_sum(g, n),
    decreases n,
{
    if n > 0 {
        lemma_sum_congr(f, g, (n - 1) as nat);
        assert(f(n - 1) == g(n - 1));
    }
}

pub proof fn lemma_sum_bound(f: spec_fn(int) -> int, n: nat, lo: int, hi: int)
    requires
        lo <= 0 <= hi,
        forall|s: int| 0 <= s < n ==> lo <= #[trigger] f(s) <= hi,
    ensures
        n * lo <= square_sum(f, n) <= n * hi,
    decreases n,
{
    if n > 0 {
        lemma_sum_bound(f, (n - 1) as nat, lo, hi);
        assert(lo <= f(n - 1) <= hi);
        assert((n - 1) * lo + lo == n * lo) by (nonlinear_arith);
        assert((n - 1) * hi + hi == n * hi) by (nonlinear_arith);
    } else {
        assert(n * lo == 0 && n * hi == 0) by (nonlinear_arith)
            requires
                n == 0,
        ;
    }
}

/// A sum of non-negative terms, one of them at least one, is positive.
pub proof fn lemma_sum_positive(f: spec_fn(int) -> int, n: nat, t: int)
    requires
        0 <= t < n,
        f(t) >= 1,
        forall|s: int| 0 <= s < n ==> 0 <= #[trigger] f(s),
    ensures
        square_sum(f, n) >= 1,
    decreases n,
{
    if t < n - 1 {
        lemma_sum_positive(f, (n - 1) as nat, t);
        assert(0 <= f(n - 1));
    } else {
        lemma_sum_nonneg(f, (n - 1) as nat);
    }
}

pub proof fn lemma_sum_nonneg(f: spec_fn(int) -> int, n: nat)
    requires
        forall|s: int| 0 <= s < n ==> 0 <= #[trigger] f(s),
    ensures
        square_sum(f, n) >= 0,
    decreases n,
{
    if n > 0 {
        lemma_sum_nonneg(f, (n - 1) as nat);
        assert(0 <= f(n - 1));
    }
}

/// Bounds on `f` over the board bound its sum over any bitboard.
pub proof fn lemma_bits_sum_range(b: u64, f: spec_fn(int) -> int, lo: int, hi: int)
    requires
        lo <= 0 <= hi,
        forall|s: int| 0 <= s < 64 ==> lo <= #[trigger] f(s) <= hi,
    ensures
        64 * lo <= bits_sum(b, f, 64) <= 64 * hi,
{
    let g = |s: int| if sq_in(b, s) { f(s) } else { 0 };
    assert forall|s: int| 0 <= s < 64 implies lo <= #[trigger] g(s) <= hi by {
        assert(lo <= f(s) <= hi);
    }
    lemma_sum_bound(g, 64, lo, hi);
}

/// Removing one square from a bitboard removes its term from the sum.
pub proof fn lemma_bits_sum_pop(b: u64, b2: u64, s0: int, f: spec_fn(int) -> int, n: nat)
    requires
        sq_in(b, s0),
        forall|t: int| #![trigger sq_in(b2, t)] sq_in(b2, t) == (sq_in(b, t) && t != s0),
    ensures
        bits_sum(b, f, n) == bits_sum(b2, f, n) + (if s0 < n { f(s0) } else { 0 }),
    decreases n,
{
    if n > 0 {
        lemma_bits_sum_pop(b, b2, s0, f, (n - 1) as nat);
        assert(sq_in(b2, n - 1) == (sq_in(b, n - 1) && n - 1 != s0));
    }
}

/// An empty bitboard sums to zero.
pub proof fn lemma_bits_sum_empty(f: spec_fn(int) -> int, n: nat)
    ensures
        bits_sum(0, f, n) == 0,
    decreases n,
{
    if n > 0 {
        lemma_bits_sum_empty(f, (n - 1) as nat);
        if 0 <= n - 1 < 64 {
            crate::bitboard::lemma_bit_zero((n - 1) as u64);
        }
    }
}

/// The population count of a bitboard is the number of its squares.
pub proof fn lemma_count_is_sum(b: u64, n: nat)
    requires
        n <= 64,
    ensures
        count_bits(b, n) == square_sum(|s: int| if sq_in(b, s) { 1int } else { 0int }, n),
    decreases n,
{
    if n > 0 {
        lemma_count_is_sum(b, (n - 1) as nat);
        assert(sq_in(b, n - 1) == bit_at(b, (n - 1) as u64));
    }
}

} // verus!
