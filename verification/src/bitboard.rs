//! Bit-level facts about `u64` bitboards. A square `s` (0..64) belongs to a
//! bitboard `b` when bit `s` of `b` is set.

use vstd::prelude::*;

verus! {

/// Bit `s` of `b` is set.
pub open spec fn bit_at(b: u64, s: u64) -> bool {
    (b >> s) & 1u64 == 1u64
}

/// Square `s` (as an integer) is a member of bitboard `b`.
pub open spec fn sq_in(b: u64, s: int) -> bool {
    0 <= s < 64 && bit_at(b, s as u64)
}

pub broadcast proof fn lemma_bit_or(a: u64, b: u64, t: u64)
    by (bit_vector)
    requires
        t < 64,
    ensures
        #[trigger] bit_at(a | b, t) == (bit_at(a, t) || bit_at(b, t)),
{
}

pub broadcast proof fn lemma_bit_and(a: u64, b: u64, t: u64)
    by (bit_vector)
    requires
        t < 64,
    ensures
        #[trigger] bit_at(a & b, t) == (bit_at(a, t) && bit_at(b, t)),
{
}

pub broadcast proof fn lemma_bit_not(a: u64, t: u64)
    by (bit_vector)
    requires
        t < 64,
    ensures
        #[trigger] bit_at(!a, t) == !bit_at(a, t),
{
}

pub broadcast proof fn lemma_bit_single(s: u64, t: u64)
    by (bit_vector)
    requires
        s < 64,
        t < 64,
    ensures
        #[trigger] bit_at(1u64 << s, t) == (s == t),
{
}

pub broadcast proof fn lemma_bit_zero(t: u64)
    by (bit_vector)
    requires
        t < 64,
    ensures
        !#[trigger] bit_at(0u64, t),
{
}

/// Testing one bit with a mask agrees with `bit_at`.
pub broadcast proof fn lemma_mask_test(b: u64, s: u64)
    by (bit_vector)
    requires
        s < 64,
    ensures
        (#[trigger] (b & (1u64 << s)) != 0u64) == bit_at(b, s),
{
}

pub broadcast group group_bits {
    lemma_bit_or,
    lemma_bit_and,
    lemma_bit_not,
    lemma_bit_single,
    lemma_bit_zero,
    lemma_mask_test,
}

/// Clearing the lowest set bit of `b` removes exactly square `s`, where `s`
/// is the lowest set bit.
pub proof fn lemma_clear_lowest(b: u64, s: u64, t: u64)
    by (bit_vector)
    requires
        b != 0,
        s < 64,
        t < 64,
        bit_at(b, s),
        s == 0 || b << ((64 - s) as u64) == 0,
    ensures
        bit_at(b & ((b - 1) as u64), t) == (bit_at(b, t) && t != s),
{
}

/// Bits below the lowest set bit are clear.
pub proof fn lemma_below_lowest(b: u64, s: u64, t: u64)
    by (bit_vector)
    requires
        s < 64,
        t < s,
        b << ((64 - s) as u64) == 0,
    ensures
        !bit_at(b, t),
{
}

/// The lowest set bit of a non-empty bitboard, and the bitboard without it.
pub proof fn lemma_trailing_zeros(b: u64)
    requires
        b != 0,
    ensures
        b.trailing_zeros() < 64,
        sq_in(b, b.trailing_zeros() as int),
        forall|t: int| 0 <= t < b.trailing_zeros() ==> !sq_in(b, t),
        forall|t: int| #![trigger sq_in(b & ((b - 1) as u64), t)] sq_in(b & ((b - 1) as u64), t) == (sq_in(b, t) && t != b.trailing_zeros() as int),
{
    vstd::std_specs::bits::axiom_u64_trailing_zeros(b);
    let s = b.trailing_zeros() as u64;
    assert(s < 64);
    assert forall|t: int| 0 <= t < b.trailing_zeros() implies !sq_in(b, t) by {
        lemma_below_lowest(b, s, t as u64);
    }
    assert forall|t: int| #![trigger sq_in(b & ((b - 1) as u64), t)] sq_in(b & ((b - 1) as u64), t) == (sq_in(b, t) && t != b.trailing_zeros() as int) by {
        if 0 <= t < 64 {
            lemma_clear_lowest(b, s, t as u64);
        }
    }
}

/// Two bitboards with the same members are equal.
pub proof fn lemma_bits_ext(a: u64, b: u64)
    requires
        forall|t: int| 0 <= t < 64 ==> sq_in(a, t) == sq_in(b, t),
    ensures
        a == b,
{
    assert(sq_in(a, 0) == sq_in(b, 0)); assert(sq_in(a, 1) == sq_in(b, 1)); assert(sq_in(a, 2) == sq_in(b, 2)); assert(sq_in(a, 3) == sq_in(b, 3));
    assert(sq_in(a, 4) == sq_in(b, 4)); assert(sq_in(a, 5) == sq_in(b, 5)); assert(sq_in(a, 6) == sq_in(b, 6)); assert(sq_in(a, 7) == sq_in(b, 7));
    assert(sq_in(a, 8) == sq_in(b, 8)); assert(sq_in(a, 9) == sq_in(b, 9)); assert(sq_in(a, 10) == sq_in(b, 10)); assert(sq_in(a, 11) == sq_in(b, 11));
    assert(sq_in(a, 12) == sq_in(b, 12)); assert(sq_in(a, 13) == sq_in(b, 13)); assert(sq_in(a, 14) == sq_in(b, 14)); assert(sq_in(a, 15) == sq_in(b, 15));
    assert(sq_in(a, 16) == sq_in(b, 16)); assert(sq_in(a, 17) == sq_in(b, 17)); assert(sq_in(a, 18) == sq_in(b, 18)); assert(sq_in(a, 19) == sq_in(b, 19));
    assert(sq_in(a, 20) == sq_in(b, 20)); assert(sq_in(a, 21) == sq_in(b, 21)); assert(sq_in(a, 22) == sq_in(b, 22)); assert(sq_in(a, 23) == sq_in(b, 23));
    assert(sq_in(a, 24) == sq_in(b, 24)); assert(sq_in(a, 25) == sq_in(b, 25)); assert(sq_in(a, 26) == sq_in(b, 26)); assert(sq_in(a, 27) == sq_in(b, 27));
    assert(sq_in(a, 28) == sq_in(b, 28)); assert(sq_in(a, 29) == sq_in(b, 29)); assert(sq_in(a, 30) == sq_in(b, 30)); assert(sq_in(a, 31) == sq_in(b, 31));
    assert(sq_in(a, 32) == sq_in(b, 32)); assert(sq_in(a, 33) == sq_in(b, 33)); assert(sq_in(a, 34) == sq_in(b, 34)); assert(sq_in(a, 35) == sq_in(b, 35));
    assert(sq_in(a, 36) == sq_in(b, 36)); assert(sq_in(a, 37) == sq_in(b, 37)); assert(sq_in(a, 38) == sq_in(b, 38)); assert(sq_in(a, 39) == sq_in(b, 39));
    assert(sq_in(a, 40) == sq_in(b, 40)); assert(sq_in(a, 41) == sq_in(b, 41)); assert(sq_in(a, 42) == sq_in(b, 42)); assert(sq_in(a, 43) == sq_in(b, 43));
    assert(sq_in(a, 44) == sq_in(b, 44)); assert(sq_in(a, 45) == sq_in(b, 45)); assert(sq_in(a, 46) == sq_in(b, 46)); assert(sq_in(a, 47) == sq_in(b, 47));
    assert(sq_in(a, 48) == sq_in(b, 48)); assert(sq_in(a, 49) == sq_in(b, 49)); assert(sq_in(a, 50) == sq_in(b, 50)); assert(sq_in(a, 51) == sq_in(b, 51));
    assert(sq_in(a, 52) == sq_in(b, 52)); assert(sq_in(a, 53) == sq_in(b, 53)); assert(sq_in(a, 54) == sq_in(b, 54)); assert(sq_in(a, 55) == sq_in(b, 55));
    assert(sq_in(a, 56) == sq_in(b, 56)); assert(sq_in(a, 57) == sq_in(b, 57)); assert(sq_in(a, 58) == sq_in(b, 58)); assert(sq_in(a, 59) == sq_in(b, 59));
    assert(sq_in(a, 60) == sq_in(b, 60)); assert(sq_in(a, 61) == sq_in(b, 61)); assert(sq_in(a, 62) == sq_in(b, 62)); assert(sq_in(a, 63) == sq_in(b, 63));
    lemma_bits_ext_bv(a, b);
}

proof fn lemma_bits_ext_bv(a: u64, b: u64)
    by (bit_vector)
    requires
        bit_at(a, 0) == bit_at(b, 0), bit_at(a, 1) == bit_at(b, 1), bit_at(a, 2) == bit_at(b, 2), bit_at(a, 3) == bit_at(b, 3),
        bit_at(a, 4) == bit_at(b, 4), bit_at(a, 5) == bit_at(b, 5), bit_at(a, 6) == bit_at(b, 6), bit_at(a, 7) == bit_at(b, 7),
        bit_at(a, 8) == bit_at(b, 8), bit_at(a, 9) == bit_at(b, 9), bit_at(a, 10) == bit_at(b, 10), bit_at(a, 11) == bit_at(b, 11),
        bit_at(a, 12) == bit_at(b, 12), bit_at(a, 13) == bit_at(b, 13), bit_at(a, 14) == bit_at(b, 14), bit_at(a, 15) == bit_at(b, 15),
        bit_at(a, 16) == bit_at(b, 16), bit_at(a, 17) == bit_at(b, 17), bit_at(a, 18) == bit_at(b, 18), bit_at(a, 19) == bit_at(b, 19),
        bit_at(a, 20) == bit_at(b, 20), bit_at(a, 21) == bit_at(b, 21), bit_at(a, 22) == bit_at(b, 22), bit_at(a, 23) == bit_at(b, 23),
        bit_at(a, 24) == bit_at(b, 24), bit_at(a, 25) == bit_at(b, 25), bit_at(a, 26) == bit_at(b, 26), bit_at(a, 27) == bit_at(b, 27),
        bit_at(a, 28) == bit_at(b, 28), bit_at(a, 29) == bit_at(b, 29), bit_at(a, 30) == bit_at(b, 30), bit_at(a, 31) == bit_at(b, 31),
        bit_at(a, 32) == bit_at(b, 32), bit_at(a, 33) == bit_at(b, 33), bit_at(a, 34) == bit_at(b, 34), bit_at(a, 35) == bit_at(b, 35),
        bit_at(a, 36) == bit_at(b, 36), bit_at(a, 37) == bit_at(b, 37), bit_at(a, 38) == bit_at(b, 38), bit_at(a, 39) == bit_at(b, 39),
        bit_at(a, 40) == bit_at(b, 40), bit_at(a, 41) == bit_at(b, 41), bit_at(a, 42) == bit_at(b, 42), bit_at(a, 43) == bit_at(b, 43),
        bit_at(a, 44) == bit_at(b, 44), bit_at(a, 45) == bit_at(b, 45), bit_at(a, 46) == bit_at(b, 46), bit_at(a, 47) == bit_at(b, 47),
        bit_at(a, 48) == bit_at(b, 48), bit_at(a, 49) == bit_at(b, 49), bit_at(a, 50) == bit_at(b, 50), bit_at(a, 51) == bit_at(b, 51),
        bit_at(a, 52) == bit_at(b, 52), bit_at(a, 53) == bit_at(b, 53), bit_at(a, 54) == bit_at(b, 54), bit_at(a, 55) == bit_at(b, 55),
        bit_at(a, 56) == bit_at(b, 56), bit_at(a, 57) == bit_at(b, 57), bit_at(a, 58) == bit_at(b, 58), bit_at(a, 59) == bit_at(b, 59),
        bit_at(a, 60) == bit_at(b, 60), bit_at(a, 61) == bit_at(b, 61), bit_at(a, 62) == bit_at(b, 62), bit_at(a, 63) == bit_at(b, 63),
    ensures
        a == b,
{
}

/// XOR facts used by incremental hashing.
pub proof fn lemma_xor_facts(a: u64, b: u64, c: u64)
    by (bit_vector)
    ensures
        (a ^ b) ^ c == a ^ (b ^ c),
        a ^ b == b ^ a,
        a ^ a == 0,
        a ^ 0 == a,
{
}

pub proof fn lemma_xor_cancel(a: u64, b: u64)
    by (bit_vector)
    ensures
        (a ^ b == 0) == (a == b),
        (a ^ b) ^ b == a,
{
}

/// Bit population count of the low `n` bits of `b`.
pub open spec fn count_bits(b: u64, n: nat) -> nat
    decreases n,
{
    if n == 0 {
        0
    } else {
        count_bits(b, (n - 1) as nat) + if bit_at(b, (n - 1) as u64) { 1nat } else { 0nat }
    }
}

/// Number of squares in a bitboard.
pub open spec fn popcount(b: u64) -> nat {
    count_bits(b, 64)
}

pub proof fn lemma_count_bits_bound(b: u64, n: nat)
    ensures
        count_bits(b, n) <= n,
    decreases n,
{
    if n > 0 {
        lemma_count_bits_bound(b, (n - 1) as nat);
    }
}

/// `u64::count_ones`: the number of set bits.
#[verifier::external_body]
pub(crate) fn count_ones(b: u64) -> (r: u32)
    ensures
        r as nat == popcount(b),
        r <= 64,
{
    b.count_ones()
}

/// A bitboard holding just square `s`.
pub fn bit(s: u8) -> (r: u64)
    requires
        s < 64,
    ensures
        forall|t: int| #![trigger sq_in(r, t)] sq_in(r, t) == (t == s as int),
        r == 1u64 << (s as u64),
{
    proof {
        broadcast use group_bits;
        assert forall|t: int| #![trigger sq_in(1u64 << (s as u64), t)] sq_in(1u64 << (s as u64), t) == (t == s as int) by {
            if 0 <= t < 64 {
                lemma_bit_single(s as u64, t as u64);
            }
        }
    }
    1u64 << (s as u64)
}

/// Removes and returns the lowest square of a non-empty bitboard.
pub fn pop_lsb(bb: &mut u64) -> (sq: u8)
    requires
        *old(bb) != 0,
    ensures
        sq < 64,
        sq_in(*old(bb), sq as int),
        forall|t: int| 0 <= t < sq ==> !sq_in(*old(bb), t),
        forall|t: int| #![trigger sq_in(*final(bb), t)] sq_in(*final(bb), t) == (sq_in(*old(bb), t) && t != sq as int),
        *final(bb) < *old(bb),
{
    let b = *bb;
    proof {
        lemma_trailing_zeros(b);
        lemma_and_sub_smaller(b);
    }
    let sq = b.trailing_zeros() as u8;
    *bb = b & (b - 1);
    sq
}

proof fn lemma_and_sub_smaller(b: u64)
    by (bit_vector)
    requires
        b != 0,
    ensures
        b & ((b - 1) as u64) < b,
{
}

} // verus!
