//! Attack sets of single pieces.
//!
//! A square `s` has file `s % 8` and rank `s / 8`. Leaper attacks are the
//! on-board squares at fixed file/rank offsets; slider attacks run along a
//! direction until and including the first occupied square.

use vstd::prelude::*;

use crate::bitboard::{bit, lemma_bit_or, lemma_bit_zero, sq_in};
use crate::board::{file_of, file_spec, rank_of, rank_spec, Color, Square};

verus! {

/// The square `df` files and `dr` ranks away from `s`, or -1 off the board.
pub open spec fn step(s: int, df: int, dr: int) -> int {
    let f = file_spec(s) + df;
    let r = rank_spec(s) + dr;
    if 0 <= f < 8 && 0 <= r < 8 { r * 8 + f } else { -1 }
}

pub open spec fn knight_target(s: int, t: int) -> bool {
    0 <= t < 64 && (t == step(s, 1, 2) || t == step(s, 2, 1) || t == step(s, 2, -1) || t == step(s, 1, -2) || t == step(s, -1, -2)
        || t == step(s, -2, -1) || t == step(s, -2, 1) || t == step(s, -1, 2))
}

pub open spec fn king_target(s: int, t: int) -> bool {
    0 <= t < 64 && (t == step(s, 1, 1) || t == step(s, 1, 0) || t == step(s, 1, -1) || t == step(s, 0, -1) || t == step(s, -1, -1)
        || t == step(s, -1, 0) || t == step(s, -1, 1) || t == step(s, 0, 1))
}

/// A pawn of `color` on `s` attacks `t` diagonally forward.
pub open spec fn pawn_target(color: Color, s: int, t: int) -> bool {
    0 <= t < 64 && if color == Color::White {
        t == step(s, -1, 1) || t == step(s, 1, 1)
    } else {
        t == step(s, -1, -1) || t == step(s, 1, -1)
    }
}

pub open spec fn sgn_mul(k: int, d: int) -> int {
    if d > 0 { k } else if d < 0 { -k } else { 0 }
}

/// The square `k` steps from `s` in direction `(df, dr)`, or -1 off the board.
pub open spec fn ray_step(s: int, df: int, dr: int, k: int) -> int {
    step(s, sgn_mul(k, df), sgn_mul(k, dr))
}

/// A slider on `s` moving in direction `(df, dr)` reaches `t` over the
/// occupancy `occ`: `t` is on the ray and every square strictly before it
/// is empty.
pub open spec fn slides_to(s: int, occ: u64, df: int, dr: int, t: int) -> bool {
    exists|k: int|
        1 <= k < 8 && #[trigger] ray_step(s, df, dr, k) == t && 0 <= t && (forall|j: int|
            1 <= j < k ==> !sq_in(occ, #[trigger] ray_step(s, df, dr, j)))
}

pub open spec fn rook_target(s: int, occ: u64, t: int) -> bool {
    slides_to(s, occ, 1, 0, t) || slides_to(s, occ, -1, 0, t) || slides_to(s, occ, 0, 1, t) || slides_to(s, occ, 0, -1, t)
}

pub open spec fn bishop_target(s: int, occ: u64, t: int) -> bool {
    slides_to(s, occ, 1, 1, t) || slides_to(s, occ, 1, -1, t) || slides_to(s, occ, -1, 1, t) || slides_to(s, occ, -1, -1, t)
}

pub proof fn lemma_square_fr(f: int, r: int)
    requires
        0 <= f < 8,
        0 <= r < 8,
    ensures
        file_spec(r * 8 + f) == f,
        rank_spec(r * 8 + f) == r,
{
}

pub proof fn lemma_fr_square(s: int)
    requires
        0 <= s < 64,
    ensures
        rank_spec(s) * 8 + file_spec(s) == s,
        0 <= file_spec(s) < 8,
        0 <= rank_spec(s) < 8,
{
}

/// The bit of the square `df`, `dr` away from `(f, r)`, or nothing off the board.
fn offset_bit(f: i8, r: i8, df: i8, dr: i8) -> (b: u64)
    requires
        0 <= f < 8,
        0 <= r < 8,
        -2 <= df <= 2,
        -2 <= dr <= 2,
    ensures
        forall|t: int| 0 <= t < 64 ==> #[trigger] sq_in(b, t) == (t == step(r * 8 + f, df as int, dr as int)),
{
    proof { lemma_square_fr(f as int, r as int); }
    let nf = f + df;
    let nr = r + dr;
    if 0 <= nf && nf < 8 && 0 <= nr && nr < 8 {
        let sq = (nr * 8 + nf) as u8;
        bit(sq)
    } else {
        proof {
            assert forall|t: int| 0 <= t < 64 implies !sq_in(0u64, t) by {
                lemma_bit_zero(t as u64);
            }
        }
        0
    }
}

pub fn knight_attacks(sq: Square) -> (r: u64)
    requires
        sq < 64,
    ensures
        forall|t: int| 0 <= t < 64 ==> #[trigger] sq_in(r, t) == knight_target(sq as int, t),
{
    let f = file_of(sq) as i8;
    let rk = rank_of(sq) as i8;
    proof { lemma_fr_square(sq as int); }
    let b1 = offset_bit(f, rk, 1, 2);
    let b2 = offset_bit(f, rk, 2, 1);
    let b3 = offset_bit(f, rk, 2, -1);
    let b4 = offset_bit(f, rk, 1, -2);
    let b5 = offset_bit(f, rk, -1, -2);
    let b6 = offset_bit(f, rk, -2, -1);
    let b7 = offset_bit(f, rk, -2, 1);
    let b8 = offset_bit(f, rk, -1, 2);
    let r = b1 | b2 | b3 | b4 | b5 | b6 | b7 | b8;
    proof {
        assert forall|t: int| 0 <= t < 64 implies #[trigger] sq_in(r, t) == knight_target(sq as int, t) by {
            lemma_or8(b1, b2, b3, b4, b5, b6, b7, b8, t);
        }
    }
    r
}

pub fn king_attacks(sq: Square) -> (r: u64)
    requires
        sq < 64,
    ensures
        forall|t: int| 0 <= t < 64 ==> #[trigger] sq_in(r, t) == king_target(sq as int, t),
{
    let f = file_of(sq) as i8;
    let rk = rank_of(sq) as i8;
    proof { lemma_fr_square(sq as int); }
    let b1 = offset_bit(f, rk, 1, 1);
    let b2 = offset_bit(f, rk, 1, 0);
    let b3 = offset_bit(f, rk, 1, -1);
    let b4 = offset_bit(f, rk, 0, -1);
    let b5 = offset_bit(f, rk, -1, -1);
    let b6 = offset_bit(f, rk, -1, 0);
    let b7 = offset_bit(f, rk, -1, 1);
    let b8 = offset_bit(f, rk, 0, 1);
    let r = b1 | b2 | b3 | b4 | b5 | b6 | b7 | b8;
    proof {
        assert forall|t: int| 0 <= t < 64 implies #[trigger] sq_in(r, t) == king_target(sq as int, t) by {
            lemma_or8(b1, b2, b3, b4, b5, b6, b7, b8, t);
        }
    }
    r
}

pub fn pawn_attacks(color: Color, sq: Square) -> (r: u64)
    requires
        sq < 64,
    ensures
        forall|t: int| 0 <= t < 64 ==> #[trigger] sq_in(r, t) == pawn_target(color, sq as int, t),
{
    let f = file_of(sq) as i8;
    let rk = rank_of(sq) as i8;
    proof { lemma_fr_square(sq as int); }
    let dr: i8 = match color {
        Color::White => 1,
        Color::Black => -1,
    };
    let b1 = offset_bit(f, rk, -1, dr);
    let b2 = offset_bit(f, rk, 1, dr);
    let r = b1 | b2;
    proof {
        assert forall|t: int| 0 <= t < 64 implies #[trigger] sq_in(r, t) == pawn_target(color, sq as int, t) by {
            lemma_bit_or(b1, b2, t as u64);
            assert(sq_in(r, t) == (sq_in(b1, t) || sq_in(b2, t)));
        }
    }
    r
}

/// Membership in the union of eight bitboards.
proof fn lemma_or8(b1: u64, b2: u64, b3: u64, b4: u64, b5: u64, b6: u64, b7: u64, b8: u64, t: int)
    requires
        0 <= t < 64,
    ensures
        sq_in(b1 | b2 | b3 | b4 | b5 | b6 | b7 | b8, t) == (sq_in(b1, t) || sq_in(b2, t) || sq_in(b3, t) || sq_in(b4, t) || sq_in(b5, t)
            || sq_in(b6, t) || sq_in(b7, t) || sq_in(b8, t)),
{
    let u = t as u64;
    lemma_bit_or(b1, b2, u);
    lemma_bit_or(b1 | b2, b3, u);
    lemma_bit_or(b1 | b2 | b3, b4, u);
    lemma_bit_or(b1 | b2 | b3 | b4, b5, u);
    lemma_bit_or(b1 | b2 | b3 | b4 | b5, b6, u);
    lemma_bit_or(b1 | b2 | b3 | b4 | b5 | b6, b7, u);
    lemma_bit_or(b1 | b2 | b3 | b4 | b5 | b6 | b7, b8, u);
}

/// Membership in the union of four bitboards.
proof fn lemma_or4(b1: u64, b2: u64, b3: u64, b4: u64, t: int)
    requires
        0 <= t < 64,
    ensures
        sq_in(b1 | b2 | b3 | b4, t) == (sq_in(b1, t) || sq_in(b2, t) || sq_in(b3, t) || sq_in(b4, t)),
{
    let u = t as u64;
    lemma_bit_or(b1, b2, u);
    lemma_bit_or(b1 | b2, b3, u);
    lemma_bit_or(b1 | b2 | b3, b4, u);
}

/// Squares reached from `sq` in one direction, stopping at the first
/// occupied square (which is included).
fn slide(sq: Square, occ: u64, df: i8, dr: i8) -> (r: u64)
    requires
        sq < 64,
        -1 <= df <= 1,
        -1 <= dr <= 1,
        df != 0 || dr != 0,
    ensures
        forall|t: int| 0 <= t < 64 ==> #[trigger] sq_in(r, t) == slides_to(sq as int, occ, df as int, dr as int, t),
{
    let f = file_of(sq) as i8;
    let rk = rank_of(sq) as i8;
    proof { lemma_fr_square(sq as int); }
    let ghost s = sq as int;
    let mut acc: u64 = 0;
    let mut nf = f + df;
    let mut nr = rk + dr;
    let mut k: i8 = 1;
    let mut blocked = false;
    proof {
        assert forall|t: int| 0 <= t < 64 implies !sq_in(0u64, t) by {
            lemma_bit_zero(t as u64);
        }
    }
    while !blocked && 0 <= nf && nf < 8 && 0 <= nr && nr < 8
        invariant
            s == sq as int,
            0 <= f < 8,
            0 <= rk < 8,
            f == file_spec(s),
            rk == rank_spec(s),
            -1 <= df <= 1,
            -1 <= dr <= 1,
            df != 0 || dr != 0,
            1 <= k <= 8,
            nf == f + sgn_mul(k as int, df as int),
            nr == rk + sgn_mul(k as int, dr as int),
            !blocked ==> forall|j: int| 1 <= j < k ==> 0 <= #[trigger] ray_step(s, df as int, dr as int, j) && !sq_in(occ, ray_step(s, df as int, dr as int, j)),
            blocked ==> forall|j: int| 1 <= j < k - 1 ==> 0 <= #[trigger] ray_step(s, df as int, dr as int, j) && !sq_in(occ, ray_step(s, df as int, dr as int, j)),
            blocked ==> k >= 2 && 0 <= ray_step(s, df as int, dr as int, k - 1) && sq_in(occ, ray_step(s, df as int, dr as int, k - 1)),
            forall|t: int| 0 <= t < 64 ==> #[trigger] sq_in(acc, t) == (exists|j: int| 1 <= j < k && #[trigger] ray_step(s, df as int, dr as int, j) == t),
        decreases 8 - k,
    {
        let to = (nr * 8 + nf) as u8;
        proof {
            lemma_square_fr(nf as int, nr as int);
            assert(ray_step(s, df as int, dr as int, k as int) == to as int);
        }
        let b = bit(to);
        let ghost old_acc = acc;
        acc = acc | b;
        proof {
            assert forall|t: int| 0 <= t < 64 implies #[trigger] sq_in(acc, t) == (exists|j: int| 1 <= j < k + 1 && #[trigger] ray_step(s, df as int, dr as int, j) == t) by {
                lemma_bit_or(old_acc, b, t as u64);
                assert(sq_in(acc, t) == (sq_in(old_acc, t) || sq_in(b, t)));
                if t == to as int {
                    assert(ray_step(s, df as int, dr as int, k as int) == t);
                } else {
                    if exists|j: int| 1 <= j < k + 1 && #[trigger] ray_step(s, df as int, dr as int, j) == t {
                        let j = choose|j: int| 1 <= j < k + 1 && #[trigger] ray_step(s, df as int, dr as int, j) == t;
                        assert(j != k);
                    }
                }
            }
        }
        if occ & b != 0 {
            proof { crate::bitboard::lemma_mask_test(occ, to as u64); }
            blocked = true;
        } else {
            proof { crate::bitboard::lemma_mask_test(occ, to as u64); }
        }
        proof {
            // A ray is at most seven squares long.
            assert(k < 8);
        }
        nf = nf + df;
        nr = nr + dr;
        k = k + 1;
    }
    proof {
        assert forall|t: int| 0 <= t < 64 implies #[trigger] sq_in(acc, t) == slides_to(s, occ, df as int, dr as int, t) by {
            if sq_in(acc, t) {
                let j = choose|j: int| 1 <= j < k && #[trigger] ray_step(s, df as int, dr as int, j) == t;
                assert forall|i: int| 1 <= i < j implies !sq_in(occ, #[trigger] ray_step(s, df as int, dr as int, i)) by {
                }
                assert(slides_to(s, occ, df as int, dr as int, t));
            }
            if slides_to(s, occ, df as int, dr as int, t) {
                let j = choose|j: int|
                    1 <= j < 8 && #[trigger] ray_step(s, df as int, dr as int, j) == t && 0 <= t && (forall|i: int|
                        1 <= i < j ==> !sq_in(occ, #[trigger] ray_step(s, df as int, dr as int, i)));
                if blocked {
                    if j >= k {
                        assert(!sq_in(occ, ray_step(s, df as int, dr as int, k - 1)));
                    }
                } else {
                    if j >= k {
                        lemma_ray_leaves(s, df as int, dr as int, k as int, j);
                    }
                }
                assert(j < k);
            }
        }
    }
    acc
}

/// Once a ray leaves the board it stays off it.
proof fn lemma_ray_leaves(s: int, df: int, dr: int, k: int, j: int)
    requires
        0 <= s < 64,
        -1 <= df <= 1,
        -1 <= dr <= 1,
        1 <= k <= j,
        !(0 <= file_spec(s) + sgn_mul(k, df) < 8 && 0 <= rank_spec(s) + sgn_mul(k, dr) < 8),
    ensures
        ray_step(s, df, dr, j) == -1,
{
}


proof fn lemma_step_sym(s: int, t: int, df: int, dr: int)
    requires
        0 <= s < 64,
        0 <= t < 64,
    ensures
        (t == step(s, df, dr)) == (s == step(t, -df, -dr)),
{
    lemma_fr_square(s);
    lemma_fr_square(t);
    if 0 <= file_spec(s) + df < 8 && 0 <= rank_spec(s) + dr < 8 {
        lemma_square_fr(file_spec(s) + df, rank_spec(s) + dr);
    }
    if 0 <= file_spec(t) - df < 8 && 0 <= rank_spec(t) - dr < 8 {
        lemma_square_fr(file_spec(t) - df, rank_spec(t) - dr);
    }
}

/// Leaper and pawn attacks are symmetric: `s` attacks `t` exactly when a
/// like piece of the other color on `t` would attack `s`.
pub proof fn lemma_leaper_symmetric(s: int, t: int, c: Color)
    requires
        0 <= s < 64,
        0 <= t < 64,
    ensures
        knight_target(s, t) == knight_target(t, s),
        king_target(s, t) == king_target(t, s),
        pawn_target(c, s, t) == pawn_target(c.opp(), t, s),
{
    lemma_step_sym(s, t, 1, 2);
    lemma_step_sym(s, t, 2, 1);
    lemma_step_sym(s, t, 2, -1);
    lemma_step_sym(s, t, 1, -2);
    lemma_step_sym(s, t, -1, -2);
    lemma_step_sym(s, t, -2, -1);
    lemma_step_sym(s, t, -2, 1);
    lemma_step_sym(s, t, -1, 2);
    lemma_step_sym(s, t, 1, 1);
    lemma_step_sym(s, t, 1, 0);
    lemma_step_sym(s, t, 1, -1);
    lemma_step_sym(s, t, 0, -1);
    lemma_step_sym(s, t, -1, -1);
    lemma_step_sym(s, t, -1, 0);
    lemma_step_sym(s, t, -1, 1);
    lemma_step_sym(s, t, 0, 1);
}

/// Walking back from the `k`-th square of a ray retraces it.
proof fn lemma_ray_reverse(s: int, df: int, dr: int, k: int, j: int)
    requires
        0 <= s < 64,
        -1 <= df <= 1,
        -1 <= dr <= 1,
        0 <= j <= k,
        ray_step(s, df, dr, k) >= 0,
    ensures
        ray_step(ray_step(s, df, dr, k), -df, -dr, j) == (if j == k { s } else { ray_step(s, df, dr, k - j) }),
{
    lemma_fr_square(s);
    let t = ray_step(s, df, dr, k);
    lemma_square_fr(file_spec(s) + sgn_mul(k, df), rank_spec(s) + sgn_mul(k, dr));
    if j < k {
        lemma_square_fr(file_spec(s) + sgn_mul(k - j, df), rank_spec(s) + sgn_mul(k - j, dr));
    }
}

/// Sliding is symmetric: `t` is reached from `s` along a direction exactly
/// when `s` is reached from `t` along the opposite direction.
pub proof fn lemma_slide_symmetric(s: int, occ: u64, df: int, dr: int, t: int)
    requires
        0 <= s < 64,
        0 <= t < 64,
        -1 <= df <= 1,
        -1 <= dr <= 1,
    ensures
        slides_to(s, occ, df, dr, t) == slides_to(t, occ, -df, -dr, s),
{
    if slides_to(s, occ, df, dr, t) {
        let k = choose|k: int|
            1 <= k < 8 && #[trigger] ray_step(s, df, dr, k) == t && 0 <= t && (forall|j: int|
                1 <= j < k ==> !sq_in(occ, #[trigger] ray_step(s, df, dr, j)));
        lemma_ray_reverse(s, df, dr, k, k);
        assert forall|j: int| 1 <= j < k implies !sq_in(occ, #[trigger] ray_step(t, -df, -dr, j)) by {
            lemma_ray_reverse(s, df, dr, k, j);
            assert(!sq_in(occ, ray_step(s, df, dr, k - j)));
        }
        assert(ray_step(t, -df, -dr, k) == s);
    }
    if slides_to(t, occ, -df, -dr, s) {
        let k = choose|k: int|
            1 <= k < 8 && #[trigger] ray_step(t, -df, -dr, k) == s && 0 <= s && (forall|j: int|
                1 <= j < k ==> !sq_in(occ, #[trigger] ray_step(t, -df, -dr, j)));
        lemma_ray_reverse(t, -df, -dr, k, k);
        assert forall|j: int| 1 <= j < k implies !sq_in(occ, #[trigger] ray_step(s, df, dr, j)) by {
            lemma_ray_reverse(t, -df, -dr, k, j);
            assert(!sq_in(occ, ray_step(t, -df, -dr, k - j)));
        }
        assert(ray_step(s, df, dr, k) == t);
    }
}

pub proof fn lemma_slider_symmetric(s: int, occ: u64, t: int)
    requires
        0 <= s < 64,
        0 <= t < 64,
    ensures
        rook_target(s, occ, t) == rook_target(t, occ, s),
        bishop_target(s, occ, t) == bishop_target(t, occ, s),
{
    lemma_slide_symmetric(s, occ, 1, 0, t);
    lemma_slide_symmetric(s, occ, -1, 0, t);
    lemma_slide_symmetric(s, occ, 0, 1, t);
    lemma_slide_symmetric(s, occ, 0, -1, t);
    lemma_slide_symmetric(s, occ, 1, 1, t);
    lemma_slide_symmetric(s, occ, 1, -1, t);
    lemma_slide_symmetric(s, occ, -1, 1, t);
    lemma_slide_symmetric(s, occ, -1, -1, t);
}

pub fn rook_attacks(sq: Square, occupied: u64) -> (r: u64)
    requires
        sq < 64,
    ensures
        forall|t: int| 0 <= t < 64 ==> #[trigger] sq_in(r, t) == rook_target(sq as int, occupied, t),
{
    let b1 = slide(sq, occupied, 1, 0);
    let b2 = slide(sq, occupied, -1, 0);
    let b3 = slide(sq, occupied, 0, 1);
    let b4 = slide(sq, occupied, 0, -1);
    let r = b1 | b2 | b3 | b4;
    proof {
        assert forall|t: int| 0 <= t < 64 implies #[trigger] sq_in(r, t) == rook_target(sq as int, occupied, t) by {
            lemma_or4(b1, b2, b3, b4, t);
        }
    }
    r
}

pub fn bishop_attacks(sq: Square, occupied: u64) -> (r: u64)
    requires
        sq < 64,
    ensures
        forall|t: int| 0 <= t < 64 ==> #[trigger] sq_in(r, t) == bishop_target(sq as int, occupied, t),
{
    let b1 = slide(sq, occupied, 1, 1);
    let b2 = slide(sq, occupied, 1, -1);
    let b3 = slide(sq, occupied, -1, 1);
    let b4 = slide(sq, occupied, -1, -1);
    let r = b1 | b2 | b3 | b4;
    proof {
        assert forall|t: int| 0 <= t < 64 implies #[trigger] sq_in(r, t) == bishop_target(sq as int, occupied, t) by {
            lemma_or4(b1, b2, b3, b4, t);
        }
    }
    r
}

pub fn queen_attacks(sq: Square, occupied: u64) -> (r: u64)
    requires
        sq < 64,
    ensures
        forall|t: int| 0 <= t < 64 ==> #[trigger] sq_in(r, t) == (rook_target(sq as int, occupied, t) || bishop_target(sq as int, occupied, t)),
{
    let a = rook_attacks(sq, occupied);
    let b = bishop_attacks(sq, occupied);
    let r = a | b;
    proof {
        assert forall|t: int| 0 <= t < 64 implies #[trigger] sq_in(r, t) == (rook_target(sq as int, occupied, t) || bishop_target(sq as int, occupied, t)) by {
            lemma_bit_or(a, b, t as u64);
            assert(sq_in(r, t) == (sq_in(a, t) || sq_in(b, t)));
        }
    }
    r
}

} // verus!
