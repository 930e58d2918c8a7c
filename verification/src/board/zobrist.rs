//! Deterministic Zobrist keys. A fixed SplitMix64 seed is intentional: it
//! makes analysis reproducible for a given hash-table state.
//!
//! Key number `n` is the `n`-th output of the SplitMix64 sequence started at
//! the fixed seed; the state after `n + 1` steps is `seed + (n + 1) * gamma`,
//! so each key is computed directly from its number. Numbering: piece `p` on
//! square `s` is `p * 64 + s`, then the side key, sixteen castling keys, and
//! eight en-passant file keys.

use vstd::prelude::*;
use vstd::wrapping::u64_specs::{wrapping_add, wrapping_mul};

use crate::bitboard::lemma_xor_facts;
use crate::board::types::{file_spec, Color, Piece};

verus! {

pub const SEED: u64 = 0x4d59_5df4_d0f3_3173;
pub const GAMMA: u64 = 0x9e37_79b9_7f4a_7c15;

/// SplitMix64's output mixing function.
pub open spec fn mix(z0: u64) -> u64 {
    let z1 = wrapping_mul(z0 ^ (z0 >> 30u64), 0xbf58_476d_1ce4_e5b9u64);
    let z2 = wrapping_mul(z1 ^ (z1 >> 27u64), 0x94d0_49bb_1331_11ebu64);
    z2 ^ (z2 >> 31u64)
}

/// The `n`-th SplitMix64 output from the fixed seed.
pub open spec fn zobrist(n: u64) -> u64 {
    mix(wrapping_add(SEED, wrapping_mul(GAMMA, (n + 1) as u64)))
}

pub fn zobrist_key(n: u64) -> (r: u64)
    requires
        n < 1000,
    ensures
        r == zobrist(n),
{
    let z0 = SEED.wrapping_add(GAMMA.wrapping_mul(n + 1));
    let z1 = (z0 ^ (z0 >> 30u64)).wrapping_mul(0xbf58_476d_1ce4_e5b9u64);
    let z2 = (z1 ^ (z1 >> 27u64)).wrapping_mul(0x94d0_49bb_1331_11ebu64);
    z2 ^ (z2 >> 31u64)
}

pub open spec fn piece_key(p: Piece, sq: int) -> u64 {
    zobrist((p.idx() * 64 + sq) as u64)
}

pub open spec fn side_key() -> u64 {
    zobrist(768)
}

pub open spec fn castle_key(c: u8) -> u64 {
    zobrist((769 + c) as u64)
}

pub open spec fn ep_key(file: int) -> u64 {
    zobrist((785 + file) as u64)
}

/// The key of whatever stands on square `s`.
pub open spec fn square_key(board: Seq<Option<Piece>>, s: int) -> u64 {
    match board[s] {
        Some(p) => piece_key(p, s),
        None => 0,
    }
}

/// XOR of the keys of the pieces on squares `0..n`.
pub open spec fn board_hash(board: Seq<Option<Piece>>, n: nat) -> u64
    decreases n,
{
    if n == 0 {
        0
    } else {
        board_hash(board, (n - 1) as nat) ^ square_key(board, n - 1)
    }
}

/// The keys of the non-board state: castling rights, en-passant file, side.
pub open spec fn state_key(castling: u8, ep: Option<u8>, side: Color) -> u64 {
    castle_key(castling) ^ (match ep {
        Some(e) => ep_key(file_spec(e as int)),
        None => 0u64,
    }) ^ (if side == Color::Black { side_key() } else { 0u64 })
}

proof fn lemma_board_hash_unchanged(b: Seq<Option<Piece>>, s: int, v: Option<Piece>, n: nat)
    requires
        0 <= s < b.len(),
        n <= s,
    ensures
        board_hash(b.update(s, v), n) == board_hash(b, n),
    decreases n,
{
    if n > 0 {
        lemma_board_hash_unchanged(b, s, v, (n - 1) as nat);
    }
}

/// Changing one square changes the board hash by the old and new keys of
/// that square.
pub proof fn lemma_board_hash_update(b: Seq<Option<Piece>>, s: int, v: Option<Piece>, n: nat)
    requires
        0 <= s < n,
        n <= b.len(),
    ensures
        board_hash(b.update(s, v), n) == board_hash(b, n) ^ square_key(b, s) ^ square_key(b.update(s, v), s),
    decreases n,
{
    let b2 = b.update(s, v);
    let x = square_key(b, s);
    let y = square_key(b2, s);
    if n - 1 == s {
        lemma_board_hash_unchanged(b, s, v, (n - 1) as nat);
        let h = board_hash(b, (n - 1) as nat);
        lemma_xor_facts(h, x, x);
        lemma_xor_facts(h, x, y);
        lemma_xor_facts(x, x, y);
        lemma_xor_facts(h ^ x, x, y);
        lemma_xor_facts(0, y, 0);
        lemma_xor_facts(y, 0, 0);
        assert(board_hash(b2, n) == h ^ y);
        assert(h ^ x ^ x ^ y == h ^ (x ^ x) ^ y) by {
            lemma_xor_facts(h, x, x);
        }
    } else {
        lemma_board_hash_update(b, s, v, (n - 1) as nat);
        let h = board_hash(b, (n - 1) as nat);
        let k = square_key(b, n - 1);
        assert(square_key(b2, n - 1) == k);
        // (h ^ x ^ y) ^ k == (h ^ k) ^ x ^ y
        lemma_xor_facts(h, x, y);
        lemma_xor_facts(h ^ x, y, k);
        lemma_xor_facts(y, k, 0);
        lemma_xor_facts(h, x, y ^ k);
        lemma_xor_facts(x, y, k);
        lemma_xor_facts(x, k, y);
        lemma_xor_facts(k, x, y);
        lemma_xor_facts(h, k, x ^ y);
        lemma_xor_facts(h ^ k, x, y);
        lemma_xor_facts(x, y, 0);
        lemma_xor_facts(y, k, x);
        lemma_xor_facts(h, x ^ y, k);
        lemma_xor_facts(h, k, x);
        lemma_xor_facts(h ^ k, x, y);
    }
}

/// The table of all Zobrist keys.
pub struct Keys {
    pub piece: Vec<Vec<u64>>,
    pub side: u64,
    pub castle: Vec<u64>,
    pub ep_file: Vec<u64>,
}

/// Builds the key table.
pub fn keys() -> (k: Keys)
    ensures
        k.piece@.len() == 12,
        forall|p: int| 0 <= p < 12 ==> #[trigger] k.piece@[p]@.len() == 64,
        forall|p: int, s: int| 0 <= p < 12 && 0 <= s < 64 ==> #[trigger] k.piece@[p]@[s] == zobrist((p * 64 + s) as u64),
        k.side == side_key(),
        k.castle@.len() == 16,
        forall|c: int| 0 <= c < 16 ==> #[trigger] k.castle@[c] == zobrist((769 + c) as u64),
        k.ep_file@.len() == 8,
        forall|f: int| 0 <= f < 8 ==> #[trigger] k.ep_file@[f] == zobrist((785 + f) as u64),
{
    let mut piece: Vec<Vec<u64>> = Vec::new();
    let mut p: u64 = 0;
    while p < 12
        invariant
            p <= 12,
            piece@.len() == p,
            forall|q: int| 0 <= q < p ==> #[trigger] piece@[q]@.len() == 64,
            forall|q: int, s: int| 0 <= q < p && 0 <= s < 64 ==> #[trigger] piece@[q]@[s] == zobrist((q * 64 + s) as u64),
        decreases 12 - p,
    {
        let mut row: Vec<u64> = Vec::new();
        let mut s: u64 = 0;
        while s < 64
            invariant
                p < 12,
                s <= 64,
                row@.len() == s,
                forall|t: int| 0 <= t < s ==> #[trigger] row@[t] == zobrist((p * 64 + t) as u64),
            decreases 64 - s,
        {
            row.push(zobrist_key(p * 64 + s));
            s = s + 1;
        }
        piece.push(row);
        p = p + 1;
    }
    let side = zobrist_key(768);
    let mut castle: Vec<u64> = Vec::new();
    let mut c: u64 = 0;
    while c < 16
        invariant
            c <= 16,
            castle@.len() == c,
            forall|t: int| 0 <= t < c ==> #[trigger] castle@[t] == zobrist((769 + t) as u64),
        decreases 16 - c,
    {
        castle.push(zobrist_key(769 + c));
        c = c + 1;
    }
    let mut ep_file: Vec<u64> = Vec::new();
    let mut f: u64 = 0;
    while f < 8
        invariant
            f <= 8,
            ep_file@.len() == f,
            forall|t: int| 0 <= t < f ==> #[trigger] ep_file@[t] == zobrist((785 + t) as u64),
        decreases 8 - f,
    {
        ep_file.push(zobrist_key(785 + f));
        f = f + 1;
    }
    Keys { piece, side, castle, ep_file }
}


/// Each castling key, worked out from the seed: the shift-and-XOR steps
/// of the mixing, then the key.
proof fn lemma_castle_shifts_0()
    by (bit_vector)
    ensures
        0x30357de5aefc689du64 ^ (0x30357de5aefc689du64 >> 30u64) == 0x30357de56e299f0bu64,
        0x3c45a57db124c5f3u64 ^ (0x3c45a57db124c5f3u64 >> 27u64) == 0x3c45a57a39906a45u64,
        0x29720ef3e4d52257u64 ^ (0x29720ef3e4d52257u64 >> 31u64) == 0x29720ef3b6313fb0u64,
{
}

proof fn lemma_castle_key_0()
    ensures
        castle_key(0u8) == 0x29720ef3b6313fb0u64,
{
    lemma_castle_shifts_0();
}

proof fn lemma_castle_shifts_1()
    by (bit_vector)
    ensures
        0xce6cf79f2e46e4b2u64 ^ (0xce6cf79f2e46e4b2u64 >> 30u64) == 0xce6cf79c17f53aceu64,
        0x5f6ae5c89549c4deu64 ^ (0x5f6ae5c89549c4deu64 >> 27u64) == 0x5f6ae5c378157dccu64,
        0x2b0889dfe1210644u64 ^ (0x2b0889dfe1210644u64 >> 31u64) == 0x2b0889dfb73015fbu64,
{
}

proof fn lemma_castle_key_1()
    ensures
        castle_key(1u8) == 0x2b0889dfb73015fbu64,
{
    lemma_castle_shifts_1();
}

proof fn lemma_castle_shifts_2()
    by (bit_vector)
    ensures
        0x6ca47158ad9160c7u64 ^ (0x6ca47158ad9160c7u64 >> 30u64) == 0x6ca471591f00a5a5u64,
        0xbbed9b158e984d3du64 ^ (0xbbed9b158e984d3du64 >> 27u64) == 0xbbed9b02f32b2f8cu64,
        0xb0dfe4ea9498f184u64 ^ (0xb0dfe4ea9498f184u64 >> 31u64) == 0xb0dfe4ebf5273851u64,
{
}

proof fn lemma_castle_key_2()
    ensures
        castle_key(2u8) == 0xb0dfe4ebf5273851u64,
{
    lemma_castle_shifts_2();
}

proof fn lemma_castle_shifts_3()
    by (bit_vector)
    ensures
        0xadbeb122cdbdcdcu64 ^ (0xadbeb122cdbdcdcu64 >> 30u64) == 0xadbeb1207b47094u64,
        0x590794f46de9bef4u64 ^ (0x590794f46de9bef4u64 >> 27u64) == 0x590794ff4d1b2079u64,
        0x17d4b977c737d813u64 ^ (0x17d4b977c737d813u64 >> 31u64) == 0x17d4b977e89eaafcu64,
{
}

proof fn lemma_castle_key_3()
    ensures
        castle_key(3u8) == 0x17d4b977e89eaafcu64,
{
    lemma_castle_shifts_3();
}

proof fn lemma_castle_shifts_4()
    by (bit_vector)
    ensures
        0xa91364cbac2658f1u64 ^ (0xa91364cbac2658f1u64 >> 30u64) == 0xa91364c9086bcbdfu64,
        0x393b9b1079e0cf27u64 ^ (0x393b9b1079e0cf27u64 >> 27u64) == 0x393b9b175e93ad28u64,
        0xed41e011bcb79bb8u64 ^ (0xed41e011bcb79bb8u64 >> 31u64) == 0xed41e01066345b9bu64,
{
}

proof fn lemma_castle_key_4()
    ensures
        castle_key(4u8) == 0xed41e01066345b9bu64,
{
    lemma_castle_shifts_4();
}

proof fn lemma_castle_shifts_5()
    by (bit_vector)
    ensures
        0x474ade852b70d506u64 ^ (0x474ade852b70d506u64 >> 30u64) == 0x474ade84365baf12u64,
        0x50a10ba32fe49e02u64 ^ (0x50a10ba32fe49e02u64 >> 27u64) == 0x50a10ba93bc5ea67u64,
        0x9989aad685f6038du64 ^ (0x9989aad685f6038du64 >> 31u64) == 0x9989aad7b6e55620u64,
{
}

proof fn lemma_castle_key_5()
    ensures
        castle_key(5u8) == 0x9989aad7b6e55620u64,
{
    lemma_castle_shifts_5();
}

proof fn lemma_castle_shifts_6()
    by (bit_vector)
    ensures
        0xe582583eaabb511bu64 ^ (0xe582583eaabb511bu64 >> 30u64) == 0xe582583d3cb231e1u64,
        0x55abb824bc85099u64 ^ (0x55abb824bc85099u64 >> 27u64) == 0x55abb82e09f20d0u64,
        0xe90ee7e37b10eef0u64 ^ (0xe90ee7e37b10eef0u64 >> 31u64) == 0xe90ee7e2a90d2136u64,
{
}

proof fn lemma_castle_key_6()
    ensures
        castle_key(6u8) == 0xe90ee7e2a90d2136u64,
{
    lemma_castle_shifts_6();
}

proof fn lemma_castle_shifts_7()
    by (bit_vector)
    ensures
        0x83b9d1f82a05cd30u64 ^ (0x83b9d1f82a05cd30u64 >> 30u64) == 0x83b9d1fa24e28ad0u64,
        0x3963ec45af226050u64 ^ (0x3963ec45af226050u64 >> 27u64) == 0x3963ec42835fe8e5u64,
        0x686dfbb38a56ff37u64 ^ (0x686dfbb38a56ff37u64 >> 31u64) == 0x686dfbb35a8d0850u64,
{
}

proof fn lemma_castle_key_7()
    ensures
        castle_key(7u8) == 0x686dfbb35a8d0850u64,
{
    lemma_castle_shifts_7();
}

proof fn lemma_castle_shifts_8()
    by (bit_vector)
    ensures
        0x21f14bb1a9504945u64 ^ (0x21f14bb1a9504945u64 >> 30u64) == 0x21f14bb12e956783u64,
        0xc2556ddfd43bfcabu64 ^ (0xc2556ddfd43bfcabu64 >> 27u64) == 0xc2556dc79e964751u64,
        0x5c9cbb003830d85bu64 ^ (0x5c9cbb003830d85bu64 >> 31u64) == 0x5c9cbb008109ae5bu64,
{
}

proof fn lemma_castle_key_8()
    ensures
        castle_key(8u8) == 0x5c9cbb008109ae5bu64,
{
    lemma_castle_shifts_8();
}

proof fn lemma_castle_shifts_9()
    by (bit_vector)
    ensures
        0xc028c56b289ac55au64 ^ (0xc028c56b289ac55au64 >> 30u64) == 0xc028c5682839d0f6u64,
        0x13592d57cccc0fc6u64 ^ (0x13592d57cccc0fc6u64 >> 27u64) == 0x13592d55a7e9a53fu64,
        0xaeb574c8f582dfd5u64 ^ (0xaeb574c8f582dfd5u64 >> 31u64) == 0xaeb574c9a8e83644u64,
{
}

proof fn lemma_castle_key_9()
    ensures
        castle_key(9u8) == 0xaeb574c9a8e83644u64,
{
    lemma_castle_shifts_9();
}

proof fn lemma_castle_shifts_10()
    by (bit_vector)
    ensures
        0x5e603f24a7e5416fu64 ^ (0x5e603f24a7e5416fu64 >> 30u64) == 0x5e603f25de65bdfdu64,
        0xa912c56c9bcd9cd5u64 ^ (0xa912c56c9bcd9cd5u64 >> 27u64) == 0xa912c579b9953146u64,
        0xe452e868e49fe142u64 ^ (0xe452e868e49fe142u64 >> 31u64) == 0xe452e8692c3a3193u64,
{
}

proof fn lemma_castle_key_10()
    ensures
        castle_key(10u8) == 0xe452e8692c3a3193u64,
{
    lemma_castle_shifts_10();
}

proof fn lemma_castle_shifts_11()
    by (bit_vector)
    ensures
        0xfc97b8de272fbd84u64 ^ (0xfc97b8de272fbd84u64 >> 30u64) == 0xfc97b8ddd5715efcu64,
        0x282adce5d155101cu64 ^ (0x282adce5d155101cu64 >> 27u64) == 0x282adce0d40e8ca6u64,
        0xfa656ef2de782262u64 ^ (0xfa656ef2de782262u64 >> 31u64) == 0xfa656ef32ab2ff87u64,
{
}

proof fn lemma_castle_key_11()
    ensures
        castle_key(11u8) == 0xfa656ef32ab2ff87u64,
{
    lemma_castle_shifts_11();
}

proof fn lemma_castle_shifts_12()
    by (bit_vector)
    ensures
        0x9acf3297a67a3999u64 ^ (0x9acf3297a67a3999u64 >> 30u64) == 0x9acf3295cd46f3c7u64,
        0x2142177b1932dcfu64 ^ (0x2142177b1932dcfu64 >> 27u64) == 0x2142177f3170339u64,
        0x41be8888863fbe53u64 ^ (0x41be8888863fbe53u64 >> 31u64) == 0x41be88880542af42u64,
{
}

proof fn lemma_castle_key_12()
    ensures
        castle_key(12u8) == 0x41be88880542af42u64,
{
    lemma_castle_shifts_12();
}

proof fn lemma_castle_shifts_13()
    by (bit_vector)
    ensures
        0x3906ac5125c4b5aeu64 ^ (0x3906ac5125c4b5aeu64 >> 30u64) == 0x3906ac51c1de04eau64,
        0xfd519968ac3edf1au64 ^ (0xfd519968ac3edf1au64 >> 27u64) == 0xfd519977060df20fu64,
        0xe8ba1140edbf32c5u64 ^ (0xe8ba1140edbf32c5u64 >> 31u64) == 0xe8ba11413ccb1044u64,
{
}

proof fn lemma_castle_key_13()
    ensures
        castle_key(13u8) == 0xe8ba11413ccb1044u64,
{
    lemma_castle_shifts_13();
}

proof fn lemma_castle_shifts_14()
    by (bit_vector)
    ensures
        0xd73e260aa50f31c3u64 ^ (0xd73e260aa50f31c3u64 >> 30u64) == 0xd73e2609f9f7a9e9u64,
        0x79d5182dfe7b3661u64 ^ (0x79d5182dfe7b3661u64 >> 27u64) == 0x79d51822c4d833deu64,
        0x1d93616275675acau64 ^ (0x1d93616275675acau64 >> 31u64) == 0x1d9361624e41980eu64,
{
}

proof fn lemma_castle_key_14()
    ensures
        castle_key(14u8) == 0x1d9361624e41980eu64,
{
    lemma_castle_shifts_14();
}

proof fn lemma_castle_shifts_15()
    by (bit_vector)
    ensures
        0x75759fc42459add8u64 ^ (0x75759fc42459add8u64 >> 30u64) == 0x75759fc5f18fd2c8u64,
        0x77159d6ed29c3a88u64 ^ (0x77159d6ed29c3a88u64 >> 27u64) == 0x77159d60302f9752u64,
        0x22d186bc716e5a46u64 ^ (0x22d186bc716e5a46u64 >> 31u64) == 0x22d186bc34cd573eu64,
{
}

proof fn lemma_castle_key_15()
    ensures
        castle_key(15u8) == 0x22d186bc34cd573eu64,
{
    lemma_castle_shifts_15();
}

/// The sixteen castling keys are pairwise different.
proof fn lemma_castle_keys_distinct()
    ensures
        forall|c1: u8, c2: u8| c1 < 16 && c2 < 16 && c1 != c2 ==> #[trigger] castle_key(c1) != #[trigger] castle_key(c2),
{
    lemma_castle_key_0();
    lemma_castle_key_1();
    lemma_castle_key_2();
    lemma_castle_key_3();
    lemma_castle_key_4();
    lemma_castle_key_5();
    lemma_castle_key_6();
    lemma_castle_key_7();
    lemma_castle_key_8();
    lemma_castle_key_9();
    lemma_castle_key_10();
    lemma_castle_key_11();
    lemma_castle_key_12();
    lemma_castle_key_13();
    lemma_castle_key_14();
    lemma_castle_key_15();
}

/// Castling rights enter the key: two different sets of rights give
/// different state keys, whatever the en-passant file and side to move.
pub proof fn lemma_castling_in_key(c1: u8, c2: u8, ep: Option<u8>, side: Color)
    requires
        c1 < 16,
        c2 < 16,
        c1 != c2,
    ensures
        state_key(c1, ep, side) != state_key(c2, ep, side),
{
    lemma_castle_keys_distinct();
    let e: u64 = match ep {
        Some(x) => ep_key(file_spec(x as int)),
        None => 0u64,
    };
    let s: u64 = if side == Color::Black { side_key() } else { 0u64 };
    let k1 = castle_key(c1);
    let k2 = castle_key(c2);
    assert(k1 != k2);
    lemma_xor_facts(k1, e, s);
    lemma_xor_facts(k2, e, s);
    crate::bitboard::lemma_xor_cancel(k1, e ^ s);
    crate::bitboard::lemma_xor_cancel(k2, e ^ s);
    if state_key(c1, ep, side) == state_key(c2, ep, side) {
        assert(k1 ^ (e ^ s) == k2 ^ (e ^ s));
        assert((k1 ^ (e ^ s)) ^ (e ^ s) == (k2 ^ (e ^ s)) ^ (e ^ s));
    }
}

} // verus!
