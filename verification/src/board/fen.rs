//! FEN text: the grammar of its six fields and their meaning.

use vstd::prelude::*;
use vstd::string::{StrSliceExecFns, StringExecFns};
use vstd::utf8::encode_utf8;

use crate::board::types::{square_of_bytes, Color, Piece};
use crate::text::{ascii_chars, decimal, decimal_string, split_on, words_of};

verus! {

/// The squares described by one rank of a FEN placement, left to right: a
/// digit 1-8 stands for that many empty squares, a piece letter for a piece.
/// `None` when a character is neither.
pub open spec fn rank_cells(t: Seq<char>) -> Option<Seq<Option<Piece>>>
    decreases t.len(),
{
    if t.len() == 0 {
        Some(Seq::empty())
    } else {
        match rank_cells(t.drop_last()) {
            None => None,
            Some(prev) => {
                let c = t.last();
                if '1' <= c && c <= '8' {
                    Some(prev + Seq::new((c as int - 48) as nat, |i: int| None::<Piece>))
                } else {
                    match Piece::from_fen_spec(c) {
                        Some(p) => Some(prev.push(Some(p))),
                        None => None,
                    }
                }
            },
        }
    }
}

/// A rank text describing exactly eight squares.
pub open spec fn rank_ok(t: Seq<char>) -> bool {
    rank_cells(t) matches Some(c) && c.len() == 8
}

/// The board described by eight rank texts, the first being rank 8.
pub open spec fn board_of_ranks(ranks: Seq<Seq<char>>) -> Seq<Option<Piece>> {
    Seq::new(64, |s: int| rank_cells(ranks[7 - s / 8]).unwrap()[s % 8])
}

/// `rank N` followed by `tail`.
pub open spec fn rank_message(n: int, tail: Seq<char>) -> Seq<char> {
    "rank "@ + ascii_chars(decimal(n as nat)) + tail
}

/// Reads rank number `n` character by character, as far as `t` goes: the
/// number of files covered, or the first problem met.
pub open spec fn rank_scan(t: Seq<char>, n: int) -> Result<int, Seq<char>>
    decreases t.len(),
{
    if t.len() == 0 {
        Ok(0)
    } else {
        match rank_scan(t.drop_last(), n) {
            Err(m) => Err(m),
            Ok(f) => {
                let c = t.last();
                if '0' <= c && c <= '9' {
                    let d = c as int - 48;
                    if d == 0 || d > 8 {
                        Err("invalid empty-square count `"@ + seq![c] + "`"@)
                    } else if f + d > 8 {
                        Err(rank_message(n, " has more than eight files"@))
                    } else {
                        Ok(f + d)
                    }
                } else if Piece::from_fen_spec(c) is Some {
                    if f >= 8 {
                        Err(rank_message(n, " has more than eight files"@))
                    } else {
                        Ok(f + 1)
                    }
                } else {
                    Err("invalid piece character `"@ + seq![c] + "`"@)
                }
            },
        }
    }
}

/// What is wrong with rank number `n`, if anything.
pub open spec fn rank_error(t: Seq<char>, n: int) -> Option<Seq<char>> {
    match rank_scan(t, n) {
        Err(m) => Some(m),
        Ok(f) => if f != 8 {
            Some(rank_message(n, " does not contain eight files"@))
        } else {
            None
        },
    }
}

/// The first problem among the ranks from the `i`th on, the first rank
/// being rank 8.
pub open spec fn placement_error(ranks: Seq<Seq<char>>, i: int) -> Option<Seq<char>>
    decreases 8 - i,
{
    if i < 0 || i >= 8 {
        None
    } else {
        match rank_error(ranks[i], 8 - i) {
            Some(m) => Some(m),
            None => placement_error(ranks, i + 1),
        }
    }
}

proof fn lemma_rank_scan(t: Seq<char>, n: int)
    ensures
        rank_scan(t, n) is Ok <==> (rank_cells(t) matches Some(c) && c.len() <= 8),
        rank_scan(t, n) matches Ok(f) ==> f == rank_cells(t).unwrap().len(),
    decreases t.len(),
{
    if t.len() > 0 {
        lemma_rank_scan(t.drop_last(), n);
        lemma_rank_cells_grow(t);
    }
}

/// A rank text that reads to its end covers no fewer files than any prefix.
proof fn lemma_rank_cells_grow(t: Seq<char>)
    requires
        t.len() > 0,
    ensures
        rank_cells(t) matches Some(c) ==> rank_cells(t.drop_last()) matches Some(d) && d.len() <= c.len(),
{
}

/// A rank has no problem exactly when it describes eight squares.
pub proof fn lemma_rank_error(t: Seq<char>, n: int)
    ensures
        rank_error(t, n) is None <==> rank_ok(t),
{
    lemma_rank_scan(t, n);
}

/// The placement has no problem exactly when every rank describes eight
/// squares.
pub proof fn lemma_placement_error(ranks: Seq<Seq<char>>, i: int)
    requires
        0 <= i <= 8,
    ensures
        placement_error(ranks, i) is None <==> forall|k: int| i <= k < 8 ==> #[trigger] rank_ok(ranks[k]),
    decreases 8 - i,
{
    if i < 8 {
        lemma_placement_error(ranks, i + 1);
        lemma_rank_error(ranks[i], 8 - i);
        if placement_error(ranks, i) is None {
            assert forall|k: int| i <= k < 8 implies #[trigger] rank_ok(ranks[k]) by {
                if k > i {
                }
            }
        }
    }
}

pub open spec fn castle_bit(c: u8) -> u8 {
    if c == 75 {
        1
    } else if c == 81 {
        2
    } else if c == 107 {
        4
    } else if c == 113 {
        8
    } else {
        0
    }
}

/// Reads castling letters one by one: the rights they give, or the first
/// problem, a letter outside `KQkq` or one given twice.
pub open spec fn castle_scan(t: Seq<u8>) -> Result<u8, Seq<char>>
    decreases t.len(),
{
    if t.len() == 0 {
        Ok(0)
    } else {
        match castle_scan(t.drop_last()) {
            Err(m) => Err(m),
            Ok(prev) => {
                let b = castle_bit(t.last());
                if b == 0 {
                    Err("castling rights must use KQkq or -"@)
                } else if prev & b != 0 {
                    Err("duplicate castling right"@)
                } else {
                    Ok(prev | b)
                }
            },
        }
    }
}

/// The castling field: `-` or distinct letters from `KQkq`.
pub open spec fn castling_value(t: Seq<u8>) -> Option<u8> {
    if t == seq![45u8] {
        Some(0)
    } else {
        match castle_scan(t) {
            Ok(b) => Some(b),
            Err(_) => None,
        }
    }
}

/// What is wrong with the castling field, if anything.
pub open spec fn castling_error(t: Seq<u8>) -> Option<Seq<char>> {
    if t == seq![45u8] {
        None
    } else {
        match castle_scan(t) {
            Ok(_) => None,
            Err(m) => Some(m),
        }
    }
}

pub open spec fn is_digit(c: u8) -> bool {
    48 <= c <= 57
}

pub open spec fn digits_value(t: Seq<u8>) -> int
    decreases t.len(),
{
    if t.len() == 0 {
        0
    } else {
        digits_value(t.drop_last()) * 10 + (t.last() - 48)
    }
}

/// The digits of a number field: the text without one leading `+`.
pub open spec fn unsigned_part(t: Seq<u8>) -> Seq<u8> {
    if t.len() > 0 && t[0] == 43 {
        t.drop_first()
    } else {
        t
    }
}

pub open spec fn all_digits(d: Seq<u8>) -> bool {
    forall|i: int| 0 <= i < d.len() ==> is_digit(#[trigger] d[i])
}

/// `u16::from_str`: an optional `+`, then one or more decimal digits whose
/// value fits in 16 bits.
pub open spec fn u16_value(t: Seq<u8>) -> Option<u16> {
    let d = unsigned_part(t);
    if d.len() > 0 && all_digits(d) && digits_value(d) <= 65535 {
        Some(digits_value(d) as u16)
    } else {
        None
    }
}

/// The en-passant field: `-` or a square name.
pub open spec fn ep_value(t: Seq<u8>) -> Option<Option<u8>> {
    if t == seq![45u8] {
        Some(None)
    } else {
        match square_of_bytes(t) {
            Some(e) => Some(Some(e)),
            None => None,
        }
    }
}

/// The fields of a FEN record that parses, before any check of the
/// position's plausibility.
pub struct FenFields {
    pub board: Seq<Option<Piece>>,
    pub side: Color,
    pub castling: u8,
    pub ep: Option<u8>,
    pub halfmove: u16,
    pub fullmove: u16,
}

/// Parses FEN text: six whitespace-separated fields; a placement of eight
/// `/`-separated ranks of eight squares each; `w` or `b`; castling rights;
/// an en-passant square or `-`; the halfmove clock; a fullmove number of at
/// least one.
#[verifier::opaque]
pub open spec fn fen_fields(s: Seq<char>) -> Option<FenFields> {
    let f = words_of(s);
    let ranks = split_on(f[0], '/');
    if f.len() != 6 || ranks.len() != 8 || !(forall|i: int| 0 <= i < 8 ==> #[trigger] rank_ok(ranks[i])) {
        None
    } else if !(f[1] == seq!['w'] || f[1] == seq!['b']) {
        None
    } else if castling_value(encode_utf8(f[2])) is None || ep_value(encode_utf8(f[3])) is None || u16_value(
        encode_utf8(f[4]),
    ) is None || u16_value(encode_utf8(f[5])) is None || u16_value(encode_utf8(f[5])).unwrap() == 0 {
        None
    } else {
        Some(
            FenFields {
                board: board_of_ranks(ranks),
                side: if f[1] == seq!['w'] { Color::White } else { Color::Black },
                castling: castling_value(encode_utf8(f[2])).unwrap(),
                ep: ep_value(encode_utf8(f[3])).unwrap(),
                halfmove: u16_value(encode_utf8(f[4])).unwrap(),
                fullmove: u16_value(encode_utf8(f[5])).unwrap(),
            },
        )
    }
}

/// What is wrong with the side-to-move, castling, en-passant and clock
/// fields, in that order, if anything.
pub open spec fn state_error(f: Seq<Seq<char>>) -> Option<Seq<char>> {
    if !(f[1] == seq!['w'] || f[1] == seq!['b']) {
        Some("active color must be `w` or `b`"@)
    } else if castling_error(encode_utf8(f[2])) is Some {
        castling_error(encode_utf8(f[2]))
    } else if ep_value(encode_utf8(f[3])) is None {
        Some("invalid square `"@ + f[3] + "`"@)
    } else if u16_value(encode_utf8(f[4])) is None {
        Some("halfmove clock must be a non-negative u16"@)
    } else if u16_value(encode_utf8(f[5])) is None {
        Some("fullmove number must be a positive u16"@)
    } else if u16_value(encode_utf8(f[5])).unwrap() == 0 {
        Some("fullmove number must be at least 1"@)
    } else {
        None
    }
}

/// What is wrong with the text of a FEN record, before any check of the
/// position it describes: the first problem met reading it.
pub open spec fn fen_syntax_error(s: Seq<char>) -> Option<Seq<char>> {
    let f = words_of(s);
    if f.len() != 6 {
        Some("expected exactly six fields"@)
    } else if split_on(f[0], '/').len() != 8 {
        Some("piece placement must contain eight ranks"@)
    } else if placement_error(split_on(f[0], '/'), 0) is Some {
        placement_error(split_on(f[0], '/'), 0)
    } else {
        state_error(f)
    }
}

/// A FEN text parses exactly when its reading meets no problem.
pub proof fn lemma_fen_syntax(s: Seq<char>)
    ensures
        fen_fields(s) is Some <==> fen_syntax_error(s) is None,
{
    reveal(fen_fields);
    let f = words_of(s);
    if f.len() == 6 && split_on(f[0], '/').len() == 8 {
        lemma_placement_error(split_on(f[0], '/'), 0);
    }
}

proof fn lemma_scan_error_stays(t: Seq<char>, n: int, i: int, m: Seq<char>)
    requires
        0 <= i <= t.len(),
        rank_scan(t.take(i), n) == Err::<int, Seq<char>>(m),
    ensures
        rank_scan(t, n) == Err::<int, Seq<char>>(m),
    decreases t.len() - i,
{
    if i < t.len() {
        assert(t.take(i + 1).drop_last() =~= t.take(i));
        lemma_scan_error_stays(t, n, i + 1, m);
    } else {
        assert(t.take(i) =~= t);
    }
}

/// `rank N` and `tail`, as a string.
fn rank_text(n: u8, tail: &str) -> (r: String)
    ensures
        r@ == rank_message(n as int, tail@),
{
    let mut s = String::from_str("rank ");
    s.append(decimal_string(n as u128).as_str());
    s.append(tail);
    s
}

/// `head`, the `i`th character of `t`, and a closing backquote.
fn quoted_char(head: &str, t: &str, i: usize) -> (r: String)
    requires
        i < t@.len() <= usize::MAX,
    ensures
        r@ == head@ + seq![t@[i as int]] + "`"@,
{
    let mut s = String::from_str(head);
    let c = t.substring_char(i, i + 1);
    proof {
        assert(c@ =~= seq![t@[i as int]]);
    }
    s.append(c);
    s.append("`");
    s
}

/// Parses rank number `n` of a FEN placement into its eight squares, or
/// reports the first problem.
pub fn parse_rank(t: &str, n: u8) -> (r: Result<Vec<Option<Piece>>, String>)
    ensures
        r matches Ok(v) ==> rank_error(t@, n as int) is None && v@ == rank_cells(t@).unwrap(),
        r matches Err(e) ==> rank_error(t@, n as int) == Some(e@),
{
    let len = t.unicode_len();
    let mut cells: Vec<Option<Piece>> = Vec::new();
    let mut i: usize = 0;
    proof {
        assert(t@.take(0) =~= Seq::<char>::empty());
    }
    while i < len
        invariant
            len == t@.len(),
            i <= len,
            rank_scan(t@.take(i as int), n as int) == Ok::<int, Seq<char>>(cells@.len() as int),
            rank_cells(t@.take(i as int)) == Some(cells@),
            cells@.len() <= 8,
        decreases len - i,
    {
        let c = t.get_char(i);
        let ghost pre = t@.take(i + 1);
        proof {
            assert(pre.drop_last() =~= t@.take(i as int));
            assert(pre.last() == c);
        }
        if '0' <= c && c <= '9' {
            let d = (c as u32 - 48) as usize;
            if d == 0 || d > 8 {
                let e = quoted_char("invalid empty-square count `", t, i);
                proof {
                    lemma_scan_error_stays(t@, n as int, i + 1, e@);
                }
                return Err(e);
            }
            if cells.len() + d > 8 {
                let e = rank_text(n, " has more than eight files");
                proof {
                    lemma_scan_error_stays(t@, n as int, i + 1, e@);
                }
                return Err(e);
            }
            let ghost before = cells@;
            let mut k: usize = 0;
            while k < d
                invariant
                    k <= d,
                    cells@ == before + Seq::new(k as nat, |j: int| None::<Piece>),
                    before.len() + d <= 8,
                decreases d - k,
            {
                cells.push(None);
                k = k + 1;
                proof {
                    assert(cells@ =~= before + Seq::new(k as nat, |j: int| None::<Piece>));
                }
            }
        } else {
            match Piece::from_fen(c) {
                Some(p) => {
                    if cells.len() >= 8 {
                        let e = rank_text(n, " has more than eight files");
                        proof {
                            lemma_scan_error_stays(t@, n as int, i + 1, e@);
                        }
                        return Err(e);
                    }
                    cells.push(Some(p));
                },
                None => {
                    let e = quoted_char("invalid piece character `", t, i);
                    proof {
                        lemma_scan_error_stays(t@, n as int, i + 1, e@);
                    }
                    return Err(e);
                },
            }
        }
        i = i + 1;
    }
    proof {
        assert(t@.take(len as int) =~= t@);
    }
    if cells.len() != 8 {
        return Err(rank_text(n, " does not contain eight files"));
    }
    Ok(cells)
}

/// Parses the castling field, or reports its first problem.
pub fn parse_castling(text: &[u8]) -> (r: Result<u8, String>)
    ensures
        r matches Ok(c) ==> castling_value(text@) == Some(c) && c < 16,
        r matches Err(e) ==> castling_value(text@) is None && castling_error(text@) == Some(e@),
        r is Ok <==> castling_error(text@) is None,
{
    if text.len() == 1 && text[0] == 45 {
        proof { assert(text@ =~= seq![45u8]); }
        return Ok(0);
    }
    proof {
        if text@ == seq![45u8] {
            assert(text@.len() == 1);
            assert(text@[0] == 45u8);
        }
        assert(text@ != seq![45u8]);
    }
    let mut rights: u8 = 0;
    let mut i: usize = 0;
    while i < text.len()
        invariant
            i <= text@.len(),
            castle_scan(text@.take(i as int)) == Ok::<u8, Seq<char>>(rights),
            rights < 16,
            text@ != seq![45u8],
        decreases text@.len() - i,
    {
        let c = text[i];
        proof {
            assert(text@.take(i + 1).drop_last() =~= text@.take(i as int));
            assert(text@.take(i + 1).last() == c);
        }
        let bit: u8 = if c == 75 {
            1
        } else if c == 81 {
            2
        } else if c == 107 {
            4
        } else if c == 113 {
            8
        } else {
            0
        };
        proof {
            assert(castle_bit(c) == bit);
        }
        if bit == 0 {
            let e = String::from_str("castling rights must use KQkq or -");
            proof {
                lemma_castle_error_stays(text@, i + 1, e@);
            }
            return Err(e);
        }
        if rights & bit != 0 {
            let e = String::from_str("duplicate castling right");
            proof {
                lemma_castle_error_stays(text@, i + 1, e@);
            }
            return Err(e);
        }
        proof {
            lemma_or_small(rights, bit);
        }
        rights = rights | bit;
        i = i + 1;
    }
    proof {
        assert(text@.take(text@.len() as int) =~= text@);
    }
    Ok(rights)
}

proof fn lemma_castle_error_stays(t: Seq<u8>, i: int, m: Seq<char>)
    requires
        0 <= i <= t.len(),
        castle_scan(t.take(i)) == Err::<u8, Seq<char>>(m),
    ensures
        castle_scan(t) == Err::<u8, Seq<char>>(m),
    decreases t.len() - i,
{
    if i < t.len() {
        assert(t.take(i + 1).drop_last() =~= t.take(i));
        lemma_castle_error_stays(t, i + 1, m);
    } else {
        assert(t.take(i) =~= t);
    }
}

proof fn lemma_or_small(a: u8, b: u8)
    by (bit_vector)
    requires
        a < 16,
        b < 16,
    ensures
        a | b < 16,
{
}

proof fn lemma_digits_prefix(d: Seq<u8>, i: int)
    requires
        0 <= i <= d.len(),
        forall|k: int| 0 <= k < d.len() ==> is_digit(#[trigger] d[k]),
    ensures
        digits_value(d.take(i)) <= digits_value(d),
        digits_value(d.take(i)) >= 0,
    decreases d.len() - i,
{
    if i < d.len() {
        assert(d.take(i + 1).drop_last() =~= d.take(i));
        lemma_digits_prefix(d, i + 1);
        lemma_digits_nonneg(d.take(i));
    } else {
        assert(d.take(i) =~= d);
        lemma_digits_nonneg(d);
    }
}

proof fn lemma_digits_nonneg(d: Seq<u8>)
    requires
        forall|k: int| 0 <= k < d.len() ==> is_digit(#[trigger] d[k]),
    ensures
        digits_value(d) >= 0,
    decreases d.len(),
{
    if d.len() > 0 {
        lemma_digits_nonneg(d.drop_last());
    }
}

proof fn lemma_u16_not_all_digits(t: Seq<u8>, k: int)
    requires
        0 <= k < unsigned_part(t).len(),
        !is_digit(unsigned_part(t)[k]),
    ensures
        u16_value(t) is None,
{
    assert(!all_digits(unsigned_part(t)));
}

/// `str::parse::<u16>` on the bytes of a field.
pub fn parse_u16(t: &[u8]) -> (r: Option<u16>)
    ensures
        r == u16_value(t@),
{
    let start: usize = if t.len() > 0 && t[0] == 43 { 1 } else { 0 };
    let ghost d = unsigned_part(t@);
    proof {
        assert(d =~= t@.subrange(start as int, t@.len() as int));
    }
    if start >= t.len() {
        return None;
    }
    let mut value: u32 = 0;
    let mut i: usize = start;
    while i < t.len()
        invariant
            start <= i <= t@.len(),
            d == t@.subrange(start as int, t@.len() as int),
            d == unsigned_part(t@),
            forall|k: int| start <= k < i ==> is_digit(#[trigger] t@[k]),
            value as int == digits_value(t@.subrange(start as int, i as int)),
            value <= 65535,
        decreases t@.len() - i,
    {
        let c = t[i];
        let ghost pre = t@.subrange(start as int, i as int);
        proof {
            assert(t@.subrange(start as int, i + 1).drop_last() =~= pre);
            assert(t@.subrange(start as int, i + 1).last() == c);
        }
        if !(48 <= c && c <= 57) {
            proof {
                assert(d[i - start] == c);
                assert(!is_digit(d[i - start]));
                lemma_u16_not_all_digits(t@, i - start);
            }
            return None;
        }
        let next = value * 10 + (c - 48) as u32;
        if next > 65535 {
            proof {
                if all_digits(d) {
                    assert(d.take(i + 1 - start) =~= t@.subrange(start as int, i + 1));
                    lemma_digits_prefix(d, i + 1 - start);
                    assert(digits_value(d) > 65535);
                } else {
                    let k = choose|k: int| 0 <= k < d.len() && !is_digit(#[trigger] d[k]);
                    lemma_u16_not_all_digits(t@, k);
                }
            }
            return None;
        }
        value = next;
        i = i + 1;
    }
    proof {
        assert(t@.subrange(start as int, t@.len() as int) == d);
        assert forall|k: int| 0 <= k < d.len() implies is_digit(#[trigger] d[k]) by {
            assert(d[k] == t@[k + start]);
        }
    }
    Some(value as u16)
}

} // verus!
