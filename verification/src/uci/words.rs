//! The words of a command line: exact and case-blind matching, joining, and
//! unsigned numbers.

use vstd::prelude::*;
use vstd::string::{StrSliceExecFns, StringExecFns, StringSliceAdditionalSpecFns};

use crate::board::fen::{all_digits, digits_value, is_digit, unsigned_part};
use crate::text::views;

verus! {

/// ASCII lower case of one character; other characters are unchanged.
pub open spec fn lower_char(c: char) -> char {
    if 'A' <= c && c <= 'Z' {
        ((c as int) + 32) as char
    } else {
        c
    }
}

pub open spec fn lower_chars(s: Seq<char>) -> Seq<char> {
    s.map_values(|c: char| lower_char(c))
}

/// Two texts are equal, or equal up to ASCII case when `fold` is set.
pub open spec fn same_chars(a: Seq<char>, b: Seq<char>, fold: bool) -> bool {
    if fold {
        lower_chars(a) == lower_chars(b)
    } else {
        a == b
    }
}

fn lower(c: char) -> (r: char)
    ensures
        r == lower_char(c),
{
    if 'A' <= c && c <= 'Z' {
        let b: u8 = (c as u32 + 32) as u8;
        b as char
    } else {
        c
    }
}

/// Compares two texts exactly, or up to ASCII case when `fold` is set.
pub fn same_text(a: &str, b: &str, fold: bool) -> (r: bool)
    ensures
        r == same_chars(a@, b@, fold),
{
    let n = a.unicode_len();
    if n != b.unicode_len() {
        proof {
            if fold {
                assert(lower_chars(a@).len() != lower_chars(b@).len());
            }
        }
        return false;
    }
    let mut i: usize = 0;
    while i < n
        invariant
            n == a@.len(),
            n == b@.len(),
            i <= n,
            forall|k: int| 0 <= k < i ==> (if fold { lower_char(a@[k]) == lower_char(b@[k]) } else { a@[k] == b@[k] }),
        decreases n - i,
    {
        let x = a.get_char(i);
        let y = b.get_char(i);
        let differ = if fold { lower(x) != lower(y) } else { x != y };
        if differ {
            proof {
                if fold {
                    assert(lower_chars(a@)[i as int] != lower_chars(b@)[i as int]);
                } else {
                    assert(a@[i as int] != b@[i as int]);
                }
            }
            return false;
        }
        i = i + 1;
    }
    proof {
        if fold {
            assert(lower_chars(a@) =~= lower_chars(b@));
        } else {
            assert(a@ =~= b@);
        }
    }
    true
}

/// The words `from .. to` joined by single spaces, as text.
pub open spec fn joined(ws: Seq<Seq<char>>, from: int, to: int) -> Seq<char>
    decreases to - from,
{
    if to <= from {
        Seq::empty()
    } else if to == from + 1 {
        ws[from]
    } else {
        joined(ws, from, to - 1) + seq![' '] + ws[to - 1]
    }
}

/// Joins `words[from .. to]` with single spaces.
pub fn join_text(words: &[&str], from: usize, to: usize) -> (r: String)
    requires
        from <= to <= words@.len(),
    ensures
        r@ == joined(views(words@), from as int, to as int),
{
    let mut out = String::new();
    if from == to {
        return out;
    }
    out.append(words[from]);
    let mut i: usize = from + 1;
    proof {
        reveal_strlit(" ");
        assert(out@ =~= joined(views(words@), from as int, i as int));
    }
    while i < to
        invariant
            from < i <= to <= words@.len(),
            out@ == joined(views(words@), from as int, i as int),
        decreases to - i,
    {
        out.append(" ");
        out.append(words[i]);
        proof {
            reveal_strlit(" ");
        }
        i = i + 1;
        proof {
            assert(out@ =~= joined(views(words@), from as int, i as int));
        }
    }
    out
}

/// `FromStr` for an unsigned integer type whose largest value is `max`:
/// an optional `+`, then one or more decimal digits whose value is at most
/// `max`.
pub open spec fn uint_value(t: Seq<u8>, max: int) -> Option<int> {
    let d = unsigned_part(t);
    if d.len() > 0 && all_digits(d) && digits_value(d) <= max {
        Some(digits_value(d))
    } else {
        None
    }
}

proof fn lemma_digits_grow(d: Seq<u8>, i: int)
    requires
        all_digits(d),
        0 <= i <= d.len(),
    ensures
        digits_value(d.subrange(0, i)) <= digits_value(d),
        digits_value(d.subrange(0, i)) >= 0,
    decreases d.len() - i,
{
    if i < d.len() {
        lemma_digits_grow(d, i + 1);
        let s = d.subrange(0, i + 1);
        assert(s.drop_last() =~= d.subrange(0, i));
        assert(is_digit(d[i]));
        lemma_digits_nonneg(d.subrange(0, i));
    } else {
        assert(d.subrange(0, i) =~= d);
        lemma_digits_nonneg(d);
    }
}

proof fn lemma_digits_nonneg(d: Seq<u8>)
    requires
        all_digits(d),
    ensures
        digits_value(d) >= 0,
    decreases d.len(),
{
    if d.len() > 0 {
        assert(all_digits(d.drop_last())) by {
            assert forall|i: int| 0 <= i < d.drop_last().len() implies is_digit(#[trigger] d.drop_last()[i]) by {
                assert(d.drop_last()[i] == d[i]);
            }
        }
        lemma_digits_nonneg(d.drop_last());
        assert(is_digit(d.last()));
    }
}

/// Parses an unsigned decimal number no greater than `max`.
pub fn parse_uint(t: &[u8], max: u64) -> (r: Option<u64>)
    ensures
        r matches Some(v) ==> uint_value(t@, max as int) == Some(v as int),
        r is None ==> uint_value(t@, max as int) is None,
{
    let start: usize = if t.len() > 0 && t[0] == 43 { 1 } else { 0 };
    let ghost d = unsigned_part(t@);
    proof {
        assert(d =~= t@.subrange(start as int, t@.len() as int));
    }
    if start >= t.len() {
        return None;
    }
    let mut value: u64 = 0;
    let mut i: usize = start;
    while i < t.len()
        invariant
            start <= i <= t@.len(),
            start < t@.len(),
            d =~= t@.subrange(start as int, t@.len() as int),
            d == unsigned_part(t@),
            all_digits(d.subrange(0, i - start)),
            value as int == digits_value(d.subrange(0, i - start)),
            value <= max,
        decreases t@.len() - i,
    {
        let c = t[i];
        if c < 48 || c > 57 {
            proof {
                assert(d[i - start] == t@[i as int]);
                assert(!is_digit(d[i - start]));
                assert(!all_digits(d));
                assert(unsigned_part(t@) == d);
                assert(uint_value(t@, max as int) is None);
            }
            return None;
        }
        let digit: u64 = (c - 48) as u64;
        let ghost s = d.subrange(0, i - start + 1);
        proof {
            assert(s.drop_last() =~= d.subrange(0, i - start));
            assert(s.last() == c);
            assert(all_digits(s)) by {
                assert forall|k: int| 0 <= k < s.len() implies is_digit(#[trigger] s[k]) by {
                    if k < s.len() - 1 {
                        assert(s[k] == d.subrange(0, i - start)[k]);
                    }
                }
            }
        }
        if digit > max || value > (max - digit) / 10 {
            proof {
                assert(digits_value(s) == value * 10 + digit);
                assert(value * 10 + digit > max) by (nonlinear_arith)
                    requires
                        digit > max || value > (max - digit) / 10,
                        value >= 0,
                ;
                if all_digits(d) {
                    lemma_digits_grow(d, i - start + 1);
                    assert(digits_value(d) > max);
                }
                assert(unsigned_part(t@) == d);
                assert(uint_value(t@, max as int) is None);
            }
            return None;
        }
        proof {
            assert(value * 10 + digit <= max) by (nonlinear_arith)
                requires
                    value <= (max - digit) / 10,
                    digit <= max,
            ;
        }
        value = value * 10 + digit;
        i = i + 1;
    }
    proof {
        assert(d.subrange(0, i - start) =~= d);
    }
    Some(value)
}


} // verus!
