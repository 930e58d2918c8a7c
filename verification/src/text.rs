//! Building `String`s from ASCII bytes.

use vstd::prelude::*;
use vstd::string::{StrSliceExecFns, StringSliceAdditionalSpecFns};

verus! {

/// The characters denoted by a sequence of ASCII bytes.
pub open spec fn ascii_chars(bytes: Seq<u8>) -> Seq<char> {
    bytes.map_values(|b: u8| b as char)
}

pub open spec fn all_ascii(bytes: Seq<u8>) -> bool {
    forall|i: int| 0 <= i < bytes.len() ==> #[trigger] bytes[i] < 128
}

/// `String::from_utf8` on ASCII bytes: the string holds exactly those
/// characters. ASCII bytes are always valid UTF-8, so the error arm is never
/// taken.
#[verifier::external_body]
pub(crate) fn string_from_ascii(bytes: Vec<u8>) -> (s: String)
    requires
        all_ascii(bytes@),
    ensures
        s@ == ascii_chars(bytes@),
{
    match String::from_utf8(bytes) {
        Ok(s) => s,
        Err(_) => String::new(),
    }
}

/// Decimal digits of `n`, most significant first.
pub open spec fn decimal(n: nat) -> Seq<u8>
    decreases n,
{
    if n < 10 {
        seq![(48 + n) as u8]
    } else {
        decimal(n / 10).push((48 + n % 10) as u8)
    }
}

pub proof fn lemma_decimal_ascii(n: nat)
    ensures
        all_ascii(decimal(n)),
        decimal(n).len() >= 1,
    decreases n,
{
    if n >= 10 {
        lemma_decimal_ascii(n / 10);
    }
}

/// Appends the decimal digits of a 128-bit `n`.
pub fn push_decimal_wide(out: &mut Vec<u8>, n: u128)
    ensures
        final(out)@ == old(out)@ + decimal(n as nat),
    decreases n,
{
    if n < 10 {
        out.push((48 + n) as u8);
    } else {
        push_decimal_wide(out, n / 10);
        out.push((48 + n % 10) as u8);
    }
}

/// The decimal text of `n` as a string.
pub fn decimal_string(n: u128) -> (s: String)
    ensures
        s@ == ascii_chars(decimal(n as nat)),
{
    let mut out: Vec<u8> = Vec::new();
    push_decimal_wide(&mut out, n);
    proof {
        lemma_decimal_ascii(n as nat);
        assert(out@ =~= decimal(n as nat));
    }
    string_from_ascii(out)
}

/// Decimal text of a signed number: a `-` before the digits of a negative.
pub open spec fn signed_decimal(n: int) -> Seq<u8> {
    if n < 0 {
        seq![45u8] + decimal((-n) as nat)
    } else {
        decimal(n as nat)
    }
}

pub proof fn lemma_signed_decimal_ascii(n: int)
    ensures
        all_ascii(signed_decimal(n)),
{
    if n < 0 {
        lemma_decimal_ascii((-n) as nat);
        assert forall|i: int| 0 <= i < signed_decimal(n).len() implies #[trigger] signed_decimal(n)[i] < 128 by {
            if i > 0 {
                assert(signed_decimal(n)[i] == decimal((-n) as nat)[i - 1]);
            }
        }
    } else {
        lemma_decimal_ascii(n as nat);
    }
}

/// Appends the decimal text of a signed number.
pub fn push_signed(out: &mut Vec<u8>, n: i64)
    requires
        n > i64::MIN,
    ensures
        final(out)@ == old(out)@ + signed_decimal(n as int),
{
    if n < 0 {
        out.push(45u8);
        let ghost mid = out@;
        push_decimal(out, (-n) as u64);
        proof {
            assert(out@ =~= old(out)@ + signed_decimal(n as int));
        }
    } else {
        push_decimal(out, n as u64);
    }
}

/// Appends the decimal digits of `n`.
pub fn push_decimal(out: &mut Vec<u8>, n: u64)
    ensures
        final(out)@ == old(out)@ + decimal(n as nat),
    decreases n,
{
    if n < 10 {
        out.push((48 + n) as u8);
    } else {
        push_decimal(out, n / 10);
        out.push((48 + n % 10) as u8);
    }
}

/// The texts of a list of words.
pub open spec fn views(words: Seq<&str>) -> Seq<Seq<char>> {
    words.map_values(|w: &str| w@)
}

/// The ASCII whitespace characters: space, tab, line feed, form feed and
/// carriage return.
pub open spec fn is_blank(c: char) -> bool {
    c == ' ' || c == '\t' || c == '\n' || c == '\x0C' || c == '\r'
}

/// The words of a text: its maximal runs of characters other than ASCII
/// whitespace, in order.
pub open spec fn words_of(s: Seq<char>) -> Seq<Seq<char>>
    decreases s.len(),
{
    if s.len() == 0 {
        Seq::empty()
    } else if is_blank(s.last()) {
        words_of(s.drop_last())
    } else if s.len() >= 2 && !is_blank(s[s.len() - 2]) {
        let w = words_of(s.drop_last());
        w.update(w.len() - 1, w.last().push(s.last()))
    } else {
        words_of(s.drop_last()).push(seq![s.last()])
    }
}

fn blank(c: char) -> (r: bool)
    ensures
        r == is_blank(c),
{
    c == ' ' || c == '\t' || c == '\n' || c == '\x0C' || c == '\r'
}

/// Splits a line into its words.
pub fn split_words(line: &str) -> (r: Vec<&str>)
    ensures
        views(r@) == words_of(line@),
{
    let n = line.unicode_len();
    let mut out: Vec<&str> = Vec::new();
    let mut start: usize = 0;
    let mut in_word = false;
    let mut i: usize = 0;
    while i < n
        invariant
            n == line@.len(),
            i <= n,
            start <= i,
            in_word ==> start < i && (start == 0 || is_blank(line@[start - 1])) && forall|k: int|
                start <= k < i ==> !is_blank(#[trigger] line@[k]),
            in_word ==> words_of(line@.take(i as int)) == views(out@).push(line@.subrange(start as int, i as int)),
            !in_word ==> words_of(line@.take(i as int)) == views(out@),
            !in_word && i > 0 ==> is_blank(line@[i - 1]),
        decreases n - i,
    {
        let c = line.get_char(i);
        let ghost t = line@.take(i + 1);
        proof {
            assert(t.drop_last() =~= line@.take(i as int));
            assert(t.last() == c);
            if i >= 1 {
                assert(t[t.len() - 2] == line@[i - 1]);
            }
        }
        if blank(c) {
            if in_word {
                let w = line.substring_char(start, i);
                let ghost before = out@;
                out.push(w);
                in_word = false;
                proof {
                    assert(views(out@) =~= views(before).push(w@));
                }
            }
        } else if !in_word {
            start = i;
            in_word = true;
            proof {
                assert(line@.subrange(start as int, i + 1) =~= seq![c]);
            }
        } else {
            proof {
                let w = words_of(line@.take(i as int));
                assert(line@.subrange(start as int, i + 1) =~= line@.subrange(start as int, i as int).push(c));
                assert(w.update(w.len() - 1, w.last().push(c)) =~= views(out@).push(line@.subrange(start as int, i + 1)));
            }
        }
        i = i + 1;
    }
    if in_word {
        let w = line.substring_char(start, n);
        let ghost before = out@;
        out.push(w);
        proof {
            assert(views(out@) =~= views(before).push(w@));
        }
    }
    proof {
        assert(line@.take(n as int) =~= line@);
    }
    out
}

/// The pieces of `s` between occurrences of `sep` (as `str::split`).
pub open spec fn split_on<A>(s: Seq<A>, sep: A) -> Seq<Seq<A>>
    decreases s.len(),
{
    if s.len() == 0 {
        seq![Seq::empty()]
    } else {
        let w = split_on(s.drop_last(), sep);
        if s.last() == sep {
            w.push(Seq::empty())
        } else {
            w.update(w.len() - 1, w.last().push(s.last()))
        }
    }
}

/// Splits a text at each `sep`.
pub fn split_str(text: &str, sep: char) -> (r: Vec<&str>)
    ensures
        views(r@) == split_on(text@, sep),
{
    let n = text.unicode_len();
    let mut out: Vec<&str> = Vec::new();
    let mut start: usize = 0;
    let mut i: usize = 0;
    proof {
        assert(text@.take(0) =~= Seq::<char>::empty());
        assert(text@.subrange(0, 0) =~= Seq::<char>::empty());
    }
    while i < n
        invariant
            n == text@.len(),
            start <= i <= n,
            split_on(text@.take(i as int), sep) == views(out@).push(text@.subrange(start as int, i as int)),
        decreases n - i,
    {
        let c = text.get_char(i);
        let ghost t = text@.take(i + 1);
        proof {
            assert(t.drop_last() =~= text@.take(i as int));
            assert(t.last() == c);
        }
        if c == sep {
            let piece = text.substring_char(start, i);
            let ghost before = out@;
            out.push(piece);
            start = i + 1;
            proof {
                assert(views(out@) =~= views(before).push(piece@));
                assert(text@.subrange(start as int, i + 1) =~= Seq::<char>::empty());
            }
        } else {
            proof {
                let w = split_on(text@.take(i as int), sep);
                assert(text@.subrange(start as int, i + 1) =~= text@.subrange(start as int, i as int).push(c));
                assert(w.update(w.len() - 1, w.last().push(c)) =~= views(out@).push(text@.subrange(start as int, i + 1)));
            }
        }
        i = i + 1;
    }
    let piece = text.substring_char(start, n);
    let ghost before = out@;
    out.push(piece);
    proof {
        assert(views(out@) =~= views(before).push(piece@));
        assert(text@.take(n as int) =~= text@);
    }
    out
}

/// Words separated by a blank: the words of each side, in order.
pub proof fn lemma_words_join(p: Seq<char>, q: Seq<char>)
    ensures
        words_of(p + seq![' '] + q) == words_of(p) + words_of(q),
    decreases q.len(),
{
    let s = p + seq![' '] + q;
    if q.len() == 0 {
        assert(s.drop_last() =~= p);
        assert(words_of(p) + words_of(q) =~= words_of(p));
    } else {
        let q2 = q.drop_last();
        let c = q.last();
        assert(s.drop_last() =~= p + seq![' '] + q2);
        assert(s.last() == c);
        lemma_words_join(p, q2);
        if !is_blank(c) {
            assert(s[s.len() - 2] == (if q.len() >= 2 { q[q.len() - 2] } else { ' ' }));
            if q.len() >= 2 && !is_blank(q[q.len() - 2]) {
                lemma_words_nonempty(q2);
                let a = words_of(p);
                let b = words_of(q2);
                assert((a + b).update((a + b).len() - 1, (a + b).last().push(c)) =~= a + b.update(b.len() - 1, b.last().push(c)));
            } else {
                assert((words_of(p) + words_of(q2)).push(seq![c]) =~= words_of(p) + words_of(q2).push(seq![c]));
            }
        }
    }
}

/// A text ending in a character other than a blank has a word.
pub proof fn lemma_words_nonempty(q: Seq<char>)
    requires
        q.len() > 0,
        !is_blank(q.last()),
    ensures
        words_of(q).len() > 0,
    decreases q.len(),
{
    if q.len() >= 2 && !is_blank(q[q.len() - 2]) {
        assert(q.drop_last().last() == q[q.len() - 2]);
        lemma_words_nonempty(q.drop_last());
    }
}

/// A text of one or more characters, none of them blank, is one word.
pub proof fn lemma_words_single(a: Seq<char>)
    requires
        a.len() > 0,
        forall|i: int| 0 <= i < a.len() ==> !is_blank(#[trigger] a[i]),
    ensures
        words_of(a) == seq![a],
    decreases a.len(),
{
    assert(!is_blank(a[a.len() - 1]));
    if a.len() == 1 {
        assert(a.drop_last() =~= Seq::<char>::empty());
        assert(words_of(a.drop_last()) =~= Seq::<Seq<char>>::empty());
        assert(seq![a.last()] =~= a);
    } else {
        let b = a.drop_last();
        assert(!is_blank(a[a.len() - 2]));
        lemma_words_single(b);
        assert(a[a.len() - 2] == b[b.len() - 1]);
        assert(b.push(a.last()) =~= a);
        assert(seq![b].update(0, b.push(a.last())) =~= seq![a]);
    }
}

/// Pieces separated by `sep`: the pieces of each side, in order.
pub proof fn lemma_split_join<A>(p: Seq<A>, sep: A, q: Seq<A>)
    ensures
        split_on(p + seq![sep] + q, sep) == split_on(p, sep) + split_on(q, sep),
    decreases q.len(),
{
    let s = p + seq![sep] + q;
    if q.len() == 0 {
        assert(s.drop_last() =~= p);
        assert(split_on(p, sep).push(Seq::empty()) =~= split_on(p, sep) + split_on(q, sep));
    } else {
        let q2 = q.drop_last();
        assert(s.drop_last() =~= p + seq![sep] + q2);
        assert(s.last() == q.last());
        lemma_split_join(p, sep, q2);
        let a = split_on(p, sep);
        let b = split_on(q2, sep);
        lemma_split_len(q2, sep);
        if q.last() == sep {
            assert((a + b).push(Seq::empty()) =~= a + b.push(Seq::empty()));
        } else {
            assert((a + b).update((a + b).len() - 1, (a + b).last().push(q.last())) =~= a + b.update(
                b.len() - 1,
                b.last().push(q.last()),
            ));
        }
    }
}

/// Splitting gives at least one piece.
pub proof fn lemma_split_len<A>(q: Seq<A>, sep: A)
    ensures
        split_on(q, sep).len() >= 1,
    decreases q.len(),
{
    if q.len() > 0 {
        lemma_split_len(q.drop_last(), sep);
    }
}

/// A sequence without `sep` is one piece.
pub proof fn lemma_split_single<A>(a: Seq<A>, sep: A)
    requires
        forall|i: int| 0 <= i < a.len() ==> #[trigger] a[i] != sep,
    ensures
        split_on(a, sep) == seq![a],
    decreases a.len(),
{
    if a.len() > 0 {
        let b = a.drop_last();
        lemma_split_single(b, sep);
        assert(b.push(a.last()) =~= a);
        assert(seq![b].update(0, b.push(a.last())) =~= seq![a]);
    } else {
        assert(a =~= Seq::<A>::empty());
    }
}

} // verus!
