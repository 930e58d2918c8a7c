//! Reading back what `to_fen` writes: the FEN text of a position parses to
//! that position's board, side to move, castling rights, en-passant target
//! and clocks.

use vstd::prelude::*;
use vstd::utf8::{encode_utf8, is_ascii_chars, is_ascii_chars_encode_utf8};

use crate::board::fen::{
    all_digits, board_of_ranks, castle_bit, castle_scan, castling_value, digits_value, ep_value, fen_fields, is_digit, rank_cells, rank_ok,
    u16_value, unsigned_part, FenFields,
};
use crate::board::position::setup::{castling_text, ep_text, fen_bytes, fen_model, rank_run, ranks_text};
use crate::board::position::{full_key, PositionModel};
use crate::board::types::{square_of_bytes, Color, Piece};
use crate::text::{
    ascii_chars, decimal, is_blank, lemma_decimal_ascii, lemma_split_join, lemma_split_single, lemma_words_join, lemma_words_single,
    split_on, words_of,
};

verus! {

/// A byte FEN text may hold outside its separators: a digit, a letter or
/// `/`, `-`.
spec fn fen_byte(b: u8) -> bool {
    b == 45 || b == 47 || (48 <= b <= 57) || (65 <= b <= 90) || (97 <= b <= 122)
}

spec fn all_fen_bytes(s: Seq<u8>) -> bool {
    forall|i: int| 0 <= i < s.len() ==> fen_byte(#[trigger] s[i])
}

proof fn lemma_ascii_add(a: Seq<u8>, b: Seq<u8>)
    ensures
        ascii_chars(a + b) == ascii_chars(a) + ascii_chars(b),
{
    assert(ascii_chars(a + b) =~= ascii_chars(a) + ascii_chars(b));
}

/// The characters of FEN bytes are neither blanks nor non-ASCII.
proof fn lemma_fen_chars(s: Seq<u8>)
    requires
        all_fen_bytes(s),
    ensures
        forall|i: int| 0 <= i < s.len() ==> !is_blank(#[trigger] ascii_chars(s)[i]),
        encode_utf8(ascii_chars(s)) == s,
{
    assert forall|i: int| 0 <= i < s.len() implies !is_blank(#[trigger] ascii_chars(s)[i]) by {
        assert(fen_byte(s[i]));
        assert(ascii_chars(s)[i] == s[i] as char);
    }
    let c = ascii_chars(s);
    assert(is_ascii_chars(c)) by {
        assert forall|i: int| 0 <= i < c.len() implies '\0' <= #[trigger] c[i] <= '\u{7f}' by {
            assert(fen_byte(s[i]));
        }
    }
    is_ascii_chars_encode_utf8(c);
    assert(encode_utf8(c) =~= s) by {
        assert forall|i: int| 0 <= i < s.len() implies encode_utf8(c)[i] == s[i] by {
            assert(c[i] as u8 == encode_utf8(c)[i]);
        }
    }
}

/// The letter of a piece names it, and is a letter.
proof fn lemma_symbol(p: Piece)
    ensures
        Piece::from_fen_spec(p.fen_symbol()) == Some(p),
        ('a' <= p.fen_symbol() && p.fen_symbol() <= 'z') || ('A' <= p.fen_symbol() && p.fen_symbol() <= 'Z'),
{
}

proof fn lemma_symbol_byte(p: Piece)
    ensures
        fen_byte(p.fen_symbol() as u8),
        (p.fen_symbol() as u8) as char == p.fen_symbol(),
{
    lemma_symbol(p);
}

proof fn lemma_rank_run_bytes(board: Seq<Option<Piece>>, r: int, f: int, e: nat)
    requires
        board.len() == 64,
        0 <= r < 8,
        0 <= f <= 8,
        e <= f,
    ensures
        all_fen_bytes(rank_run(board, r, f, e)),
        forall|i: int| 0 <= i < rank_run(board, r, f, e).len() ==> #[trigger] rank_run(board, r, f, e)[i] != 47,
    decreases 8 - f,
{
    if f < 8 {
        match board[r * 8 + f] {
            Some(p) => {
                lemma_rank_run_bytes(board, r, f + 1, 0);
                lemma_symbol_byte(p);
                lemma_symbol(p);
            },
            None => {
                lemma_rank_run_bytes(board, r, f + 1, e + 1);
            },
        }
    }
}

proof fn lemma_rank_cells_concat(a: Seq<char>, b: Seq<char>)
    requires
        rank_cells(a) is Some,
        rank_cells(b) is Some,
    ensures
        rank_cells(a + b) == Some(rank_cells(a).unwrap() + rank_cells(b).unwrap()),
    decreases b.len(),
{
    if b.len() == 0 {
        assert(a + b =~= a);
        assert(rank_cells(a).unwrap() + Seq::<Option<Piece>>::empty() =~= rank_cells(a).unwrap());
    } else {
        let b2 = b.drop_last();
        assert((a + b).drop_last() =~= a + b2);
        assert((a + b).last() == b.last());
        lemma_rank_cells_concat(a, b2);
        let ca = rank_cells(a).unwrap();
        let cb = rank_cells(b2).unwrap();
        let c = b.last();
        if '1' <= c && c <= '8' {
            assert(ca + cb + Seq::new((c as int - 48) as nat, |i: int| None::<Piece>) =~= ca + (cb + Seq::new(
                (c as int - 48) as nat,
                |i: int| None::<Piece>,
            )));
        } else {
            let p = Piece::from_fen_spec(c).unwrap();
            assert((ca + cb).push(Some(p)) =~= ca + cb.push(Some(p)));
        }
    }
}

proof fn lemma_digit_cells(e: nat)
    requires
        1 <= e <= 8,
    ensures
        rank_cells(ascii_chars(seq![(48 + e) as u8])) == Some(Seq::new(e, |i: int| None::<Piece>)),
{
    let t = ascii_chars(seq![(48 + e) as u8]);
    assert(t.drop_last() =~= Seq::<char>::empty());
    assert(t.last() == ((48 + e) as u8) as char);
    assert(rank_cells(t.drop_last()) == Some(Seq::<Option<Piece>>::empty()));
    assert('1' <= t.last() && t.last() <= '8');
    assert(Seq::<Option<Piece>>::empty() + Seq::new((t.last() as int - 48) as nat, |i: int| None::<Piece>) =~= Seq::new(
        e,
        |i: int| None::<Piece>,
    ));
}

proof fn lemma_symbol_cells(p: Piece)
    ensures
        rank_cells(ascii_chars(seq![p.fen_symbol() as u8])) == Some(seq![Some(p)]),
{
    lemma_symbol_byte(p);
    lemma_symbol(p);
    let sc = ascii_chars(seq![p.fen_symbol() as u8]);
    assert(sc =~= seq![p.fen_symbol()]);
    assert(sc.drop_last() =~= Seq::<char>::empty());
    assert(rank_cells(sc.drop_last()) == Some(Seq::<Option<Piece>>::empty()));
    assert(sc.last() == p.fen_symbol());
    assert(!('1' <= sc.last() && sc.last() <= '8'));
    assert(Seq::<Option<Piece>>::empty().push(Some(p)) =~= seq![Some(p)]);
}

/// The cells of the empty squares before a piece, then the piece.
proof fn lemma_head_cells(e: nat, p: Piece)
    requires
        e <= 8,
    ensures
        rank_cells(ascii_chars((if e > 0 { seq![(48 + e) as u8] } else { Seq::<u8>::empty() }) + seq![p.fen_symbol() as u8]))
            == Some(Seq::new(e, |i: int| None::<Piece>).push(Some(p))),
{
    let head: Seq<u8> = if e > 0 { seq![(48 + e) as u8] } else { Seq::empty() };
    let sym: Seq<u8> = seq![p.fen_symbol() as u8];
    lemma_ascii_add(head, sym);
    lemma_symbol_cells(p);
    if e > 0 {
        lemma_digit_cells(e);
    } else {
        assert(ascii_chars(head) =~= Seq::<char>::empty());
    }
    lemma_rank_cells_concat(ascii_chars(head), ascii_chars(sym));
    assert(Seq::new(e, |i: int| None::<Piece>) + seq![Some(p)] =~= Seq::new(e, |i: int| None::<Piece>).push(Some(p)));
}

/// The text of a rank, from file `f` on with `e` empty squares pending,
/// reads back as those empty squares and the rest of the rank.
proof fn lemma_rank_run_cells(board: Seq<Option<Piece>>, r: int, f: int, e: nat)
    requires
        board.len() == 64,
        0 <= r < 8,
        0 <= f <= 8,
        e <= f,
    ensures
        rank_cells(ascii_chars(rank_run(board, r, f, e))) == Some(Seq::new(e, |i: int| None::<Piece>) + board.subrange(
            r * 8 + f,
            r * 8 + 8,
        )),
    decreases 8 - f,
{
    let nones = Seq::new(e, |i: int| None::<Piece>);
    if f >= 8 {
        if e > 0 {
            lemma_digit_cells(e);
        } else {
            assert(ascii_chars(Seq::<u8>::empty()) =~= Seq::<char>::empty());
        }
        assert(nones + board.subrange(r * 8 + f, r * 8 + 8) =~= nones);
    } else {
        match board[r * 8 + f] {
            Some(p) => {
                lemma_rank_run_cells(board, r, f + 1, 0);
                let rest = rank_run(board, r, f + 1, 0);
                let head: Seq<u8> = if e > 0 { seq![(48 + e) as u8] } else { Seq::empty() };
                let hs = head + seq![p.fen_symbol() as u8];
                assert(rank_run(board, r, f, e) == hs + rest);
                lemma_ascii_add(hs, rest);
                lemma_head_cells(e, p);
                lemma_rank_cells_concat(ascii_chars(hs), ascii_chars(rest));
                assert(nones.push(Some(p)) + (Seq::new(0, |i: int| None::<Piece>) + board.subrange(r * 8 + f + 1, r * 8 + 8))
                    =~= nones + board.subrange(r * 8 + f, r * 8 + 8));
            },
            None => {
                lemma_rank_run_cells(board, r, f + 1, e + 1);
                assert(Seq::new(e + 1, |i: int| None::<Piece>) + board.subrange(r * 8 + f + 1, r * 8 + 8) =~= nones
                    + board.subrange(r * 8 + f, r * 8 + 8));
            },
        }
    }
}

/// The rank texts of the top `k` ranks, separated by `/`, split back into
/// those rank texts.
proof fn lemma_ranks_split(board: Seq<Option<Piece>>, k: nat)
    requires
        board.len() == 64,
        1 <= k <= 8,
    ensures
        all_fen_bytes(ranks_text(board, k)),
        split_on(ascii_chars(ranks_text(board, k)), '/') == Seq::new(k, |i: int| ascii_chars(rank_run(board, 7 - i, 0, 0))),
    decreases k,
{
    let rr = rank_run(board, 8 - k, 0, 0);
    lemma_rank_run_bytes(board, 8 - k, 0, 0);
    let a = ascii_chars(rr);
    assert forall|i: int| 0 <= i < a.len() implies #[trigger] a[i] != '/' by {
        assert(rr[i] != 47);
        assert(a[i] == rr[i] as char);
    }
    lemma_split_single(a, '/');
    if k == 1 {
        assert(Seq::new(k, |i: int| ascii_chars(rank_run(board, 7 - i, 0, 0))) =~= seq![a]);
    } else {
        lemma_ranks_split(board, (k - 1) as nat);
        let front = ranks_text(board, (k - 1) as nat);
        lemma_ascii_add(front + seq![47u8], rr);
        lemma_ascii_add(front, seq![47u8]);
        assert(ascii_chars(seq![47u8]) =~= seq!['/']);
        lemma_split_join(ascii_chars(front), '/', a);
        assert(Seq::new((k - 1) as nat, |i: int| ascii_chars(rank_run(board, 7 - i, 0, 0))) + seq![a] =~= Seq::new(
            k,
            |i: int| ascii_chars(rank_run(board, 7 - i, 0, 0)),
        ));
        assert forall|i: int| 0 <= i < ranks_text(board, k).len() implies fen_byte(#[trigger] ranks_text(board, k)[i]) by {
            let t = front + seq![47u8] + rr;
            assert(ranks_text(board, k) == t);
            if i < front.len() {
                assert(t[i] == front[i]);
            } else if i == front.len() {
            } else {
                assert(t[i] == rr[i - front.len() - 1]);
            }
        }
    }
}

/// The eight rank texts of a board read back as that board.
proof fn lemma_board_read_back(board: Seq<Option<Piece>>)
    requires
        board.len() == 64,
    ensures
        forall|i: int| 0 <= i < 8 ==> #[trigger] rank_ok(ascii_chars(rank_run(board, 7 - i, 0, 0))),
        board_of_ranks(Seq::new(8, |i: int| ascii_chars(rank_run(board, 7 - i, 0, 0)))) == board,
{
    let ranks = Seq::new(8, |i: int| ascii_chars(rank_run(board, 7 - i, 0, 0)));
    assert forall|i: int| 0 <= i < 8 implies #[trigger] rank_ok(ascii_chars(rank_run(board, 7 - i, 0, 0))) by {
        lemma_rank_run_cells(board, 7 - i, 0, 0);
    }
    assert forall|s: int| 0 <= s < 64 implies #[trigger] board_of_ranks(ranks)[s] == board[s] by {
        let r = s / 8;
        lemma_rank_run_cells(board, r, 0, 0);
        assert(ranks[7 - s / 8] == ascii_chars(rank_run(board, r, 0, 0)));
        let cells = rank_cells(ascii_chars(rank_run(board, r, 0, 0))).unwrap();
        assert(cells =~= board.subrange(r * 8, r * 8 + 8)) by {
            assert(Seq::new(0, |i: int| None::<Piece>) + board.subrange(r * 8, r * 8 + 8) =~= board.subrange(r * 8, r * 8 + 8));
        }
        assert(cells[s % 8] == board[r * 8 + s % 8]);
    }
    assert(board_of_ranks(ranks) =~= board);
}

proof fn lemma_castle_bits(c: u8)
    by (bit_vector)
    requires
        c < 16,
    ensures
        0u8 | 1u8 == 1u8,
        0u8 & 1u8 == 0u8,
        c & 1 != 0 ==> c & 1 == 1,
        (c & 1) & 2 == 0,
        (c & 3) & 4 == 0,
        (c & 7) & 8 == 0,
        c & 2 != 0 ==> (c & 1) | 2 == c & 3,
        c & 2 == 0 ==> c & 1 == c & 3,
        c & 4 != 0 ==> (c & 3) | 4 == c & 7,
        c & 4 == 0 ==> c & 3 == c & 7,
        c & 8 != 0 ==> (c & 7) | 8 == c,
        c & 8 == 0 ==> c & 7 == c,
        c == 0 <==> (c & 1 == 0 && c & 2 == 0 && c & 4 == 0 && c & 8 == 0),
{
}

/// One more castling letter, for a right not yet given.
proof fn lemma_scan_push(t: Seq<u8>, prev: u8, byte: u8)
    requires
        castle_scan(t) == Ok::<u8, Seq<char>>(prev),
        castle_bit(byte) != 0,
        prev & castle_bit(byte) == 0,
    ensures
        castle_scan(t.push(byte)) == Ok::<u8, Seq<char>>(prev | castle_bit(byte)),
{
    assert(t.push(byte).drop_last() =~= t);
}

/// Each set of castling rights reads back from its text.
proof fn lemma_castling_read_back(c: u8)
    requires
        c < 16,
    ensures
        castling_value(castling_text(c)) == Some(c),
        all_fen_bytes(castling_text(c)),
        castling_text(c).len() > 0,
{
    lemma_castle_bits(c);
    let t1: Seq<u8> = if c & 1 != 0 { seq![75u8] } else { Seq::empty() };
    let t2: Seq<u8> = t1 + (if c & 2 != 0 { seq![81u8] } else { Seq::empty() });
    let t3: Seq<u8> = t2 + (if c & 4 != 0 { seq![107u8] } else { Seq::empty() });
    let t4: Seq<u8> = t3 + (if c & 8 != 0 { seq![113u8] } else { Seq::empty() });
    assert(castle_scan(Seq::<u8>::empty()) == Ok::<u8, Seq<char>>(0));
    if c & 1 != 0 {
        lemma_scan_push(Seq::empty(), 0, 75);
        assert(Seq::<u8>::empty().push(75u8) =~= t1);
    } else {
        assert(t1 =~= Seq::<u8>::empty());
    }
    assert(castle_scan(t1) == Ok::<u8, Seq<char>>(c & 1));
    if c & 2 != 0 {
        lemma_scan_push(t1, c & 1, 81);
        assert(t1.push(81u8) =~= t2);
    } else {
        assert(t2 =~= t1);
    }
    assert(castle_scan(t2) == Ok::<u8, Seq<char>>(c & 3));
    if c & 4 != 0 {
        lemma_scan_push(t2, c & 3, 107);
        assert(t2.push(107u8) =~= t3);
    } else {
        assert(t3 =~= t2);
    }
    assert(castle_scan(t3) == Ok::<u8, Seq<char>>(c & 7));
    if c & 8 != 0 {
        lemma_scan_push(t3, c & 7, 113);
        assert(t3.push(113u8) =~= t4);
    } else {
        assert(t4 =~= t3);
    }
    assert(castle_scan(t4) == Ok::<u8, Seq<char>>(c));
    assert(castling_text(c) == (if t4.len() == 0 { seq![45u8] } else { t4 }));
    assert forall|i: int| 0 <= i < t4.len() implies fen_byte(#[trigger] t4[i]) && t4[i] != 45 by {
        assert(t4[i] == 75 || t4[i] == 81 || t4[i] == 107 || t4[i] == 113) by {
            if c & 8 != 0 && i == t4.len() - 1 {
            } else if c & 4 != 0 && i == t3.len() - 1 {
                assert(t4[i] == t3[i]);
            } else if c & 2 != 0 && i == t2.len() - 1 {
                assert(t4[i] == t3[i] && t3[i] == t2[i]);
            } else {
                assert(t4[i] == t3[i] && t3[i] == t2[i] && t2[i] == t1[i]);
            }
        }
    }
    if t4.len() == 0 {
        assert(c & 1 == 0 && c & 2 == 0 && c & 4 == 0 && c & 8 == 0);
        assert(c == 0);
    } else {
        assert(t4[0] != 45);
        assert(t4 != seq![45u8]);
    }
}


/// An en-passant field reads back as the square it names, or as none.
proof fn lemma_ep_read_back(ep: Option<u8>)
    requires
        ep matches Some(e) ==> e < 64,
    ensures
        ep_value(ep_text(ep)) == Some(ep),
        all_fen_bytes(ep_text(ep)),
        ep_text(ep).len() > 0,
{
    match ep {
        Some(e) => {
            let t = ep_text(ep);
            assert(t.len() == 2);
            assert(t[0] == 97 + e % 8 && t[1] == 49 + e / 8);
            assert(t != seq![45u8]);
            assert(square_of_bytes(t) == Some(e));
        },
        None => {},
    }
}

/// The decimal digits of a number are digits, and their value is that number.
proof fn lemma_decimal_digits(n: nat)
    ensures
        all_digits(decimal(n)),
        digits_value(decimal(n)) == n,
        decimal(n).len() > 0,
    decreases n,
{
    if n >= 10 {
        lemma_decimal_digits(n / 10);
        let d = decimal(n / 10);
        assert(decimal(n).drop_last() =~= d);
        assert(digits_value(decimal(n)) == (n / 10) * 10 + n % 10);
        assert(n == (n / 10) * 10 + n % 10) by (nonlinear_arith);
        assert(digits_value(decimal(n)) == n);
    } else {
        assert(decimal(n).drop_last() =~= Seq::<u8>::empty());
        assert(decimal(n).last() == 48 + n);
        assert(digits_value(Seq::<u8>::empty()) == 0);
        assert(digits_value(decimal(n)) == n);
    }
}

/// A number up to 65535 reads back from its decimal text.
proof fn lemma_decimal_read_back(n: u16)
    ensures
        u16_value(decimal(n as nat)) == Some(n),
        all_fen_bytes(decimal(n as nat)),
        decimal(n as nat).len() > 0,
{
    let d = decimal(n as nat);
    lemma_decimal_digits(n as nat);
    assert(is_digit(d[0]));
    assert(unsigned_part(d) == d);
    assert forall|i: int| 0 <= i < d.len() implies fen_byte(#[trigger] d[i]) by {
        assert(is_digit(d[i]));
    }
}

/// One more field after a space adds one more word.
proof fn lemma_push_field(a: Seq<u8>, b: Seq<u8>)
    requires
        all_fen_bytes(b),
        b.len() > 0,
    ensures
        words_of(ascii_chars(a + seq![32u8] + b)) == words_of(ascii_chars(a)).push(ascii_chars(b)),
{
    lemma_ascii_add(a + seq![32u8], b);
    lemma_ascii_add(a, seq![32u8]);
    assert(ascii_chars(seq![32u8]) =~= seq![' ']);
    lemma_fen_chars(b);
    lemma_words_join(ascii_chars(a), ascii_chars(b));
    lemma_words_single(ascii_chars(b));
    assert(words_of(ascii_chars(a)) + seq![ascii_chars(b)] =~= words_of(ascii_chars(a)).push(ascii_chars(b)));
}

/// FEN text written for a position reads back as that position's board,
/// side to move, castling rights, en-passant square and clocks, and so as a
/// position with the same Zobrist key. FEN refuses a fullmove number of
/// zero, so the fullmove number here is at least one.
pub proof fn lemma_fen_round_trip(m: PositionModel)
    requires
        m.board.len() == 64,
        m.castling < 16,
        m.ep matches Some(e) ==> e < 64,
        m.fullmove >= 1,
    ensures
        fen_fields(ascii_chars(fen_bytes(m))) == Some(
            FenFields {
                board: m.board,
                side: m.side,
                castling: m.castling,
                ep: m.ep,
                halfmove: m.halfmove,
                fullmove: m.fullmove,
            },
        ),
        fen_model(fen_fields(ascii_chars(fen_bytes(m))).unwrap()).key == full_key(m),
{
    let r = ranks_text(m.board, 8);
    let sd: Seq<u8> = if m.side == Color::White { seq![119u8] } else { seq![98u8] };
    let c = castling_text(m.castling);
    let e = ep_text(m.ep);
    let h = decimal(m.halfmove as nat);
    let f = decimal(m.fullmove as nat);
    lemma_ranks_split(m.board, 8);
    lemma_board_read_back(m.board);
    lemma_castling_read_back(m.castling);
    lemma_ep_read_back(m.ep);
    lemma_decimal_read_back(m.halfmove);
    lemma_decimal_read_back(m.fullmove);
    assert(all_fen_bytes(sd));
    lemma_fen_chars(r);
    lemma_fen_chars(sd);
    lemma_fen_chars(c);
    lemma_fen_chars(e);
    lemma_fen_chars(h);
    lemma_fen_chars(f);
    if r.len() == 0 {
        assert(ascii_chars(r) =~= Seq::<char>::empty());
    }
    lemma_words_single(ascii_chars(r));
    let p1 = r + seq![32u8] + sd;
    let p2 = p1 + seq![32u8] + c;
    let p3 = p2 + seq![32u8] + e;
    let p4 = p3 + seq![32u8] + h;
    let p5 = p4 + seq![32u8] + f;
    assert(fen_bytes(m) == p5);
    lemma_push_field(r, sd);
    lemma_push_field(p1, c);
    lemma_push_field(p2, e);
    lemma_push_field(p3, h);
    lemma_push_field(p4, f);
    let w = words_of(ascii_chars(p5));
    assert(w =~= seq![ascii_chars(r), ascii_chars(sd), ascii_chars(c), ascii_chars(e), ascii_chars(h), ascii_chars(f)]);
    assert(ascii_chars(seq![119u8]) =~= seq!['w']);
    assert(ascii_chars(seq![98u8]) =~= seq!['b']);
    let ranks = split_on(w[0], '/');
    assert(ranks == Seq::new(8, |i: int| ascii_chars(rank_run(m.board, 7 - i, 0, 0))));
    assert(forall|i: int| 0 <= i < 8 ==> #[trigger] rank_ok(ranks[i]));
    reveal(fen_fields);
}

} // verus!
