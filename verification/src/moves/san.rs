//! Standard Algebraic Notation for legal moves.

use vstd::prelude::*;
use vstd::string::StringExecFns;

use crate::board::{after_move, file_of, file_spec, rank_of, rank_spec, Piece, PieceKind, Position, PositionModel};
use crate::movegen::{fits, in_check_spec, legal_move};
use crate::moves::{Move, MoveError, MoveKind};
use crate::text::{all_ascii, ascii_chars, string_from_ascii};

verus! {

/// Another move of a piece of the same kind and color to the same square.
pub open spec fn is_rival(m: PositionModel, mv: Move, o: Move) -> bool {
    &&& o != mv
    &&& o.to_sq() == mv.to_sq()
    &&& m.board[o.from_sq() as int] == m.board[mv.from_sq() as int]
}

pub open spec fn file_byte(sq: int) -> u8 {
    (97 + file_spec(sq)) as u8
}

pub open spec fn rank_byte(sq: int) -> u8 {
    (49 + rank_spec(sq)) as u8
}

/// What tells the moving piece apart from its rivals among the moves
/// satisfying `legal`: nothing when it has none, else its file when no
/// rival shares it, else its rank when no rival shares that, else both.
pub open spec fn disambiguation_among(m: PositionModel, mv: Move, legal: spec_fn(Move) -> bool) -> Seq<u8> {
    let f = mv.from_sq() as int;
    if !exists|o: Move| #[trigger] legal(o) && is_rival(m, mv, o) {
        Seq::empty()
    } else if !exists|o: Move| #[trigger] legal(o) && is_rival(m, mv, o) && file_spec(o.from_sq() as int) == file_spec(f) {
        seq![file_byte(f)]
    } else if !exists|o: Move| #[trigger] legal(o) && is_rival(m, mv, o) && rank_spec(o.from_sq() as int) == rank_spec(f) {
        seq![rank_byte(f)]
    } else {
        seq![file_byte(f), rank_byte(f)]
    }
}

/// The disambiguation of a move among the legal moves of the position.
pub open spec fn disambiguation(m: PositionModel, mv: Move) -> Seq<u8> {
    disambiguation_among(m, mv, |o: Move| legal_move(m, o))
}

/// The move captures: en passant, or onto an occupied square.
pub open spec fn is_capture(m: PositionModel, mv: Move) -> bool {
    mv.kind_spec() == MoveKind::EnPassant || m.board[mv.to_sq() as int] is Some
}

/// The SAN of a move without its check suffix, given the bytes that
/// disambiguate it.
pub open spec fn body_with(m: PositionModel, mv: Move, dis: Seq<u8>) -> Seq<u8> {
    let k = mv.kind_spec();
    if k == MoveKind::CastleKing {
        seq![79u8, 45u8, 79u8]
    } else if k == MoveKind::CastleQueen {
        seq![79u8, 45u8, 79u8, 45u8, 79u8]
    } else {
        let piece = m.board[mv.from_sq() as int].unwrap();
        let capture = is_capture(m, mv);
        let lead = if piece.kind != PieceKind::Pawn {
            seq![piece.kind.san_char() as u8] + dis
        } else if capture {
            seq![file_byte(mv.from_sq() as int)]
        } else {
            Seq::empty()
        };
        lead + (if capture { seq![120u8] } else { Seq::empty() }) + seq![file_byte(mv.to_sq() as int), rank_byte(mv.to_sq() as int)]
            + match mv.promotion_spec() {
            Some(p) => seq![61u8, p.san_char() as u8],
            None => Seq::empty(),
        }
    }
}

/// The SAN of a move without its check suffix.
pub open spec fn san_body(m: PositionModel, mv: Move) -> Seq<u8> {
    body_with(m, mv, disambiguation(m, mv))
}

/// `+` when the move gives check, `#` when it mates, nothing otherwise.
pub open spec fn check_suffix(m: PositionModel, mv: Move) -> Seq<u8> {
    let a = after_move(m, mv);
    if in_check_spec(a, a.side) {
        if exists|o: Move| #[trigger] legal_move(a, o) { seq![43u8] } else { seq![35u8] }
    } else {
        Seq::empty()
    }
}

/// The full SAN of a legal move.
pub open spec fn san_bytes(m: PositionModel, mv: Move) -> Seq<u8> {
    san_body(m, mv) + check_suffix(m, mv)
}

/// The SAN of a pawn capture opens with the file the pawn leaves, then `x`,
/// then the square it lands on: `exd5`.
pub proof fn lemma_pawn_capture_san(m: PositionModel, mv: Move)
    requires
        m.board.len() == 64,
        m.board[mv.from_sq() as int] matches Some(p) && p.kind == PieceKind::Pawn,
        mv.kind_spec() != MoveKind::CastleKing,
        mv.kind_spec() != MoveKind::CastleQueen,
        mv.kind_spec() == MoveKind::EnPassant || m.board[mv.to_sq() as int] is Some,
    ensures
        san_bytes(m, mv).len() >= 4,
        san_bytes(m, mv)[0] == 97 + mv.from_sq() % 8,
        san_bytes(m, mv)[1] == 120,
        san_bytes(m, mv)[2] == 97 + mv.to_sq() % 8,
        san_bytes(m, mv)[3] == 49 + mv.to_sq() / 8,
{
}

/// The SAN of a pawn move that captures nothing is the square it lands on,
/// with a promotion after it: `e4`, `e8=Q`.
pub proof fn lemma_pawn_push_san(m: PositionModel, mv: Move)
    requires
        m.board.len() == 64,
        m.board[mv.from_sq() as int] matches Some(p) && p.kind == PieceKind::Pawn,
        mv.kind_spec() != MoveKind::CastleKing,
        mv.kind_spec() != MoveKind::CastleQueen,
        mv.kind_spec() != MoveKind::EnPassant,
        m.board[mv.to_sq() as int] is None,
    ensures
        san_bytes(m, mv).len() >= 2,
        san_bytes(m, mv)[0] == 97 + mv.to_sq() % 8,
        san_bytes(m, mv)[1] == 49 + mv.to_sq() / 8,
{
}

proof fn lemma_piece_body(m: PositionModel, mv: Move, dis: Seq<u8>)
    requires
        m.board.len() == 64,
        m.board[mv.from_sq() as int] matches Some(p) && p.kind != PieceKind::Pawn,
        mv.kind_spec() != MoveKind::CastleKing,
        mv.kind_spec() != MoveKind::CastleQueen,
        mv.promotion_spec() is None,
    ensures
        body_with(m, mv, dis)[0] == m.board[mv.from_sq() as int].unwrap().kind.san_char() as u8,
        body_with(m, mv, dis).len() >= 3,
        body_with(m, mv, dis)[body_with(m, mv, dis).len() - 2] == 97 + mv.to_sq() % 8,
        body_with(m, mv, dis)[body_with(m, mv, dis).len() - 1] == 49 + mv.to_sq() / 8,
        (m.board[mv.to_sq() as int] is Some) ==> body_with(m, mv, dis)[body_with(m, mv, dis).len() - 3] == 120,
{
}

/// The SAN of a piece move other than castling opens with the piece's
/// letter, and its body ends with the square the piece lands on, after an
/// `x` when it captures.
pub proof fn lemma_piece_san_letter(m: PositionModel, mv: Move)
    requires
        m.board.len() == 64,
        m.board[mv.from_sq() as int] matches Some(p) && p.kind != PieceKind::Pawn,
        mv.kind_spec() != MoveKind::CastleKing,
        mv.kind_spec() != MoveKind::CastleQueen,
        mv.promotion_spec() is None,
    ensures
        san_bytes(m, mv)[0] == m.board[mv.from_sq() as int].unwrap().kind.san_char() as u8,
        san_body(m, mv).len() >= 3,
        san_body(m, mv)[san_body(m, mv).len() - 2] == 97 + mv.to_sq() % 8,
        san_body(m, mv)[san_body(m, mv).len() - 1] == 49 + mv.to_sq() / 8,
        (m.board[mv.to_sq() as int] is Some) ==> san_body(m, mv)[san_body(m, mv).len() - 3] == 120,
{
    let d = disambiguation(m, mv);
    lemma_piece_body(m, mv, d);
    assert(san_body(m, mv) == body_with(m, mv, d));
    assert(san_bytes(m, mv)[0] == san_body(m, mv)[0]);
}

fn push_square(out: &mut Vec<u8>, sq: u8)
    requires
        sq < 64,
        all_ascii(old(out)@),
    ensures
        final(out)@ == old(out)@ + seq![file_byte(sq as int), rank_byte(sq as int)],
        all_ascii(final(out)@),
{
    out.push(97 + file_of(sq));
    out.push(49 + rank_of(sq));
    proof {
        assert(out@ =~= old(out)@ + seq![file_byte(sq as int), rank_byte(sq as int)]);
    }
}

fn san_letter_byte(k: PieceKind) -> (b: u8)
    ensures
        b == k.san_char() as u8,
        b < 128,
{
    match k {
        PieceKind::Pawn => 32,
        PieceKind::Knight => 78,
        PieceKind::Bishop => 66,
        PieceKind::Rook => 82,
        PieceKind::Queen => 81,
        PieceKind::King => 75,
    }
}

/// `disambiguation`, with the rivals taken from a list of moves.
pub open spec fn listed_disambiguation(m: PositionModel, l: Seq<Move>, mv: Move) -> Seq<u8> {
    let f = mv.from_sq() as int;
    if !exists|j: int| 0 <= j < l.len() && is_rival(m, mv, #[trigger] l[j]) {
        Seq::empty()
    } else if !exists|j: int| 0 <= j < l.len() && is_rival(m, mv, #[trigger] l[j]) && file_spec(l[j].from_sq() as int) == file_spec(f) {
        seq![file_byte(f)]
    } else if !exists|j: int| 0 <= j < l.len() && is_rival(m, mv, #[trigger] l[j]) && rank_spec(l[j].from_sq() as int) == rank_spec(f) {
        seq![rank_byte(f)]
    } else {
        seq![file_byte(f), rank_byte(f)]
    }
}

proof fn lemma_listed_disambiguation(m: PositionModel, l: Seq<Move>, mv: Move, legal: spec_fn(Move) -> bool)
    requires
        forall|o: Move| #[trigger] l.contains(o) <==> legal(o),
    ensures
        listed_disambiguation(m, l, mv) == disambiguation_among(m, mv, legal),
{
    let f = mv.from_sq() as int;
    let q1 = |o: Move| is_rival(m, mv, o);
    let q2 = |o: Move| is_rival(m, mv, o) && file_spec(o.from_sq() as int) == file_spec(f);
    let q3 = |o: Move| is_rival(m, mv, o) && rank_spec(o.from_sq() as int) == rank_spec(f);
    lemma_list_matches(l, legal, q1);
    lemma_list_matches(l, legal, q2);
    lemma_list_matches(l, legal, q3);
    assert((exists|j: int| 0 <= j < l.len() && is_rival(m, mv, #[trigger] l[j])) == (exists|j: int| 0 <= j < l.len() && q1(#[trigger] l[j])));
    assert((exists|o: Move| #[trigger] legal(o) && is_rival(m, mv, o)) == (exists|o: Move| #[trigger] legal(o) && q1(o)));
    assert((exists|j: int| 0 <= j < l.len() && is_rival(m, mv, #[trigger] l[j]) && file_spec(l[j].from_sq() as int) == file_spec(f)) == (exists|j: int| 0 <= j < l.len() && q2(#[trigger] l[j])));
    assert((exists|o: Move| #[trigger] legal(o) && is_rival(m, mv, o) && file_spec(o.from_sq() as int) == file_spec(f)) == (exists|o: Move| #[trigger] legal(o) && q2(o)));
    assert((exists|j: int| 0 <= j < l.len() && is_rival(m, mv, #[trigger] l[j]) && rank_spec(l[j].from_sq() as int) == rank_spec(f)) == (exists|j: int| 0 <= j < l.len() && q3(#[trigger] l[j])));
    assert((exists|o: Move| #[trigger] legal(o) && is_rival(m, mv, o) && rank_spec(o.from_sq() as int) == rank_spec(f)) == (exists|o: Move| #[trigger] legal(o) && q3(o)));
}

/// A list holding exactly the legal moves holds a move with property `q`
/// exactly when some legal move has it.
proof fn lemma_list_matches(l: Seq<Move>, legal: spec_fn(Move) -> bool, q: spec_fn(Move) -> bool)
    requires
        forall|o: Move| #[trigger] l.contains(o) <==> legal(o),
    ensures
        (exists|j: int| 0 <= j < l.len() && q(#[trigger] l[j])) == (exists|o: Move| #[trigger] legal(o) && q(o)),
{
    if exists|j: int| 0 <= j < l.len() && q(#[trigger] l[j]) {
        let j = choose|j: int| 0 <= j < l.len() && q(#[trigger] l[j]);
        assert(l.contains(l[j]));
        assert(legal(l[j]));
    }
    if exists|o: Move| #[trigger] legal(o) && q(o) {
        let o = choose|o: Move| #[trigger] legal(o) && q(o);
        assert(l.contains(o));
        let j = l.index_of(o);
        assert(q(l[j]));
    }
}

/// Appends the file and/or rank that single the move out among the listed
/// moves of same-kind pieces to the same square.
fn push_disambiguation(out: &mut Vec<u8>, position: &Position, legal: &crate::movegen::MoveList, mv: Move, piece: Piece)
    requires
        mv.from_sq() < 64,
        position@.board[mv.from_sq() as int] == Some(piece),
        all_ascii(old(out)@),
    ensures
        final(out)@ == old(out)@ + listed_disambiguation(position@, legal@, mv),
        all_ascii(final(out)@),
{
    let ghost m = position@;
    let from = mv.from();
    let mut rival = false;
    let mut same_file = false;
    let mut same_rank = false;
    let mut i: usize = 0;
    while i < legal.len()
        invariant
            i <= legal@.len(),
            from == mv.from_sq(),
            from < 64,
            m == position@,
            m.board[from as int] == Some(piece),
            rival == exists|j: int| 0 <= j < i && is_rival(m, mv, #[trigger] legal@[j]),
            same_file == exists|j: int| 0 <= j < i && is_rival(m, mv, #[trigger] legal@[j]) && file_spec(legal@[j].from_sq() as int) == file_spec(from as int),
            same_rank == exists|j: int| 0 <= j < i && is_rival(m, mv, #[trigger] legal@[j]) && rank_spec(legal@[j].from_sq() as int) == rank_spec(from as int),
        decreases legal@.len() - i,
    {
        let o = legal.get(i);
        if o != mv && o.to() == mv.to() {
            match position.piece_at(o.from()) {
                Some(p) => {
                    if p.kind == piece.kind && p.color == piece.color {
                        rival = true;
                        if file_of(o.from()) == file_of(from) {
                            same_file = true;
                        }
                        if rank_of(o.from()) == rank_of(from) {
                            same_rank = true;
                        }
                    }
                },
                None => {},
            }
        }
        proof {
            broadcast use crate::moves::group_move_bounds;
            assert(is_rival(m, mv, legal@[i as int]) == (o != mv && o.to_sq() == mv.to_sq() && m.board[o.from_sq() as int] == Some(piece)));
        }
        i = i + 1;
    }
    if rival {
        if !same_file {
            out.push(97 + file_of(from));
        } else if !same_rank {
            out.push(49 + rank_of(from));
        } else {
            out.push(97 + file_of(from));
            out.push(49 + rank_of(from));
        }
    }
    proof {
        assert(out@ =~= old(out)@ + listed_disambiguation(m, legal@, mv));
    }
}

fn move_error(msg: &str) -> (e: MoveError)
    ensures
        e.0@ == msg@,
{
    MoveError(String::from_str(msg))
}

/// Appends the SAN of a legal move, without its check suffix.
fn push_san_body(out: &mut Vec<u8>, position: &Position, legal: &crate::movegen::MoveList, mv: Move)
    requires
        position.consistent(),
        position@.board[mv.from_sq() as int] is Some,
        all_ascii(old(out)@),
    ensures
        final(out)@ == old(out)@ + body_with(position@, mv, listed_disambiguation(position@, legal@, mv)),
        all_ascii(final(out)@),
{
    let ghost m = position@;
    let ghost start = out@;
    proof {
        broadcast use crate::moves::group_move_bounds;
    }
    let kind = mv.kind();
    if kind == MoveKind::CastleKing {
        out.push(79);
        out.push(45);
        out.push(79);
        proof {
            assert(out@ =~= start + body_with(m, mv, listed_disambiguation(m, legal@, mv)));
        }
        return;
    }
    if kind == MoveKind::CastleQueen {
        out.push(79);
        out.push(45);
        out.push(79);
        out.push(45);
        out.push(79);
        proof {
            assert(out@ =~= start + body_with(m, mv, listed_disambiguation(m, legal@, mv)));
        }
        return;
    }
    let from = mv.from();
    let to = mv.to();
    let piece = match position.piece_at(from) {
        Some(p) => p,
        None => {
            proof {
                assert(false);
            }
            return;
        },
    };
    let capture = kind == MoveKind::EnPassant || position.piece_at(to).is_some();
    if piece.kind != PieceKind::Pawn {
        out.push(san_letter_byte(piece.kind));
        push_disambiguation(out, position, legal, mv, piece);
    } else if capture {
        out.push(97 + file_of(from));
    }
    let ghost lead = out@;
    if capture {
        out.push(120);
    }
    push_square(out, to);
    let ghost before_promo = out@;
    match mv.promotion() {
        Some(p) => {
            out.push(61);
            out.push(san_letter_byte(p));
        },
        None => {},
    }
    proof {
        let lead_spec = if piece.kind != PieceKind::Pawn {
            seq![piece.kind.san_char() as u8] + listed_disambiguation(m, legal@, mv)
        } else if capture {
            seq![file_byte(mv.from_sq() as int)]
        } else {
            Seq::<u8>::empty()
        };
        assert(lead =~= start + lead_spec);
        assert(before_promo =~= lead + (if capture { seq![120u8] } else { Seq::empty() }) + seq![file_byte(to as int), rank_byte(to as int)]);
        assert(out@ =~= start + body_with(m, mv, listed_disambiguation(m, legal@, mv)));
    }
}

/// Formats a legal move in Standard Algebraic Notation, including
/// ambiguity and check/checkmate suffixes. A copy of the position is used
/// to look past the move.
pub fn to_san(position: &Position, mv: Move) -> (r: Result<String, MoveError>)
    requires
        position.wf(),
    ensures
        r is Ok ==> legal_move(position@, mv),
        fits(position@) ==> (r is Ok <==> legal_move(position@, mv)),
        r matches Ok(s) ==> (fits(position@) && fits(after_move(position@, mv)) ==> s@ == ascii_chars(san_bytes(position@, mv))),
        r matches Err(e) ==> (fits(position@) ==> e.0@ == "cannot format an illegal move as SAN"@),
{
    let legal = position.legal_moves();
    if !legal.contains(mv) {
        return Err(move_error("cannot format an illegal move as SAN"));
    }
    let mut out: Vec<u8> = Vec::new();
    proof {
        position.lemma_wf();
        assert(legal_move(position@, mv));
        crate::movegen::lemma_pseudo_applicable(position@, mv);
    }
    push_san_body(&mut out, position, &legal, mv);
    proof {
        if fits(position@) {
            lemma_listed_disambiguation(position@, legal@, mv, |o: Move| legal_move(position@, o));
        }
    }
    let mut after = position.duplicate();
    match after.try_make_move(mv) {
        Ok(_) => {},
        Err(e) => return Err(MoveError(e.0)),
    }
    let ghost body = out@;
    let side = after.side_to_move();
    if after.in_check(side) {
        let replies = after.legal_moves();
        if replies.is_empty() {
            out.push(35);
        } else {
            out.push(43);
        }
        proof {
            crate::movegen::lemma_empty_list(after@, replies@);
        }
    }
    proof {
        after.lemma_wf();
        if fits(position@) && fits(after_move(position@, mv)) {
            assert(out@ =~= body + check_suffix(position@, mv));
        }
    }
    Ok(string_from_ascii(out))
}

/// Unicode `White_Space`, the characters `str::trim` removes.
pub open spec fn is_unicode_ws(c: char) -> bool {
    ||| '\u{9}' <= c <= '\u{d}'
    ||| c == ' '
    ||| c == '\u{85}'
    ||| c == '\u{a0}'
    ||| c == '\u{1680}'
    ||| '\u{2000}' <= c <= '\u{200a}'
    ||| c == '\u{2028}'
    ||| c == '\u{2029}'
    ||| c == '\u{202f}'
    ||| c == '\u{205f}'
    ||| c == '\u{3000}'
}

pub open spec fn trim_start(s: Seq<char>) -> Seq<char>
    decreases s.len(),
{
    if s.len() > 0 && is_unicode_ws(s[0]) {
        trim_start(s.drop_first())
    } else {
        s
    }
}

pub open spec fn trim_end(s: Seq<char>) -> Seq<char>
    decreases s.len(),
{
    if s.len() > 0 && is_unicode_ws(s.last()) {
        trim_end(s.drop_last())
    } else {
        s
    }
}

/// SAN input as it is compared: without surrounding whitespace, and with
/// each digit zero read as the letter O (so `0-0` means `O-O`).
pub open spec fn normalized_san(s: Seq<char>) -> Seq<char> {
    trim_end(trim_start(s)).map_values(|c: char| if c == '0' { 'O' } else { c })
}

/// `str::trim`: the text without leading and trailing Unicode white space.
#[verifier::external_body]
fn trim_text(s: &str) -> (r: &str)
    ensures
        r@ == trim_end(trim_start(s@)),
{
    s.trim()
}

/// `str::replace` of the character `0` by `O`.
#[verifier::external_body]
fn zeros_to_o(s: &str) -> (r: String)
    ensures
        r@ == s@.map_values(|c: char| if c == '0' { 'O' } else { c }),
{
    s.replace('0', "O")
}

/// Every legal move of the position, and the position after each, has a
/// pseudo-legal move set that the move list holds whole.
#[verifier::opaque]
pub open spec fn all_fit(m: PositionModel) -> bool {
    fits(m) && forall|mv: Move| #[trigger] legal_move(m, mv) ==> fits(after_move(m, mv))
}

/// The legal move `mv` is written `text` in SAN.
#[verifier::opaque]
pub open spec fn written_as(m: PositionModel, mv: Move, text: Seq<char>) -> bool {
    legal_move(m, mv) && ascii_chars(san_bytes(m, mv)) == text
}

/// The listed move is legal and written as the text, with every legal
/// move listed and looked past in full.
#[verifier::opaque]
spec fn san_match(m: PositionModel, o: Move, norm: Seq<char>) -> bool {
    all_fit(m) && written_as(m, o, norm)
}

/// `l` lists legal moves only, and all of them when the position fits.
#[verifier::opaque]
spec fn lists_legal(m: PositionModel, l: Seq<Move>) -> bool {
    &&& forall|o: Move| #[trigger] l.contains(o) ==> legal_move(m, o)
    &&& fits(m) ==> forall|o: Move| #[trigger] l.contains(o) <== legal_move(m, o)
}

/// `s` is the SAN of `mv`.
#[verifier::opaque]
spec fn san_text_is(m: PositionModel, mv: Move, s: Seq<char>) -> bool {
    ascii_chars(san_bytes(m, mv)) == s
}

proof fn lemma_san_match(m: PositionModel, l: Seq<Move>, mv: Move, norm: Seq<char>, s: Seq<char>)
    requires
        lists_legal(m, l),
        l.contains(mv),
        all_fit(m) ==> san_text_is(m, mv, s),
    ensures
        san_match(m, mv, norm) == (all_fit(m) && s == norm),
{
    reveal(san_match);
    reveal(lists_legal);
    reveal(san_text_is);
    reveal(written_as);
}

/// The SAN of a listed legal move.
fn listed_san(position: &Position, legal: &crate::movegen::MoveList, mv: Move) -> (r: Result<String, MoveError>)
    requires
        position.wf(),
        lists_legal(position@, legal@),
        legal@.contains(mv),
    ensures
        all_fit(position@) ==> (r matches Ok(s) && san_text_is(position@, mv, s@)),
{
    proof {
        reveal(lists_legal);
        reveal(san_text_is);
        if all_fit(position@) {
            reveal(all_fit);
            assert(legal_move(position@, mv));
            assert(fits(after_move(position@, mv)));
        }
    }
    to_san(position, mv)
}

proof fn lemma_san_unique(m: PositionModel, l: Seq<Move>, mv: Move, norm: Seq<char>, j: int)
    requires
        lists_legal(m, l),
        all_fit(m),
        0 <= j < l.len(),
        l[j] == mv,
        san_match(m, l[j], norm),
        forall|k: int| 0 <= k < l.len() && k != j ==> !#[trigger] san_match(m, l[k], norm),
    ensures
        written_as(m, mv, norm),
        forall|o: Move| #[trigger] written_as(m, o, norm) ==> o == mv,
{
    reveal(san_match);
    reveal(lists_legal);
    reveal(all_fit);
    reveal(written_as);
    assert forall|o: Move| #[trigger] written_as(m, o, norm) implies o == mv by {
        assert(l.contains(o));
        let k = l.index_of(o);
        assert(san_match(m, l[k], norm));
    }
}

proof fn lemma_san_none(m: PositionModel, l: Seq<Move>, norm: Seq<char>)
    requires
        lists_legal(m, l),
        all_fit(m),
        forall|k: int| 0 <= k < l.len() ==> !#[trigger] san_match(m, l[k], norm),
    ensures
        forall|o: Move| !#[trigger] written_as(m, o, norm),
{
    reveal(san_match);
    reveal(lists_legal);
    reveal(all_fit);
    reveal(written_as);
    assert forall|o: Move| !#[trigger] written_as(m, o, norm) by {
        if written_as(m, o, norm) {
            assert(l.contains(o));
            let k = l.index_of(o);
            assert(san_match(m, l[k], norm));
        }
    }
}

proof fn lemma_san_two(m: PositionModel, a: Move, b: Move, norm: Seq<char>)
    requires
        san_match(m, a, norm),
        san_match(m, b, norm),
        a != b,
    ensures
        all_fit(m),
        written_as(m, a, norm),
        written_as(m, b, norm),
{
    reveal(san_match);
    assert(written_as(m, a, norm) && written_as(m, b, norm));
}

proof fn lemma_list_legal(m: PositionModel, l: Seq<Move>, mv: Move)
    requires
        lists_legal(m, l),
        l.contains(mv),
    ensures
        legal_move(m, mv),
{
    reveal(lists_legal);
}

/// Parses SAN by matching it against the canonical SAN of each legal move,
/// so ambiguous shorthand and a claimed check that is not one are refused.
pub fn from_san(position: &Position, input: &str) -> (r: Result<Move, MoveError>)
    requires
        position.wf(),
    ensures
        r matches Ok(mv) ==> legal_move(position@, mv),
        all_fit(position@) ==> match r {
            Ok(mv) => written_as(position@, mv, normalized_san(input@)) && forall|o: Move|
                #[trigger] written_as(position@, o, normalized_san(input@)) ==> o == mv,
            Err(e) => if exists|o: Move| #[trigger] written_as(position@, o, normalized_san(input@)) {
                e.0@ == "SAN is ambiguous"@ && exists|a: Move, b: Move|
                    #[trigger] written_as(position@, a, normalized_san(input@)) && #[trigger] written_as(position@, b, normalized_san(input@))
                        && a != b
            } else {
                e.0@ == "`"@ + input@ + "` is not canonical legal SAN in this position"@
            },
        },
{
    let normalized = zeros_to_o(trim_text(input));
    let ghost norm = normalized_san(input@);
    let ghost m = position@;
    let legal = position.legal_moves();
    proof {
        reveal(lists_legal);
        assert(lists_legal(m, legal@));
    }
    let mut candidate: Option<Move> = None;
    let ghost mut cj: int = 0;
    let mut i: usize = 0;
    while i < legal.len()
        invariant
            i <= legal@.len(),
            m == position@,
            position.wf(),
            normalized@ == norm,
            norm == normalized_san(input@),
            lists_legal(m, legal@),
            legal@.no_duplicates(),
            match candidate {
                None => forall|k: int| 0 <= k < i ==> !#[trigger] san_match(m, legal@[k], norm),
                Some(c) => {
                    &&& 0 <= cj < i
                    &&& legal@[cj] == c
                    &&& san_match(m, c, norm) || !all_fit(m)
                    &&& forall|k: int| 0 <= k < i && k != cj ==> !#[trigger] san_match(m, legal@[k], norm)
                },
            },
        decreases legal@.len() - i,
    {
        let mv = legal.get(i);
        proof {
            assert(legal@.contains(mv));
        }
        let san = match listed_san(position, &legal, mv) {
            Ok(s) => s,
            Err(e) => return Err(e),
        };
        proof {
            lemma_san_match(m, legal@, mv, norm, san@);
        }
        if san == normalized {
            match candidate {
                Some(c) => {
                    proof {
                        if all_fit(m) {
                            assert(legal@[cj] != legal@[i as int]);
                            lemma_san_two(m, c, mv, norm);
                            assert(written_as(position@, c, normalized_san(input@)));
                            assert(written_as(position@, mv, normalized_san(input@)));
                        }
                    }
                    return Err(move_error("SAN is ambiguous"));
                },
                None => {
                    candidate = Some(mv);
                    proof {
                        cj = i as int;
                    }
                },
            }
        }
        i = i + 1;
    }
    match candidate {
        Some(mv) => {
            proof {
                assert(legal@.contains(mv));
                lemma_list_legal(m, legal@, mv);
                if all_fit(m) {
                    lemma_san_unique(m, legal@, mv, norm, cj);
                }
            }
            Ok(mv)
        },
        None => {
            proof {
                if all_fit(m) {
                    lemma_san_none(m, legal@, norm);
                }
            }
            let mut msg = String::from_str("`");
            msg.append(input);
            msg.append("` is not canonical legal SAN in this position");
            Err(MoveError(msg))
        },
    }
}

} // verus!
