//! Setting up a position: plausibility checks, FEN input and output.

use vstd::prelude::*;
use vstd::string::{StringExecFns, StringSliceAdditionalSpecFns};

use crate::bitboard::{bit_at, sq_in};
use crate::bitboard::{lemma_xor_cancel, lemma_xor_facts};
use crate::board::fen::{board_of_ranks, castling_value, ep_value, fen_fields, fen_syntax_error, lemma_fen_syntax, parse_castling, parse_rank, parse_u16, placement_error, rank_cells, rank_error, rank_ok, state_error, u16_value, FenFields};
use crate::board::position::{boards_agree, ep_ok, count_of, count_on, full_key, FenError, Position, PositionError, PositionModel};
use crate::board::types::parse_square;
use crate::text::{all_ascii, ascii_chars, decimal, lemma_decimal_ascii, push_decimal, split_on, split_str, split_words, string_from_ascii, views, words_of};
use vstd::utf8::encode_utf8;
use crate::board::zobrist::board_hash;
use crate::board::types::{file_of, file_spec, rank_of, rank_spec, Color, Piece, PieceKind, Square};
use crate::movegen::{attacked_by, is_square_attacked, king_square_spec, lemma_king_square, lemma_and_nonzero};

verus! {

/// A pawn of `color` stands on the first or the eighth rank.
pub open spec fn pawn_on_edge(board: Seq<Option<Piece>>, color: Color) -> bool {
    exists|s: int| 0 <= s < 64 && #[trigger] board[s] == Some(Piece { color, kind: PieceKind::Pawn }) && (s < 8 || s >= 56)
}

/// What is wrong with one side's material: its king count, its pawn count,
/// or a pawn on a back rank.
pub open spec fn material_problem(board: Seq<Option<Piece>>, color: Color) -> Option<Seq<char>> {
    if count_of(board, Piece { color, kind: PieceKind::King }) != 1 {
        Some(if color == Color::White { "White must have exactly one king"@ } else { "Black must have exactly one king"@ })
    } else if count_of(board, Piece { color, kind: PieceKind::Pawn }) > 8 {
        Some(if color == Color::White { "White has more than eight pawns"@ } else { "Black has more than eight pawns"@ })
    } else if pawn_on_edge(board, color) {
        Some("pawns may not be on first or eighth rank"@)
    } else {
        None
    }
}

pub open spec fn abs_diff(a: int, b: int) -> int {
    if a >= b { a - b } else { b - a }
}

/// Two squares touch (or coincide).
pub open spec fn adjacent(a: int, b: int) -> bool {
    abs_diff(file_spec(a), file_spec(b)) <= 1 && abs_diff(rank_spec(a), rank_spec(b)) <= 1
}

/// Some castling right lacks its king or rook on the home square.
pub open spec fn castling_problem(m: PositionModel) -> bool {
    let wk = Some(Piece { color: Color::White, kind: PieceKind::King });
    let wr = Some(Piece { color: Color::White, kind: PieceKind::Rook });
    let bk = Some(Piece { color: Color::Black, kind: PieceKind::King });
    let br = Some(Piece { color: Color::Black, kind: PieceKind::Rook });
    ||| m.castling & 1 != 0 && !(m.board[4] == wk && m.board[7] == wr)
    ||| m.castling & 2 != 0 && !(m.board[4] == wk && m.board[0] == wr)
    ||| m.castling & 4 != 0 && !(m.board[60] == bk && m.board[63] == br)
    ||| m.castling & 8 != 0 && !(m.board[60] == bk && m.board[56] == br)
}

/// What is wrong with the en-passant target, if anything.
pub open spec fn ep_problem(m: PositionModel) -> Option<Seq<char>> {
    match m.ep {
        None => None,
        Some(e) => {
            let e = e as int;
            if rank_spec(e) != (if m.side == Color::White { 5int } else { 2int }) {
                Some("en-passant target rank is inconsistent with active color"@)
            } else if m.board[e] is Some {
                Some("en-passant target square must be empty"@)
            } else if m.board[if m.side == Color::White { e - 8 } else { e + 8 }] != Some(
                Piece { color: m.side.opp(), kind: PieceKind::Pawn },
            ) {
                Some("en-passant target lacks the pawn that made the double push"@)
            } else {
                None
            }
        },
    }
}

/// The king of the side that just moved is attacked by the side to move.
pub open spec fn mover_in_check(m: PositionModel) -> bool {
    match king_square_spec(m.board, m.side.opp()) {
        Some(k) => attacked_by(m.board, k, m.side),
        None => attacked_by(m.board, 0, m.side),
    }
}

/// The first plausibility rule a position breaks, as the message that
/// reports it; `None` for a position that passes them all.
#[verifier::opaque]
pub open spec fn validation(m: PositionModel) -> Option<Seq<char>> {
    if material_problem(m.board, Color::White) is Some {
        material_problem(m.board, Color::White)
    } else if material_problem(m.board, Color::Black) is Some {
        material_problem(m.board, Color::Black)
    } else if adjacent(
        king_square_spec(m.board, Color::White).unwrap(),
        king_square_spec(m.board, Color::Black).unwrap(),
    ) {
        Some("kings may not be adjacent"@)
    } else if castling_problem(m) {
        Some("castling right is inconsistent with king/rook home squares"@)
    } else if ep_problem(m) is Some {
        ep_problem(m)
    } else if mover_in_check(m) {
        Some("side that just moved is in check"@)
    } else {
        None
    }
}

/// One rank of a FEN placement from `file` on, with `empty` empty squares
/// already passed over: each run of empty squares becomes its length, each
/// piece its letter.
pub open spec fn rank_run(board: Seq<Option<Piece>>, rank: int, file: int, empty: nat) -> Seq<u8>
    decreases 8 - file,
{
    if file >= 8 {
        if empty > 0 { seq![(48 + empty) as u8] } else { Seq::empty() }
    } else {
        match board[rank * 8 + file] {
            Some(p) => (if empty > 0 { seq![(48 + empty) as u8] } else { Seq::empty() }) + seq![p.fen_symbol() as u8]
                + rank_run(board, rank, file + 1, 0),
            None => rank_run(board, rank, file + 1, empty + 1),
        }
    }
}

/// The top `k` ranks of the placement, separated by `/`.
pub open spec fn ranks_text(board: Seq<Option<Piece>>, k: nat) -> Seq<u8>
    decreases k,
{
    if k == 0 {
        Seq::empty()
    } else if k == 1 {
        rank_run(board, 7, 0, 0)
    } else {
        ranks_text(board, (k - 1) as nat) + seq![47u8] + rank_run(board, 8 - k, 0, 0)
    }
}

/// `KQkq` letters of the rights held, or `-`.
pub open spec fn castling_text(c: u8) -> Seq<u8> {
    let t = (if c & 1 != 0 { seq![75u8] } else { Seq::empty() }) + (if c & 2 != 0 { seq![81u8] } else { Seq::empty() }) + (if c
        & 4 != 0 { seq![107u8] } else { Seq::empty() }) + (if c & 8 != 0 { seq![113u8] } else { Seq::empty() });
    if t.len() == 0 { seq![45u8] } else { t }
}

/// The en-passant field: the square's name, or `-`.
pub open spec fn ep_text(ep: Option<u8>) -> Seq<u8> {
    match ep {
        Some(e) => seq![(97 + file_spec(e as int)) as u8, (49 + rank_spec(e as int)) as u8],
        None => seq![45u8],
    }
}

/// The FEN record of a position.
pub open spec fn fen_bytes(m: PositionModel) -> Seq<u8> {
    ranks_text(m.board, 8) + seq![32u8] + (if m.side == Color::White { seq![119u8] } else { seq![98u8] }) + seq![32u8]
        + castling_text(m.castling) + seq![32u8] + ep_text(m.ep) + seq![32u8] + decimal(m.halfmove as nat) + seq![32u8]
        + decimal(m.fullmove as nat)
}

/// The back-rank piece kinds, file by file: rook, knight, bishop, queen,
/// king, bishop, knight, rook.
pub open spec fn back_rank_kind(file: int) -> PieceKind {
    if file == 0 || file == 7 {
        PieceKind::Rook
    } else if file == 1 || file == 6 {
        PieceKind::Knight
    } else if file == 2 || file == 5 {
        PieceKind::Bishop
    } else if file == 3 {
        PieceKind::Queen
    } else {
        PieceKind::King
    }
}

/// The piece on square `s` in the initial position.
pub open spec fn start_square(s: int) -> Option<Piece> {
    if s < 8 {
        Some(Piece { color: Color::White, kind: back_rank_kind(s) })
    } else if s < 16 {
        Some(Piece { color: Color::White, kind: PieceKind::Pawn })
    } else if s >= 56 {
        Some(Piece { color: Color::Black, kind: back_rank_kind(s - 56) })
    } else if s >= 48 {
        Some(Piece { color: Color::Black, kind: PieceKind::Pawn })
    } else {
        None
    }
}

/// The initial position of a game: White to move, all castling rights,
/// no en-passant target, clocks at 0 and 1.
pub open spec fn start_model() -> PositionModel {
    let m = PositionModel {
        board: Seq::new(64, |s: int| start_square(s)),
        side: Color::White,
        castling: 15,
        ep: None,
        halfmove: 0,
        fullmove: 1,
        key: 0,
        history: Seq::empty(),
    };
    PositionModel { key: full_key(m), history: seq![full_key(m)], ..m }
}

/// The position a parsed FEN record describes, with its key computed from
/// scratch and a history holding just that key.
pub open spec fn fen_model(f: FenFields) -> PositionModel {
    let m = PositionModel {
        board: f.board,
        side: f.side,
        castling: f.castling,
        ep: f.ep,
        halfmove: f.halfmove,
        fullmove: f.fullmove,
        key: 0,
        history: Seq::empty(),
    };
    PositionModel { key: full_key(m), history: seq![full_key(m)], ..m }
}

/// FEN text that parses and describes a plausible position.
pub open spec fn fen_accepted(s: Seq<char>) -> bool {
    fen_fields(s) matches Some(f) && validation(fen_model(f)) is None
}

/// The reason FEN text is refused: the first problem reading it, or else
/// the first plausibility rule the position it describes breaks.
pub open spec fn fen_message(s: Seq<char>) -> Seq<char> {
    match fen_syntax_error(s) {
        Some(m) => m,
        None => validation(fen_model(fen_fields(s).unwrap())).unwrap(),
    }
}

/// The board after placing the ranks above `r` (counted from the top) and
/// the first `f` files of rank `r`.
spec fn placed(ranks: Seq<Seq<char>>, r: int, f: int) -> Seq<Option<Piece>> {
    Seq::new(
        64,
        |s: int|
            if 7 - s / 8 < r || (7 - s / 8 == r && s % 8 < f) {
                rank_cells(ranks[7 - s / 8]).unwrap()[s % 8]
            } else {
                None
            },
    )
}

proof fn lemma_hash_empty(b: Seq<Option<Piece>>, n: nat)
    requires
        n <= b.len(),
        forall|s: int| 0 <= s < n ==> b[s] is None,
    ensures
        board_hash(b, n) == 0,
    decreases n,
{
    if n > 0 {
        lemma_hash_empty(b, (n - 1) as nat);
        lemma_xor_facts(0, 0, 0);
    }
}

proof fn lemma_count_absent(board: Seq<Option<Piece>>, p: Piece, n: nat)
    requires
        forall|s: int| 0 <= s < n ==> board[s] != Some(p),
    ensures
        count_on(board, p, n) == 0,
    decreases n,
{
    if n > 0 {
        lemma_count_absent(board, p, (n - 1) as nat);
    }
}

proof fn lemma_edge_mask(t: u64)
    by (bit_vector)
    requires
        t < 64,
    ensures
        bit_at(0xff00_0000_0000_00ffu64, t) == (t < 8 || t >= 56),
{
}

fn fen_error(msg: &str) -> (r: FenError)
    ensures
        r.0@ == msg@,
{
    FenError(String::from_str(msg))
}

fn problem(msg: &str) -> (r: Result<(), PositionError>)
    ensures
        r matches Err(e) && e.0@ == msg@,
{
    Err(PositionError(String::from_str(msg)))
}

/// The five fields after the placement: side to move, castling rights,
/// en-passant target, halfmove clock, fullmove number.
pub open spec fn state_ok(w: Seq<Seq<char>>) -> bool {
    &&& (w[1] == seq!['w'] || w[1] == seq!['b'])
    &&& castling_value(encode_utf8(w[2])) is Some
    &&& ep_value(encode_utf8(w[3])) is Some
    &&& u16_value(encode_utf8(w[4])) is Some
    &&& u16_value(encode_utf8(w[5])) matches Some(n) && n != 0
}

/// A text of exactly one character `c`.
fn is_char_text(t: &str, c: char) -> (r: bool)
    ensures
        r == (t@ == seq![c]),
{
    if t.unicode_len() != 1 {
        return false;
    }
    let first = t.get_char(0);
    proof {
        if t@ == seq![c] {
            assert(t@[0] == c);
        }
        if first == c {
            assert(t@ =~= seq![c]);
        }
    }
    first == c
}

fn parse_state(fields: &Vec<&str>) -> (r: Result<(Color, u8, Option<u8>, u16, u16), FenError>)
    requires
        fields@.len() == 6,
    ensures
        r is Ok <==> state_ok(views(fields@)),
        r matches Err(e) ==> state_error(views(fields@)) == Some(e.0@),
        r is Ok ==> state_error(views(fields@)) is None,
        r matches Ok((side, castling, ep, halfmove, fullmove)) ==> {
            let w = views(fields@);
            &&& side == (if w[1] == seq!['w'] { Color::White } else { Color::Black })
            &&& castling == castling_value(encode_utf8(w[2])).unwrap()
            &&& castling < 16
            &&& ep == ep_value(encode_utf8(w[3])).unwrap()
            &&& (ep matches Some(e) ==> e < 64)
            &&& halfmove == u16_value(encode_utf8(w[4])).unwrap()
            &&& fullmove == u16_value(encode_utf8(w[5])).unwrap()
        },
{
        let ghost w = views(fields@);
        proof {
            assert(w[1] == fields@[1]@ && w[2] == fields@[2]@ && w[3] == fields@[3]@ && w[4] == fields@[4]@ && w[5] == fields@[5]@);
        }
        let side_to_move = if is_char_text(fields[1], 'w') {
            Color::White
        } else if is_char_text(fields[1], 'b') {
            Color::Black
        } else {
            return Err(fen_error("active color must be `w` or `b`"));
        };
        let castling = match parse_castling(fields[2].as_bytes()) {
            Ok(c) => c,
            Err(e) => return Err(FenError(e)),
        };
        let ep_text = fields[3].as_bytes();
        let ep = if ep_text.len() == 1 && ep_text[0] == 45 {
            proof { assert(ep_text@ =~= seq![45u8]); }
            None
        } else {
            proof {
                assert(ep_text@ != seq![45u8]) by {
                    if ep_text@ == seq![45u8] {
                        assert(ep_text@.len() == 1);
                    }
                }
            }
            match parse_square(fields[3]) {
                Ok(e) => Some(e),
                Err(msg) => return Err(FenError(msg)),
            }
        };
        let halfmove = match parse_u16(fields[4].as_bytes()) {
            Some(h) => h,
            None => return Err(fen_error("halfmove clock must be a non-negative u16")),
        };
        let fullmove = match parse_u16(fields[5].as_bytes()) {
            Some(n) => n,
            None => return Err(fen_error("fullmove number must be a positive u16")),
        };
        if fullmove == 0 {
            return Err(fen_error("fullmove number must be at least 1"));
        }
        Ok((side_to_move, castling, ep, halfmove, fullmove))
}

/// What `fen_fields` says of text whose words and ranks have been split.
proof fn lemma_fen_fields(text: Seq<char>)
    ensures
        ({
            let w = words_of(text);
            let rs = split_on(w[0], '/');
            &&& fen_fields(text) is Some <==> (w.len() == 6 && rs.len() == 8 && (forall|i: int| 0 <= i < 8 ==> #[trigger] rank_ok(rs[i])) && state_ok(w))
            &&& fen_fields(text) matches Some(f) ==> f == (FenFields {
                board: board_of_ranks(rs),
                side: if w[1] == seq!['w'] { Color::White } else { Color::Black },
                castling: castling_value(encode_utf8(w[2])).unwrap(),
                ep: ep_value(encode_utf8(w[3])).unwrap(),
                halfmove: u16_value(encode_utf8(w[4])).unwrap(),
                fullmove: u16_value(encode_utf8(w[5])).unwrap(),
            })
        }),
{
    reveal(fen_fields);
}

proof fn lemma_rank_error_none(t: Seq<char>, n: int)
    ensures
        rank_error(t, n) is None <==> rank_ok(t),
{
    crate::board::fen::lemma_rank_error(t, n);
}

/// Plausibility does not look at the key or the history.
proof fn lemma_validation_ignores_key(a: PositionModel, b: PositionModel)
    requires
        a.board == b.board,
        a.side == b.side,
        a.castling == b.castling,
        a.ep == b.ep,
    ensures
        validation(a) == validation(b),
{
    reveal(validation);
}

/// A plausible position has a sound en-passant target.
proof fn lemma_valid_ep(m: PositionModel)
    requires
        validation(m) is None,
    ensures
        ep_ok(m),
{
    reveal(validation);
}

fn push_castling(out: &mut Vec<u8>, c: u8)
    requires
        all_ascii(old(out)@),
    ensures
        final(out)@ == old(out)@ + castling_text(c),
        all_ascii(final(out)@),
{
    let ghost start = out@;
    let before = out.len();
    if c & 1 != 0 {
        out.push(75);
    }
    if c & 2 != 0 {
        out.push(81);
    }
    if c & 4 != 0 {
        out.push(107);
    }
    if c & 8 != 0 {
        out.push(113);
    }
    let ghost t = (if c & 1 != 0 { seq![75u8] } else { Seq::empty() }) + (if c & 2 != 0 { seq![81u8] } else { Seq::empty() }) + (
    if c & 4 != 0 { seq![107u8] } else { Seq::empty() }) + (if c & 8 != 0 { seq![113u8] } else { Seq::empty() });
    proof {
        assert(out@ =~= start + t);
    }
    if out.len() == before {
        out.push(45);
        proof {
            assert(t.len() == 0);
            assert(out@ =~= start + seq![45u8]);
        }
    }
}

fn push_ep(out: &mut Vec<u8>, ep: Option<u8>)
    requires
        all_ascii(old(out)@),
    ensures
        final(out)@ == old(out)@ + ep_text(ep),
        all_ascii(final(out)@),
{
    match ep {
        Some(e) => {
            out.push(97 + file_of(e));
            out.push(49 + rank_of(e));
        },
        None => out.push(45),
    }
    proof {
        assert(out@ =~= old(out)@ + ep_text(ep));
    }
}

fn back_rank(file: u8) -> (k: PieceKind)
    ensures
        k == back_rank_kind(file as int),
{
    if file == 0 || file == 7 {
        PieceKind::Rook
    } else if file == 1 || file == 6 {
        PieceKind::Knight
    } else if file == 2 || file == 5 {
        PieceKind::Bishop
    } else if file == 3 {
        PieceKind::Queen
    } else {
        PieceKind::King
    }
}

/// The initial position.
impl Default for Position {
    fn default() -> (p: Self)
        ensures
            p.wf(),
            p@ == start_model(),
    {
        let mut p = Position::empty();
        proof {
            lemma_hash_empty(p@.board, 64);
            lemma_xor_facts(0, 0, 0);
        }
        let mut f: u8 = 0;
        while f < 8
            invariant
                f <= 8,
                p.consistent(),
                p@.board == Seq::new(
                    64,
                    |s: int| if s % 8 < f && (s < 16 || s >= 48) { start_square(s) } else { None },
                ),
                p@.key ^ board_hash(p@.board, 64) == 0,
                p@.history.len() == 0,
                p@.side == Color::White,
                p@.castling == 0,
                p@.ep is None,
                p@.halfmove == 0,
                p@.fullmove == 1,
            decreases 8 - f,
        {
            let kind = back_rank(f);
            p.add_piece(Piece { color: Color::White, kind }, f);
            p.add_piece(Piece { color: Color::White, kind: PieceKind::Pawn }, f + 8);
            p.add_piece(Piece { color: Color::Black, kind: PieceKind::Pawn }, f + 48);
            p.add_piece(Piece { color: Color::Black, kind }, f + 56);
            f = f + 1;
            proof {
                assert(p@.board =~= Seq::new(
                    64,
                    |s: int| if s % 8 < f && (s < 16 || s >= 48) { start_square(s) } else { None },
                ));
            }
        }
        proof {
            assert(p@.board =~= start_model().board);
            lemma_xor_cancel(p.key, board_hash(p@.board, 64));
        }
        p.castling = 15;
        proof {
            reveal(boards_agree);
        }
        p.xor_state_keys();
        let key = p.key;
        p.history.push(key);
        proof {
            assert(p@.history =~= seq![key]);
            assert(p@ == start_model());
            assert(p.consistent());
            assert(p.wf());
        }
        p
    }
}

impl Position {
    fn material_check(&self, color: Color) -> (r: Result<(), PositionError>)
        ensures
            self.consistent() ==> match material_problem(self@.board, color) {
                None => r is Ok,
                Some(msg) => r matches Err(e) && e.0@ == msg,
            },
    {
        if self.count(color, PieceKind::King) != 1 {
            return match color {
                Color::White => problem("White must have exactly one king"),
                Color::Black => problem("Black must have exactly one king"),
            };
        }
        if self.count(color, PieceKind::Pawn) > 8 {
            return match color {
                Color::White => problem("White has more than eight pawns"),
                Color::Black => problem("Black has more than eight pawns"),
            };
        }
        let pawns = self.pieces(color, PieceKind::Pawn);
        let edge: u64 = 0xff00_0000_0000_00ff;
        let hit = pawns & edge != 0;
        proof {
            if self.consistent() {
                lemma_and_nonzero(pawns, edge);
                assert forall|s: int| 0 <= s < 64 implies #[trigger] sq_in(edge, s) == (s < 8 || s >= 56) by {
                    lemma_edge_mask(s as u64);
                }
                if hit {
                    let t = choose|t: int| 0 <= t < 64 && #[trigger] sq_in(pawns, t) && sq_in(edge, t);
                    assert(self@.board[t] == Some(Piece { color, kind: PieceKind::Pawn }));
                }
                if pawn_on_edge(self@.board, color) {
                    let s = choose|s: int|
                        0 <= s < 64 && #[trigger] self@.board[s] == Some(Piece { color, kind: PieceKind::Pawn }) && (s < 8 || s >= 56);
                    assert(sq_in(pawns, s) && sq_in(edge, s));
                }
            }
        }
        if hit {
            return problem("pawns may not be on first or eighth rank");
        }
        Ok(())
    }

    /// Whether `sq` holds a `color` `kind` piece.
    fn holds(&self, sq: Square, color: Color, kind: PieceKind) -> (r: bool)
        requires
            sq < 64,
        ensures
            r == (self@.board[sq as int] == Some(Piece { color, kind })),
    {
        match self.piece_at(sq) {
            Some(p) => p.color == color && p.kind == kind,
            None => false,
        }
    }

    /// The king of `color`, when it has exactly one.
    fn sole_king(&self, color: Color) -> (r: Option<Square>)
        ensures
            r matches Some(s) ==> s < 64,
            self.consistent() && count_of(self@.board, Piece { color, kind: PieceKind::King }) == 1 ==> (r matches Some(s)
                && king_square_spec(self@.board, color) == Some(s as int)),
    {
        let k = self.king_square(color);
        proof {
            if self.consistent() && count_of(self@.board, Piece { color, kind: PieceKind::King }) == 1 {
            match k {
                Some(s) => lemma_king_square(self@.board, color, s as int),
                None => lemma_count_absent(self@.board, Piece { color, kind: PieceKind::King }, 64),
            }
            }
        }
        k
    }

    /// Rejects impossible position metadata instead of silently repairing
    /// it. It does not try to prove that every legal-looking study position
    /// is reachable from the initial game.
    pub fn validate(&self) -> (r: Result<(), PositionError>)
        ensures
            self.consistent() ==> match validation(self@) {
                None => r is Ok,
                Some(msg) => r matches Err(e) && e.0@ == msg,
            },
    {
        proof {
            reveal(validation);
        }
        let white = self.material_check(Color::White);
        if white.is_err() {
            return white;
        }
        let black = self.material_check(Color::Black);
        if black.is_err() {
            return black;
        }
        let wk = match self.sole_king(Color::White) {
            Some(s) => s,
            None => return problem("missing white king"),
        };
        let bk = match self.sole_king(Color::Black) {
            Some(s) => s,
            None => return problem("missing black king"),
        };
        let (fw, fb) = (file_of(wk), file_of(bk));
        let (rw, rb) = (rank_of(wk), rank_of(bk));
        let df = if fw >= fb { fw - fb } else { fb - fw };
        let dr = if rw >= rb { rw - rb } else { rb - rw };
        if df <= 1 && dr <= 1 {
            return problem("kings may not be adjacent");
        }
        let c = self.castling;
        let white_home = self.holds(4, Color::White, PieceKind::King);
        let black_home = self.holds(60, Color::Black, PieceKind::King);
        if (c & 1 != 0 && !(white_home && self.holds(7, Color::White, PieceKind::Rook)))
            || (c & 2 != 0 && !(white_home && self.holds(0, Color::White, PieceKind::Rook)))
            || (c & 4 != 0 && !(black_home && self.holds(63, Color::Black, PieceKind::Rook)))
            || (c & 8 != 0 && !(black_home && self.holds(56, Color::Black, PieceKind::Rook))) {
            return problem("castling right is inconsistent with king/rook home squares");
        }
        if let Some(ep) = self.ep {
            let rank = rank_of(ep);
            let valid_rank = match self.side_to_move {
                Color::White => rank == 5,
                Color::Black => rank == 2,
            };
            if !valid_rank {
                return problem("en-passant target rank is inconsistent with active color");
            }
            if self.piece_at(ep).is_some() {
                return problem("en-passant target square must be empty");
            }
            let behind = match self.side_to_move {
                Color::White => ep - 8,
                Color::Black => ep + 8,
            };
            if !self.holds(behind, self.side_to_move.opposite(), PieceKind::Pawn) {
                return problem("en-passant target lacks the pawn that made the double push");
            }
        }
        let mover_king = match self.side_to_move {
            Color::White => bk,
            Color::Black => wk,
        };
        if is_square_attacked(self, mover_king, self.side_to_move) {
            return problem("side that just moved is in check");
        }
        Ok(())
    }


    /// Places the pieces of eight rank texts, the first being rank 8, on an
    /// empty board, or reports the first rank that does not describe eight
    /// squares.
    fn place_ranks(ranks: &Vec<&str>) -> (r: Result<Position, String>)
        requires
            ranks@.len() == 8,
        ensures
            r is Ok <==> forall|i: int| 0 <= i < 8 ==> #[trigger] rank_ok(views(ranks@)[i]),
            r matches Err(e) ==> placement_error(views(ranks@), 0) == Some(e@),
            r is Ok ==> placement_error(views(ranks@), 0) is None,
            r matches Ok(p) ==> {
                &&& p.consistent()
                &&& p@.board == board_of_ranks(views(ranks@))
                &&& p@.key ^ board_hash(p@.board, 64) == 0
                &&& p@.history.len() == 0
            },
    {
        let ghost rs = views(ranks@);
        let mut position = Position::empty();
        proof {
            lemma_hash_empty(position@.board, 64);
            lemma_xor_facts(0, 0, 0);
            assert(position@.board =~= placed(rs, 0, 0));
        }
        let mut r: usize = 0;
        while r < 8
            invariant
                r <= 8,
                ranks@.len() == 8,
                rs == views(ranks@),
                forall|i: int| 0 <= i < r ==> #[trigger] rank_ok(rs[i]),
                placement_error(rs, 0) == placement_error(rs, r as int),
                position.consistent(),
                position@.board == placed(rs, r as int, 0),
                position@.key ^ board_hash(position@.board, 64) == 0,
                position@.history.len() == 0,
            decreases 8 - r,
        {
            let number: u8 = 8 - r as u8;
            let cells = match parse_rank(ranks[r], number) {
                Ok(c) => c,
                Err(e) => {
                    proof {
                        assert(rs[r as int] == ranks@[r as int]@);
                        lemma_rank_error_none(rs[r as int], number as int);
                        if forall|i: int| 0 <= i < 8 ==> #[trigger] rank_ok(rs[i]) {
                            assert(rank_ok(rs[r as int]));
                        }
                    }
                    return Err(e);
                },
            };
            proof {
                assert(rs[r as int] == ranks@[r as int]@);
                lemma_rank_error_none(rs[r as int], number as int);
            }
            let rank: u8 = 7 - r as u8;
            let mut f: usize = 0;
            while f < 8
                invariant
                    r < 8,
                    f <= 8,
                    rank == 7 - r,
                    cells@ == rank_cells(rs[r as int]).unwrap(),
                    cells@.len() == 8,
                    position.consistent(),
                    position@.board == placed(rs, r as int, f as int),
                    position@.key ^ board_hash(position@.board, 64) == 0,
                    position@.history.len() == 0,
                decreases 8 - f,
            {
                let sq: u8 = rank * 8 + f as u8;
                match cells[f] {
                    Some(p) => {
                        proof {
                            assert(position@.board[sq as int] is None);
                        }
                        position.add_piece(p, sq);
                    },
                    None => {},
                }
                f = f + 1;
                proof {
                    assert(position@.board =~= placed(rs, r as int, f as int));
                }
            }
            r = r + 1;
            proof {
                assert(placed(rs, (r - 1) as int, 8) =~= placed(rs, r as int, 0));
            }
        }
        proof {
            assert(placed(rs, 8, 0) =~= board_of_ranks(rs));
        }
        Ok(position)
    }

    /// Parses FEN text into a position, and checks it with `validate`; an
    /// error names the first problem met.
    pub fn from_fen(fen: &str) -> (r: Result<Position, FenError>)
        ensures
            r is Ok <==> fen_accepted(fen@),
            r matches Ok(p) ==> p.wf() && p@ == fen_model(fen_fields(fen@).unwrap()),
            r matches Err(e) ==> e.0@ == fen_message(fen@),
    {
        let ghost text = fen@;
        let fields = split_words(fen);
        let ghost w = words_of(text);
        proof {
            lemma_fen_fields(text);
            lemma_fen_syntax(text);
            reveal(fen_fields);
        }
        if fields.len() != 6 {
            return Err(fen_error("expected exactly six fields"));
        }
        let ranks = split_str(fields[0], '/');
        let ghost rs = split_on(w[0], '/');
        proof {
            assert(views(fields@)[0] == fields@[0]@);
            assert(views(ranks@) == rs);
        }
        if ranks.len() != 8 {
            return Err(fen_error("piece placement must contain eight ranks"));
        }
        let mut position = match Position::place_ranks(&ranks) {
            Ok(p) => p,
            Err(e) => return Err(FenError(e)),
        };
        let (side_to_move, castling, ep, halfmove, fullmove) = match parse_state(&fields) {
            Ok(state) => state,
            Err(e) => return Err(e),
        };
        position.side_to_move = side_to_move;
        position.castling = castling;
        position.ep = ep;
        position.halfmove = halfmove;
        position.fullmove = fullmove;
        let ghost ff = fen_fields(text).unwrap();
        proof {
            lemma_fen_fields(text);
            reveal(boards_agree);
            assert(ff.board == position@.board);
            assert(position.consistent());
        }
        match position.validate() {
            Ok(()) => {},
            Err(e) => {
                proof {
                    lemma_validation_ignores_key(position@, fen_model(ff));
                }
                return Err(FenError(e.0));
            },
        }
        proof {
            lemma_validation_ignores_key(position@, fen_model(ff));
            lemma_valid_ep(position@);
            lemma_xor_cancel(position.key, board_hash(position@.board, 64));
        }
        position.xor_state_keys();
        let key = position.key;
        position.history.push(key);
        proof {
            assert(position@.key == full_key(position@));
            assert(position@.history =~= seq![key]);
            assert(position@ == fen_model(ff));
            assert(position.consistent());
            assert(ep_ok(position@));
            assert(position.wf());
        }
        Ok(position)
    }

    /// Appends the FEN text of one rank.
    fn push_rank(&self, out: &mut Vec<u8>, rank: u8)
        requires
            rank < 8,
            self@.board.len() == 64,
            all_ascii(old(out)@),
        ensures
            final(out)@ == old(out)@ + rank_run(self@.board, rank as int, 0, 0),
            all_ascii(final(out)@),
    {
        let mut empty: u8 = 0;
        let mut file: u8 = 0;
        while file < 8
            invariant
                rank < 8,
                file <= 8,
                empty <= file,
                self@.board.len() == 64,
                out@ + rank_run(self@.board, rank as int, file as int, empty as nat) == old(out)@ + rank_run(
                    self@.board,
                    rank as int,
                    0,
                    0,
                ),
                all_ascii(out@),
            decreases 8 - file,
        {
            let ghost before = out@;
            match self.piece_at(rank * 8 + file) {
                Some(piece) => {
                    if empty != 0 {
                        out.push(48 + empty);
                    }
                    let c = piece.fen_char();
                    out.push(c as u8);
                    proof {
                        let run = rank_run(self@.board, rank as int, file + 1, 0);
                        let d = if empty > 0 { seq![(48 + empty) as u8] } else { Seq::<u8>::empty() };
                        assert(out@ =~= before + d + seq![piece.fen_symbol() as u8]);
                        assert(out@ + run =~= before + (d + seq![piece.fen_symbol() as u8] + run));
                    }
                    empty = 0;
                },
                None => {
                    empty = empty + 1;
                },
            }
            file = file + 1;
        }
        if empty != 0 {
            out.push(48 + empty);
        }
        proof {
            assert(out@ =~= old(out)@ + rank_run(self@.board, rank as int, 0, 0));
        }
    }

    /// The position as FEN text.
    pub fn to_fen(&self) -> (s: String)
        ensures
            self@.board.len() == 64 ==> s@ == ascii_chars(fen_bytes(self@)),
    {
        let mut out: Vec<u8> = Vec::new();
        let mut i: u8 = 0;
        while i < 8
            invariant
                i <= 8,
                self@.board.len() == 64,
                out@ == ranks_text(self@.board, i as nat),
                all_ascii(out@),
            decreases 8 - i,
        {
            if i != 0 {
                out.push(47);
            }
            self.push_rank(&mut out, 7 - i);
            i = i + 1;
        }
        let ghost placement = out@;
        out.push(32);
        match self.side_to_move {
            Color::White => out.push(119),
            Color::Black => out.push(98),
        }
        out.push(32);
        let ghost head = out@;
        push_castling(&mut out, self.castling);
        out.push(32);
        push_ep(&mut out, self.ep);
        out.push(32);
        let ghost mid = out@;
        push_decimal(&mut out, self.halfmove as u64);
        out.push(32);
        push_decimal(&mut out, self.fullmove as u64);
        proof {
            lemma_decimal_ascii(self.halfmove as nat);
            lemma_decimal_ascii(self.fullmove as nat);
            assert(head =~= placement + seq![32u8] + (if self@.side == Color::White { seq![119u8] } else { seq![98u8] }) + seq![32u8]);
            assert(mid =~= head + castling_text(self@.castling) + seq![32u8] + ep_text(self@.ep) + seq![32u8]);
            assert(out@ =~= mid + decimal(self@.halfmove as nat) + seq![32u8] + decimal(self@.fullmove as nat));
            assert(out@ =~= fen_bytes(self@));
            assert forall|k: int| 0 <= k < out@.len() implies #[trigger] out@[k] < 128 by {
                if k < mid.len() {
                    assert(out@[k] == mid[k]);
                }
            }
        }
        string_from_ascii(out)
    }
}

} // verus!
