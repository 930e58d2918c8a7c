//! The position: bitboards, mailbox, side to move, castling rights,
//! en-passant target, clocks, Zobrist key, and key history.

mod round_trip;
mod setup;

pub use round_trip::lemma_fen_round_trip;
pub use setup::{fen_accepted, fen_bytes, fen_message, fen_model, start_model, validation};

use vstd::prelude::*;
use vstd::string::StringExecFns;

use crate::bitboard::{bit, count_bits, count_ones, group_bits, lemma_bits_ext, lemma_trailing_zeros, lemma_xor_cancel, lemma_xor_facts, sq_in};
use crate::board::types::{file_of, rank_spec, light_square, square_color, Color, Piece, PieceKind, Square, CASTLE_BK, CASTLE_BQ, CASTLE_WK, CASTLE_WQ};
use crate::board::zobrist::{board_hash, lemma_board_hash_update, lemma_castling_in_key, piece_key, square_key, state_key, zobrist_key};
use crate::moves::{Move, MoveKind};
use crate::movegen::{fits, generate_legal, in_check_spec, legal_move, MoveList};

verus! {

#[derive(Debug, Clone, PartialEq, Eq)]
pub struct FenError(pub String);

#[derive(Debug, Clone, PartialEq, Eq)]
pub struct PositionError(pub String);

impl FenError {
    /// The error as text: `invalid FEN: ` and the reason.
    pub fn message(&self) -> (r: String)
        ensures
            r@ == "invalid FEN: "@ + self.0@,
    {
        let mut s = String::from_str("invalid FEN: ");
        s.append(self.0.as_str());
        s
    }
}

impl PositionError {
    /// The error as text: `invalid position: ` and the reason.
    pub fn message(&self) -> (r: String)
        ensures
            r@ == "invalid position: "@ + self.0@,
    {
        let mut s = String::from_str("invalid position: ");
        s.append(self.0.as_str());
        s
    }
}

/// The abstract state of a position: what is on each square and the game
/// metadata. The bitboards of a well-formed position are determined by
/// `board`.
pub struct PositionModel {
    pub board: Seq<Option<Piece>>,
    pub side: Color,
    pub castling: u8,
    pub ep: Option<u8>,
    pub halfmove: u16,
    pub fullmove: u16,
    pub key: u64,
    pub history: Seq<u64>,
}

/// The Zobrist key of a position computed from scratch.
pub open spec fn full_key(m: PositionModel) -> u64 {
    board_hash(m.board, 64) ^ state_key(m.castling, m.ep, m.side)
}

/// State needed to restore a move. It intentionally stores no heap-owned board
/// copy: search mutates one position and reverses moves, avoiding allocations
/// at every node while keeping restoration explicit and auditable.
#[derive(Clone, Copy, Debug)]
pub struct Undo {
    captured: Option<Piece>,
    captured_square: Option<Square>,
    castling: u8,
    ep: Option<Square>,
    halfmove: u16,
    fullmove: u16,
    key: u64,
    history_len: usize,
}

#[derive(Clone)]
pub struct Position {
    pieces: [u64; 12],
    occupancy: [u64; 2],
    all: u64,
    mailbox: [Option<Piece>; 64],
    side_to_move: Color,
    castling: u8,
    ep: Option<Square>,
    halfmove: u16,
    fullmove: u16,
    key: u64,
    /// Includes the current position. The game/`position ... moves` caller
    /// retains this vector so repetition is judged over the entire known game.
    history: Vec<u64>,
}

impl View for Position {
    type V = PositionModel;

    closed spec fn view(&self) -> PositionModel {
        PositionModel {
            board: self.mailbox@,
            side: self.side_to_move,
            castling: self.castling,
            ep: self.ep,
            halfmove: self.halfmove,
            fullmove: self.fullmove,
            key: self.key,
            history: self.history@,
        }
    }
}



/// The bitboard of occupied squares of a board.
pub open spec fn occupancy_of(board: Seq<Option<Piece>>) -> u64 {
    choose|b: u64| #[trigger] is_occupancy(b, board)
}

/// `b` holds exactly the occupied squares of `board`.
pub open spec fn is_occupancy(b: u64, board: Seq<Option<Piece>>) -> bool {
    forall|x: int| 0 <= x < 64 ==> #[trigger] sq_in(b, x) == (board[x] is Some)
}

/// How many squares among `0..n` hold `p`.
pub open spec fn count_on(board: Seq<Option<Piece>>, p: Piece, n: nat) -> nat
    decreases n,
{
    if n == 0 {
        0
    } else {
        count_on(board, p, (n - 1) as nat) + if board[n - 1] == Some(p) { 1nat } else { 0nat }
    }
}

/// How many `p` pieces stand on the board.
pub open spec fn count_of(board: Seq<Option<Piece>>, p: Piece) -> nat {
    count_on(board, p, 64)
}

/// How many times `key` occurs in a history.
pub open spec fn occurrences(history: Seq<u64>, key: u64) -> nat
    decreases history.len(),
{
    if history.len() == 0 {
        0
    } else {
        occurrences(history.drop_last(), key) + if history.last() == key { 1nat } else { 0nat }
    }
}

/// The material-only dead positions: no pawns, rooks, or queens, and either
/// at most one minor piece, or one bishop each on squares of the same color.
pub open spec fn insufficient_material(board: Seq<Option<Piece>>) -> bool {
    let w = |k: PieceKind| count_of(board, Piece { color: Color::White, kind: k });
    let b = |k: PieceKind| count_of(board, Piece { color: Color::Black, kind: k });
    if w(PieceKind::Pawn) + b(PieceKind::Pawn) + w(PieceKind::Rook) + b(PieceKind::Rook) + w(PieceKind::Queen) + b(PieceKind::Queen) != 0 {
        false
    } else if w(PieceKind::Knight) + b(PieceKind::Knight) + w(PieceKind::Bishop) + b(PieceKind::Bishop) <= 1 {
        true
    } else if w(PieceKind::Knight) == 0 && b(PieceKind::Knight) == 0 && w(PieceKind::Bishop) == 1 && b(PieceKind::Bishop) == 1 {
        forall|s1: int, s2: int|
            0 <= s1 < 64 && 0 <= s2 < 64 && board[s1] == Some(Piece { color: Color::White, kind: PieceKind::Bishop }) && board[s2] == Some(
                Piece { color: Color::Black, kind: PieceKind::Bishop },
            ) ==> light_square(s1) == light_square(s2)
    } else {
        false
    }
}

/// A piece standing on a square is counted.
proof fn lemma_count_at_least_one(board: Seq<Option<Piece>>, p: Piece, s: int, n: nat)
    requires
        0 <= s < n,
        board[s] == Some(p),
    ensures
        count_on(board, p, n) >= 1,
    decreases n,
{
    if s < n - 1 {
        lemma_count_at_least_one(board, p, s, (n - 1) as nat);
    }
}

/// Two pieces of one kind and colour on two squares are both counted.
proof fn lemma_count_at_least_two(board: Seq<Option<Piece>>, p: Piece, s1: int, s2: int, n: nat)
    requires
        0 <= s1 < n,
        0 <= s2 < n,
        s1 != s2,
        board[s1] == Some(p),
        board[s2] == Some(p),
    ensures
        count_on(board, p, n) >= 2,
    decreases n,
{
    if s1 == n - 1 {
        lemma_count_at_least_one(board, p, s2, (n - 1) as nat);
    } else if s2 == n - 1 {
        lemma_count_at_least_one(board, p, s1, (n - 1) as nat);
    } else {
        lemma_count_at_least_two(board, p, s1, s2, (n - 1) as nat);
    }
}

/// A piece found on no square is counted zero times.
proof fn lemma_count_none(board: Seq<Option<Piece>>, p: Piece, n: nat)
    requires
        forall|s: int| 0 <= s < n ==> #[trigger] board[s] != Some(p),
    ensures
        count_on(board, p, n) == 0,
    decreases n,
{
    if n > 0 {
        lemma_count_none(board, p, (n - 1) as nat);
    }
}

/// Two minor pieces leave mating material: a board holding a knight or
/// bishop on each of two squares is never a dead position, unless they are
/// the two sides' only pieces besides the kings, one bishop each, on squares
/// of the same colour.
pub proof fn lemma_two_minors_not_dead(board: Seq<Option<Piece>>, s1: int, s2: int)
    requires
        board.len() == 64,
        0 <= s1 < 64,
        0 <= s2 < 64,
        s1 != s2,
        board[s1] matches Some(p) && (p.kind == PieceKind::Knight || p.kind == PieceKind::Bishop),
        board[s2] matches Some(p) && (p.kind == PieceKind::Knight || p.kind == PieceKind::Bishop),
        !(board[s1].unwrap().kind == PieceKind::Bishop && board[s2].unwrap().kind == PieceKind::Bishop && board[s1].unwrap().color
            != board[s2].unwrap().color && light_square(s1) == light_square(s2)),
    ensures
        !insufficient_material(board),
{
    let p1 = board[s1].unwrap();
    let p2 = board[s2].unwrap();
    if p1 == p2 {
        lemma_count_at_least_two(board, p1, s1, s2, 64);
    } else {
        lemma_count_at_least_one(board, p1, s1, 64);
        lemma_count_at_least_one(board, p2, s2, 64);
    }
    if p1.kind == PieceKind::Bishop && p2.kind == PieceKind::Bishop && p1.color != p2.color {
        assert(light_square(s1) != light_square(s2));
        if p1.color == Color::White {
            assert(!(board[s1] == Some(Piece { color: Color::White, kind: PieceKind::Bishop }) && board[s2] == Some(
                Piece { color: Color::Black, kind: PieceKind::Bishop },
            ) ==> light_square(s1) == light_square(s2)));
        } else {
            assert(!(board[s2] == Some(Piece { color: Color::White, kind: PieceKind::Bishop }) && board[s1] == Some(
                Piece { color: Color::Black, kind: PieceKind::Bishop },
            ) ==> light_square(s2) == light_square(s1)));
        }
    }
}

/// A pawn, rook or queen on the board leaves mating material.
pub proof fn lemma_heavy_not_dead(board: Seq<Option<Piece>>, s: int)
    requires
        board.len() == 64,
        0 <= s < 64,
        board[s] matches Some(p) && (p.kind == PieceKind::Pawn || p.kind == PieceKind::Rook || p.kind == PieceKind::Queen),
    ensures
        !insufficient_material(board),
{
    lemma_count_at_least_one(board, board[s].unwrap(), s, 64);
}

/// A piece found on one square only is counted once.
proof fn lemma_count_exactly_one(board: Seq<Option<Piece>>, p: Piece, s: int, n: nat)
    requires
        0 <= s < n,
        board[s] == Some(p),
        forall|t: int| 0 <= t < n && t != s ==> #[trigger] board[t] != Some(p),
    ensures
        count_on(board, p, n) == 1,
    decreases n,
{
    if s < n - 1 {
        lemma_count_exactly_one(board, p, s, (n - 1) as nat);
    } else {
        lemma_count_none(board, p, (n - 1) as nat);
    }
}

/// Kings with one knight or bishop besides are a dead position.
pub proof fn lemma_lone_minor_dead(board: Seq<Option<Piece>>, s: int)
    requires
        board.len() == 64,
        0 <= s < 64,
        board[s] matches Some(p) && (p.kind == PieceKind::Knight || p.kind == PieceKind::Bishop),
        forall|t: int| 0 <= t < 64 && t != s ==> (#[trigger] board[t] matches Some(p) ==> p.kind == PieceKind::King),
    ensures
        insufficient_material(board),
{
    let q = board[s].unwrap();
    lemma_count_exactly_one(board, q, s, 64);
    assert forall|c: Color, k: PieceKind| k != PieceKind::King && Piece { color: c, kind: k } != q implies #[trigger] count_of(
        board,
        Piece { color: c, kind: k },
    ) == 0 by {
        assert forall|t: int| 0 <= t < 64 implies #[trigger] board[t] != Some(Piece { color: c, kind: k }) by {
            if t != s && board[t] == Some(Piece { color: c, kind: k }) {
                assert(board[t] matches Some(p) ==> p.kind == PieceKind::King);
            }
        }
        lemma_count_none(board, Piece { color: c, kind: k }, 64);
    }
}

/// Kings with one bishop each on squares of the same colour are a dead
/// position.
pub proof fn lemma_same_colour_bishops_dead(board: Seq<Option<Piece>>, s1: int, s2: int)
    requires
        board.len() == 64,
        0 <= s1 < 64,
        0 <= s2 < 64,
        board[s1] == Some(Piece { color: Color::White, kind: PieceKind::Bishop }),
        board[s2] == Some(Piece { color: Color::Black, kind: PieceKind::Bishop }),
        light_square(s1) == light_square(s2),
        forall|t: int| 0 <= t < 64 && t != s1 && t != s2 ==> (#[trigger] board[t] matches Some(p) ==> p.kind == PieceKind::King),
    ensures
        insufficient_material(board),
{
    let wb = Piece { color: Color::White, kind: PieceKind::Bishop };
    let bb = Piece { color: Color::Black, kind: PieceKind::Bishop };
    lemma_count_exactly_one(board, wb, s1, 64);
    lemma_count_exactly_one(board, bb, s2, 64);
    assert forall|c: Color, k: PieceKind| k != PieceKind::King && k != PieceKind::Bishop implies #[trigger] count_of(
        board,
        Piece { color: c, kind: k },
    ) == 0 by {
        assert forall|t: int| 0 <= t < 64 implies #[trigger] board[t] != Some(Piece { color: c, kind: k }) by {
            if t != s1 && t != s2 && board[t] == Some(Piece { color: c, kind: k }) {
                assert(board[t] matches Some(p) ==> p.kind == PieceKind::King);
            }
        }
        lemma_count_none(board, Piece { color: c, kind: k }, 64);
    }
    assert forall|t1: int, t2: int|
        0 <= t1 < 64 && 0 <= t2 < 64 && board[t1] == Some(wb) && board[t2] == Some(bb) implies light_square(t1) == light_square(t2) by {
        if t1 != s1 {
            assert(board[t1] matches Some(p) ==> p.kind == PieceKind::King);
        }
        if t2 != s2 {
            assert(board[t2] matches Some(p) ==> p.kind == PieceKind::King);
        }
    }
}

/// Bare kings are a dead position.
pub proof fn lemma_bare_kings_dead(board: Seq<Option<Piece>>)
    requires
        board.len() == 64,
        forall|s: int| 0 <= s < 64 ==> (#[trigger] board[s] matches Some(p) ==> p.kind == PieceKind::King),
    ensures
        insufficient_material(board),
{
    assert forall|c: Color, k: PieceKind| k != PieceKind::King implies #[trigger] count_of(board, Piece { color: c, kind: k }) == 0 by {
        assert forall|s: int| 0 <= s < 64 implies #[trigger] board[s] != Some(Piece { color: c, kind: k }) by {
            if board[s] == Some(Piece { color: c, kind: k }) {
                assert(board[s] matches Some(p) ==> p.kind == PieceKind::King);
            }
        }
        lemma_count_none(board, Piece { color: c, kind: k }, 64);
    }
}

proof fn lemma_count_bits_on(b: u64, board: Seq<Option<Piece>>, p: Piece, n: nat)
    requires
        n <= 64,
        forall|s: int| 0 <= s < 64 ==> #[trigger] sq_in(b, s) == (board[s] == Some(p)),
    ensures
        count_bits(b, n) == count_on(board, p, n),
    decreases n,
{
    if n > 0 {
        lemma_count_bits_on(b, board, p, (n - 1) as nat);
        assert(sq_in(b, n - 1) == (board[n - 1] == Some(p)));
    }
}

proof fn lemma_count_bits_zero(b: u64, n: nat)
    requires
        n <= 64,
        forall|s: int| 0 <= s < 64 ==> !#[trigger] sq_in(b, s),
    ensures
        count_bits(b, n) == 0,
    decreases n,
{
    if n > 0 {
        lemma_count_bits_zero(b, (n - 1) as nat);
        assert(!sq_in(b, n - 1));
    }
}

/// A piece that occurs exactly once occurs on one square only.
proof fn lemma_count_one_unique(board: Seq<Option<Piece>>, p: Piece, n: nat, a: int, c: int)
    requires
        count_on(board, p, n) <= 1,
        0 <= a < n,
        0 <= c < n,
        board[a] == Some(p),
        board[c] == Some(p),
    ensures
        a == c,
    decreases n,
{
    if n > 0 {
        if a < n - 1 && c < n - 1 {
            lemma_count_one_unique(board, p, (n - 1) as nat, a, c);
        } else if a == n - 1 && c == n - 1 {
        } else {
            let other = if a == n - 1 { c } else { a };
            lemma_count_positive(board, p, (n - 1) as nat, other);
        }
    }
}

proof fn lemma_count_positive(board: Seq<Option<Piece>>, p: Piece, n: nat, a: int)
    requires
        0 <= a < n,
        board[a] == Some(p),
    ensures
        count_on(board, p, n) >= 1,
    decreases n,
{
    if a < n - 1 {
        lemma_count_positive(board, p, (n - 1) as nat, a);
    }
}

/// An en-passant target is an empty square just behind a pawn that has
/// double-pushed: rank 6 (index 5) with White to move, rank 3 (index 2)
/// with Black to move.
pub open spec fn ep_ok(m: PositionModel) -> bool {
    m.ep matches Some(e) ==> 0 <= e < 64 && m.board[e as int] is None && rank_spec(e as int) == (if m.side == Color::White { 5int } else { 2int })
}

/// Metadata every well-formed position has, stated on the abstract state.
pub open spec fn model_ok(m: PositionModel) -> bool {
    &&& ep_ok(m)
    &&& m.board.len() == 64
    &&& m.castling < 16
    &&& (m.ep matches Some(e) ==> e < 64)
    &&& m.key == full_key(m)
    &&& m.history.len() >= 1
    &&& m.history.last() == m.key
}

/// The square of the pawn captured en passant by a pawn of `color`
/// arriving on `to`.
pub open spec fn ep_victim_square(color: Color, to: int) -> int {
    if color == Color::White { to - 8 } else { to + 8 }
}

/// The square a pawn of `color` skips over with a double push from `from`.
pub open spec fn skipped_square(color: Color, from: int) -> int {
    if color == Color::White { from + 8 } else { from - 8 }
}

pub open spec fn king_home(color: Color) -> int {
    if color == Color::White { 4 } else { 60 }
}

pub open spec fn is_castle_kind(k: MoveKind) -> bool {
    k == MoveKind::CastleKing || k == MoveKind::CastleQueen
}

/// Rook origin and destination of a castle of `color`.
pub open spec fn castle_rook_from(color: Color, k: MoveKind) -> int {
    if k == MoveKind::CastleKing {
        if color == Color::White { 7 } else { 63 }
    } else {
        if color == Color::White { 0 } else { 56 }
    }
}

pub open spec fn castle_rook_to(color: Color, k: MoveKind) -> int {
    if k == MoveKind::CastleKing {
        if color == Color::White { 5 } else { 61 }
    } else {
        if color == Color::White { 3 } else { 59 }
    }
}

pub open spec fn moving_piece(m: PositionModel, mv: Move) -> Piece {
    m.board[mv.from_sq() as int].unwrap()
}

pub open spec fn capture_square(m: PositionModel, mv: Move) -> int {
    if mv.kind_spec() == MoveKind::EnPassant {
        ep_victim_square(moving_piece(m, mv).color, mv.to_sq() as int)
    } else {
        mv.to_sq() as int
    }
}

pub open spec fn captured_piece(m: PositionModel, mv: Move) -> Option<Piece> {
    m.board[capture_square(m, mv)]
}

pub open spec fn placed_piece(m: PositionModel, mv: Move) -> Piece {
    match mv.promotion_spec() {
        Some(k) => Piece { color: moving_piece(m, mv).color, kind: k },
        None => moving_piece(m, mv),
    }
}

/// The geometric preconditions under which a move can be made and unmade:
/// the origin holds a piece of the side to move, promotions are made by
/// pawns, an en-passant destination is empty with the victim square on the
/// board, a double push stays on the board, and a castle moves the king two
/// squares from its home square with the rook present and its destination
/// empty.
pub open spec fn applicable(m: PositionModel, mv: Move) -> bool {
    let from = mv.from_sq() as int;
    let to = mv.to_sq() as int;
    let k = mv.kind_spec();
    &&& m.board.len() == 64
    &&& from != to
    &&& m.board[from] matches Some(p) && p.color == m.side
    &&& (mv.promotion_spec() is Some ==> moving_piece(m, mv).kind == PieceKind::Pawn)
    &&& (k == MoveKind::EnPassant ==> {
        &&& m.board[to] is None
        &&& 0 <= ep_victim_square(m.side, to) < 64
        &&& ep_victim_square(m.side, to) != from
    })
    &&& (k == MoveKind::DoublePawn ==> {
        &&& 0 <= skipped_square(m.side, from) < 64
        &&& m.board[skipped_square(m.side, from)] is None
        &&& rank_spec(from) == (if m.side == Color::White { 1int } else { 6int })
        &&& to == skipped_square(m.side, skipped_square(m.side, from))
    })
    &&& (is_castle_kind(k) ==> {
        &&& from == king_home(m.side)
        &&& to == (if k == MoveKind::CastleKing { from + 2 } else { from - 2 })
        &&& m.board[to] is None
        &&& m.board[castle_rook_from(m.side, k)] is Some
        &&& m.board[castle_rook_to(m.side, k)] is None
    })
}

/// The board after a move.
pub open spec fn board_after(m: PositionModel, mv: Move) -> Seq<Option<Piece>> {
    let from = mv.from_sq() as int;
    let to = mv.to_sq() as int;
    let k = mv.kind_spec();
    let b1 = m.board.update(from, None).update(capture_square(m, mv), None).update(to, Some(placed_piece(m, mv)));
    if is_castle_kind(k) {
        let rf = castle_rook_from(m.side, k);
        let rt = castle_rook_to(m.side, k);
        b1.update(rf, None).update(rt, m.board[rf])
    } else {
        b1
    }
}

/// Castling rights with the right tied to a rook home square removed.
pub open spec fn clear_rook_spec(c: u8, sq: int) -> u8 {
    if sq == 0 {
        c & !CASTLE_WQ
    } else if sq == 7 {
        c & !CASTLE_WK
    } else if sq == 56 {
        c & !CASTLE_BQ
    } else if sq == 63 {
        c & !CASTLE_BK
    } else {
        c
    }
}

/// A king move removes both of its side's rights; a rook leaving, or a rook
/// captured on, a rook home square removes that square's right.
pub open spec fn castling_after(m: PositionModel, mv: Move) -> u8 {
    let moving = moving_piece(m, mv);
    let c1 = if moving.kind == PieceKind::King {
        if moving.color == Color::White { m.castling & !(CASTLE_WK | CASTLE_WQ) } else { m.castling & !(CASTLE_BK | CASTLE_BQ) }
    } else {
        m.castling
    };
    let c2 = if moving.kind == PieceKind::Rook { clear_rook_spec(c1, mv.from_sq() as int) } else { c1 };
    match captured_piece(m, mv) {
        Some(cp) => if cp.kind == PieceKind::Rook { clear_rook_spec(c2, mv.to_sq() as int) } else { c2 },
        None => c2,
    }
}

pub open spec fn ep_after(m: PositionModel, mv: Move) -> Option<u8> {
    if mv.kind_spec() == MoveKind::DoublePawn {
        Some(skipped_square(moving_piece(m, mv).color, mv.from_sq() as int) as u8)
    } else {
        None
    }
}

pub open spec fn saturating_inc(x: u16) -> u16 {
    if x == u16::MAX { x } else { (x + 1) as u16 }
}

pub open spec fn halfmove_after(m: PositionModel, mv: Move) -> u16 {
    if moving_piece(m, mv).kind == PieceKind::Pawn || captured_piece(m, mv) is Some { 0 } else { saturating_inc(m.halfmove) }
}

pub open spec fn fullmove_after(m: PositionModel, mv: Move) -> u16 {
    if moving_piece(m, mv).color == Color::Black { saturating_inc(m.fullmove) } else { m.fullmove }
}

/// The halfmove clock counts moves since the last capture or pawn move: a
/// move onto an occupied square, and any pawn move (en passant among them),
/// sets it to zero; any other move adds one, stopping at the maximum.
pub proof fn lemma_halfmove_clock(m: PositionModel, mv: Move)
    requires
        m.board.len() == 64,
        m.board[mv.from_sq() as int] is Some,
    ensures
        m.board[mv.to_sq() as int] is Some && mv.kind_spec() != MoveKind::EnPassant ==> after_move(m, mv).halfmove == 0,
        m.board[mv.from_sq() as int].unwrap().kind == PieceKind::Pawn ==> after_move(m, mv).halfmove == 0,
        m.board[mv.to_sq() as int] is None && mv.kind_spec() != MoveKind::EnPassant && m.board[mv.from_sq() as int].unwrap().kind
            != PieceKind::Pawn ==> after_move(m, mv).halfmove == (if m.halfmove == u16::MAX { m.halfmove as int } else { m.halfmove + 1 }),
{
}

/// Castling rights are part of a position's identity: two positions with
/// the same pieces, side to move and en-passant square but different rights
/// have different keys.
pub proof fn lemma_key_tells_castling(m1: PositionModel, m2: PositionModel)
    requires
        m1.board == m2.board,
        m1.side == m2.side,
        m1.ep == m2.ep,
        m1.castling < 16,
        m2.castling < 16,
        m1.castling != m2.castling,
    ensures
        full_key(m1) != full_key(m2),
{
    lemma_castling_in_key(m1.castling, m2.castling, m1.ep, m1.side);
    let h = board_hash(m1.board, 64);
    let a = state_key(m1.castling, m1.ep, m1.side);
    let b = state_key(m2.castling, m2.ep, m2.side);
    lemma_xor_facts(h, a, h);
    lemma_xor_facts(h, b, h);
    lemma_xor_cancel(h ^ a, h);
    lemma_xor_cancel(h ^ b, h);
    lemma_xor_facts(a, h, 0);
    lemma_xor_facts(b, h, 0);
    lemma_xor_cancel(a, h);
    lemma_xor_cancel(b, h);
    if full_key(m1) == full_key(m2) {
        assert((h ^ a) ^ h == (h ^ b) ^ h);
        assert(h ^ a == a ^ h);
        assert(h ^ b == b ^ h);
        assert((a ^ h) ^ h == a);
        assert((b ^ h) ^ h == b);
    }
}

/// The position after a move: the board changes as `board_after`, the side
/// to move flips, rights/en-passant/clocks update, the key is the key of the
/// new position, and the new key is appended to the history.
pub open spec fn after_move(m: PositionModel, mv: Move) -> PositionModel {
    let board = board_after(m, mv);
    let castling = castling_after(m, mv);
    let ep = ep_after(m, mv);
    let side = m.side.opp();
    let key = board_hash(board, 64) ^ state_key(castling, ep, side);
    PositionModel {
        board,
        side,
        castling,
        ep,
        halfmove: halfmove_after(m, mv),
        fullmove: fullmove_after(m, mv),
        key,
        history: m.history.push(key),
    }
}

/// The position after passing the turn (search only): the side flips, the
/// en-passant target is cleared, and the clocks advance.
pub open spec fn after_null(m: PositionModel) -> PositionModel {
    let side = m.side.opp();
    let key = board_hash(m.board, 64) ^ state_key(m.castling, None, side);
    PositionModel {
        board: m.board,
        side,
        castling: m.castling,
        ep: None,
        halfmove: saturating_inc(m.halfmove),
        fullmove: if m.side == Color::Black { saturating_inc(m.fullmove) } else { m.fullmove },
        key,
        history: m.history.push(key),
    }
}

impl Undo {
    /// This record holds what `after_move(m, mv)` needs to return to `m`.
    pub closed spec fn restores(&self, m: PositionModel, mv: Move) -> bool {
        &&& self.captured == captured_piece(m, mv)
        &&& self.captured_square == (if mv.kind_spec() == MoveKind::EnPassant {
            Some(capture_square(m, mv) as u8)
        } else if captured_piece(m, mv) is Some {
            Some(mv.to_sq())
        } else {
            None
        })
        &&& self.castling == m.castling
        &&& self.ep == m.ep
        &&& self.halfmove == m.halfmove
        &&& self.fullmove == m.fullmove
        &&& self.key == m.key
        &&& self.history_len == m.history.len()
    }

    /// This record holds what `after_null(m)` needs to return to `m`.
    pub closed spec fn restores_null(&self, m: PositionModel) -> bool {
        &&& self.castling == m.castling
        &&& self.ep == m.ep
        &&& self.halfmove == m.halfmove
        &&& self.fullmove == m.fullmove
        &&& self.key == m.key
        &&& self.history_len == m.history.len()
    }
}

/// Each piece bitboard, both color bitboards, and the all-pieces bitboard
/// hold exactly the squares the mailbox says they hold.
#[verifier::opaque]
pub closed spec fn boards_agree(pieces: Seq<u64>, occupancy: Seq<u64>, all: u64, mailbox: Seq<Option<Piece>>) -> bool {
    &&& pieces.len() == 12
    &&& occupancy.len() == 2
    &&& mailbox.len() == 64
    &&& forall|i: int, s: int|
        0 <= i < 12 && 0 <= s < 64 ==> #[trigger] sq_in(pieces[i], s) == (mailbox[s] == Some(Piece::of_idx(i)))
    &&& forall|s: int|
        0 <= s < 64 ==> #[trigger] sq_in(occupancy[0], s) == (mailbox[s] matches Some(p) && p.color == Color::White)
    &&& forall|s: int|
        0 <= s < 64 ==> #[trigger] sq_in(occupancy[1], s) == (mailbox[s] matches Some(p) && p.color == Color::Black)
    &&& forall|s: int| 0 <= s < 64 ==> #[trigger] sq_in(all, s) == (mailbox[s] is Some)
}

proof fn lemma_and_small(c: u8, m: u8)
    by (bit_vector)
    requires
        c < 16,
    ensures
        c & m < 16,
        c & m <= c,
{
}

impl Position {
    /// Bitboards and mailbox agree, and the metadata is in range.
    pub closed spec fn consistent(&self) -> bool {
        &&& boards_agree(self.pieces@, self.occupancy@, self.all, self.mailbox@)
        &&& self.castling < 16
        &&& (self.ep matches Some(e) ==> e < 64)
    }

    /// A position ready for play: consistent, with the key equal to the key
    /// computed from scratch and the history ending at the current key.
    pub closed spec fn wf(&self) -> bool {
        &&& self.consistent()
        &&& ep_ok(self@)
        &&& self.key == full_key(self@)
        &&& self.history@.len() >= 1
        &&& self.history@.last() == self.key
    }

    /// Facts every well-formed position has.
    pub proof fn lemma_wf(&self)
        requires
            self.wf(),
        ensures
            self@.board.len() == 64,
            self@.castling < 16,
            self@.ep matches Some(e) ==> e < 64,
            self@.key == full_key(self@),
            self@.history.len() >= 1,
            self@.history.last() == self@.key,
            model_ok(self@),
            self.consistent(),
    {
        reveal(boards_agree);
    }

    /// An empty board with White to move, no rights, and key zero.
    pub fn empty() -> (p: Self)
        ensures
            p.consistent(),
            p@.board == Seq::new(64, |i: int| None::<Piece>),
            p@.side == Color::White,
            p@.castling == 0,
            p@.ep is None,
            p@.halfmove == 0,
            p@.fullmove == 1,
            p@.key == 0,
            p@.history.len() == 0,
    {
        let mut mailbox: [Option<Piece>; 64] = [None; 64];
        let mut i: usize = 0;
        while i < 64
            invariant
                i <= 64,
                mailbox@.len() == 64,
                forall|j: int| 0 <= j < i ==> mailbox@[j] is None,
            decreases 64 - i,
        {
            mailbox[i] = None;
            i = i + 1;
        }
        proof {
            assert(mailbox@ =~= Seq::new(64, |i: int| None::<Piece>));
        }
        let p = Position {
            pieces: [0; 12],
            occupancy: [0; 2],
            all: 0,
            mailbox,
            side_to_move: Color::White,
            castling: 0,
            ep: None,
            halfmove: 0,
            fullmove: 1,
            key: 0,
            history: Vec::new(),
        };
        proof {
            broadcast use group_bits;
            reveal(boards_agree);
            assert(p@.board =~= Seq::new(64, |i: int| None::<Piece>));
        }
        p
    }

    /// A field-by-field copy with the same abstract state.
    pub fn duplicate(&self) -> (r: Position)
        ensures
            r@ == self@,
            self.consistent() ==> r.consistent(),
            self.wf() ==> r.wf(),
    {
        let mut history: Vec<u64> = Vec::new();
        let mut i: usize = 0;
        while i < self.history.len()
            invariant
                i <= self.history@.len(),
                history@ == self.history@.subrange(0, i as int),
            decreases self.history@.len() - i,
        {
            history.push(self.history[i]);
            i = i + 1;
            proof { assert(history@ =~= self.history@.subrange(0, i as int)); }
        }
        proof { assert(history@ =~= self.history@); }
        Position {
            pieces: self.pieces,
            occupancy: self.occupancy,
            all: self.all,
            mailbox: self.mailbox,
            side_to_move: self.side_to_move,
            castling: self.castling,
            ep: self.ep,
            halfmove: self.halfmove,
            fullmove: self.fullmove,
            key: self.key,
            history,
        }
    }

    fn add_piece(&mut self, piece: Piece, sq: Square)
        requires
            old(self).consistent(),
            sq < 64,
            old(self).mailbox@[sq as int] is None,
        ensures
            final(self).consistent(),
            final(self)@.board == old(self)@.board.update(sq as int, Some(piece)),
            final(self)@.key == old(self)@.key ^ piece_key(piece, sq as int),
            final(self)@.key ^ board_hash(final(self)@.board, 64) == old(self)@.key ^ board_hash(old(self)@.board, 64),
            final(self)@.side == old(self)@.side,
            final(self)@.castling == old(self)@.castling,
            final(self)@.ep == old(self)@.ep,
            final(self)@.halfmove == old(self)@.halfmove,
            final(self)@.fullmove == old(self)@.fullmove,
            final(self)@.history == old(self)@.history,
    {
        proof { reveal(boards_agree); }
        let b = bit(sq);
        let idx = piece.index();
        let c = piece.color.index();
        let ghost old_board = self.mailbox@;
        self.mailbox[sq as usize] = Some(piece);
        self.pieces[idx] = self.pieces[idx] | b;
        self.occupancy[c] = self.occupancy[c] | b;
        self.all = self.all | b;
        let k = zobrist_key((idx as u64) * 64 + (sq as u64));
        self.key = self.key ^ k;
        proof {
            broadcast use group_bits;
            piece.lemma_idx();
            assert forall|i: int, s: int|
                0 <= i < 12 && 0 <= s < 64 implies #[trigger] sq_in(self.pieces@[i], s) == (self.mailbox@[s] == Some(Piece::of_idx(i))) by {
                Piece::lemma_of_idx(i);
                assert(sq_in(b, s) == (s == sq as int));
                if i == idx as int {
                    assert(self.pieces@[i] == old(self).pieces@[i] | b);
                    assert(sq_in(self.pieces@[i], s) == (sq_in(old(self).pieces@[i], s) || sq_in(b, s)));
                } else {
                    assert(self.pieces@[i] == old(self).pieces@[i]);
                }
                if s != sq as int {
                    assert(self.mailbox@[s] == old_board[s]);
                }
            }
            assert forall|s: int| 0 <= s < 64 implies #[trigger] sq_in(self.occupancy@[0], s) == (self.mailbox@[s] matches Some(p) && p.color == Color::White) by {
                assert(sq_in(b, s) == (s == sq as int));
                if c == 0 {
                    assert(sq_in(self.occupancy@[0], s) == (sq_in(old(self).occupancy@[0], s) || sq_in(b, s)));
                }
            }
            assert forall|s: int| 0 <= s < 64 implies #[trigger] sq_in(self.occupancy@[1], s) == (self.mailbox@[s] matches Some(p) && p.color == Color::Black) by {
                assert(sq_in(b, s) == (s == sq as int));
                if c == 1 {
                    assert(sq_in(self.occupancy@[1], s) == (sq_in(old(self).occupancy@[1], s) || sq_in(b, s)));
                }
            }
            assert forall|s: int| 0 <= s < 64 implies #[trigger] sq_in(self.all, s) == (self.mailbox@[s] is Some) by {
                assert(sq_in(b, s) == (s == sq as int));
                assert(sq_in(self.all, s) == (sq_in(old(self).all, s) || sq_in(b, s)));
            }
            let ob = old_board;
            let nb = self.mailbox@;
            lemma_board_hash_update(ob, sq as int, Some(piece), 64);
            let h = board_hash(ob, 64);
            assert(square_key(ob, sq as int) == 0);
            assert(square_key(nb, sq as int) == k);
            let ok = old(self).key;
            lemma_xor_facts(h, 0, k);
            lemma_xor_facts(h, 0, 0);
            lemma_xor_facts(ok, k, h ^ k);
            lemma_xor_facts(k, h, k);
            lemma_xor_facts(h, k, k);
            lemma_xor_facts(k, k, h);
            lemma_xor_facts(h, k, 0);
            lemma_xor_facts(ok, h, 0);
            lemma_xor_facts(k, k, 0);
            lemma_xor_facts(0, h, 0);
            assert((ok ^ k) ^ (h ^ k) == ok ^ h) by {
                lemma_xor_facts(ok, k, h ^ k);
                lemma_xor_facts(k, h, k);
                lemma_xor_facts(h, k, k);
                lemma_xor_facts(k, h, 0);
            }
        }
    }

    fn remove_piece(&mut self, piece: Piece, sq: Square)
        requires
            old(self).consistent(),
            sq < 64,
            old(self).mailbox@[sq as int] == Some(piece),
        ensures
            final(self).consistent(),
            final(self)@.board == old(self)@.board.update(sq as int, None),
            final(self)@.key == old(self)@.key ^ piece_key(piece, sq as int),
            final(self)@.key ^ board_hash(final(self)@.board, 64) == old(self)@.key ^ board_hash(old(self)@.board, 64),
            final(self)@.side == old(self)@.side,
            final(self)@.castling == old(self)@.castling,
            final(self)@.ep == old(self)@.ep,
            final(self)@.halfmove == old(self)@.halfmove,
            final(self)@.fullmove == old(self)@.fullmove,
            final(self)@.history == old(self)@.history,
    {
        proof { reveal(boards_agree); }
        let b = bit(sq);
        let nb = !b;
        let idx = piece.index();
        let c = piece.color.index();
        let ghost old_board = self.mailbox@;
        self.mailbox[sq as usize] = None;
        self.pieces[idx] = self.pieces[idx] & nb;
        self.occupancy[c] = self.occupancy[c] & nb;
        self.all = self.all & nb;
        let k = zobrist_key((idx as u64) * 64 + (sq as u64));
        self.key = self.key ^ k;
        proof {
            broadcast use group_bits;
            piece.lemma_idx();
            assert forall|i: int, s: int|
                0 <= i < 12 && 0 <= s < 64 implies #[trigger] sq_in(self.pieces@[i], s) == (self.mailbox@[s] == Some(Piece::of_idx(i))) by {
                Piece::lemma_of_idx(i);
                assert(sq_in(b, s) == (s == sq as int));
                assert(sq_in(nb, s) == (s != sq as int));
                if i == idx as int {
                    assert(self.pieces@[i] == old(self).pieces@[i] & nb);
                    assert(sq_in(self.pieces@[i], s) == (sq_in(old(self).pieces@[i], s) && sq_in(nb, s)));
                } else {
                    assert(self.pieces@[i] == old(self).pieces@[i]);
                }
                if s != sq as int {
                    assert(self.mailbox@[s] == old_board[s]);
                }
            }
            assert forall|s: int| 0 <= s < 64 implies #[trigger] sq_in(self.occupancy@[0], s) == (self.mailbox@[s] matches Some(p) && p.color == Color::White) by {
                assert(sq_in(nb, s) == (s != sq as int));
                if c == 0 {
                    assert(sq_in(self.occupancy@[0], s) == (sq_in(old(self).occupancy@[0], s) && sq_in(nb, s)));
                }
            }
            assert forall|s: int| 0 <= s < 64 implies #[trigger] sq_in(self.occupancy@[1], s) == (self.mailbox@[s] matches Some(p) && p.color == Color::Black) by {
                assert(sq_in(nb, s) == (s != sq as int));
                if c == 1 {
                    assert(sq_in(self.occupancy@[1], s) == (sq_in(old(self).occupancy@[1], s) && sq_in(nb, s)));
                }
            }
            assert forall|s: int| 0 <= s < 64 implies #[trigger] sq_in(self.all, s) == (self.mailbox@[s] is Some) by {
                assert(sq_in(nb, s) == (s != sq as int));
                assert(sq_in(self.all, s) == (sq_in(old(self).all, s) && sq_in(nb, s)));
            }
            let ob = old_board;
            let nbd = self.mailbox@;
            lemma_board_hash_update(ob, sq as int, None, 64);
            let h = board_hash(ob, 64);
            assert(square_key(ob, sq as int) == k);
            assert(square_key(nbd, sq as int) == 0);
            let ok = old(self).key;
            lemma_xor_facts(h, k, 0);
            lemma_xor_facts(h ^ k, 0, 0);
            assert((ok ^ k) ^ (h ^ k) == ok ^ h) by {
                lemma_xor_facts(ok, k, h ^ k);
                lemma_xor_facts(k, h, k);
                lemma_xor_facts(h, k, k);
                lemma_xor_facts(k, h, 0);
                lemma_xor_facts(h, 0, 0);
            }
        }
    }

    /// Squares holding the bitboard of `p` agree with the mailbox.
    proof fn lemma_piece_board(&self, p: Piece)
        requires
            self.consistent(),
        ensures
            forall|s: int| 0 <= s < 64 ==> #[trigger] sq_in(self.pieces@[p.idx()], s) == (self@.board[s] == Some(p)),
    {
        reveal(boards_agree);
        p.lemma_idx();
    }

    pub fn pieces(&self, color: Color, kind: PieceKind) -> (r: u64)
        ensures
            self.consistent() ==> forall|s: int| 0 <= s < 64 ==> #[trigger] sq_in(r, s) == (self@.board[s] == Some(Piece { color, kind })),
    {
        let idx = color.index() * 6 + kind.index();
        proof {
            if self.consistent() {
                self.lemma_piece_board(Piece { color, kind });
            }
            assert(idx == Piece { color, kind }.idx());
        }
        let r = self.pieces[idx];
        proof { assert(r == self.pieces@[idx as int]); }
        r
    }

    pub fn occupancy(&self, color: Color) -> (r: u64)
        ensures
            self.consistent() ==> forall|s: int| 0 <= s < 64 ==> #[trigger] sq_in(r, s) == (self@.board[s] matches Some(p) && p.color == color),
    {
        proof { reveal(boards_agree); }
        self.occupancy[color.index()]
    }

    pub fn all_occupancy(&self) -> (r: u64)
        ensures
            self.consistent() ==> forall|s: int| 0 <= s < 64 ==> #[trigger] sq_in(r, s) == (self@.board[s] is Some),
            self.consistent() ==> r == occupancy_of(self@.board),
    {
        proof {
            reveal(boards_agree);
            if self.consistent() {
                assert(is_occupancy(self.all, self@.board));
                let o = occupancy_of(self@.board);
                assert forall|x: int| 0 <= x < 64 implies sq_in(self.all, x) == sq_in(o, x) by {
                }
                lemma_bits_ext(self.all, o);
            }
        }
        self.all
    }

    pub fn side_to_move(&self) -> (r: Color)
        ensures
            r == self@.side,
    {
        self.side_to_move
    }

    pub fn castling_rights(&self) -> (r: u8)
        ensures
            r == self@.castling,
    {
        self.castling
    }

    pub fn en_passant(&self) -> (r: Option<Square>)
        ensures
            r == self@.ep,
    {
        self.ep
    }

    pub fn halfmove_clock(&self) -> (r: u16)
        ensures
            r == self@.halfmove,
    {
        self.halfmove
    }

    pub fn fullmove_number(&self) -> (r: u16)
        ensures
            r == self@.fullmove,
    {
        self.fullmove
    }

    pub fn key(&self) -> (r: u64)
        ensures
            r == self@.key,
    {
        self.key
    }

    /// What stands on `sq`; `None` off the board.
    pub fn piece_at(&self, sq: Square) -> (r: Option<Piece>)
        ensures
            r == (if sq < 64 { self@.board[sq as int] } else { None }),
    {
        if sq < 64 {
            self.mailbox[sq as usize]
        } else {
            None
        }
    }

    /// The square of `color`'s king (the lowest one, should there be more).
    pub fn king_square(&self, color: Color) -> (r: Option<Square>)
        ensures
            r matches Some(s) ==> s < 64,
            self.consistent() ==> match r {
                Some(s) => s < 64 && self@.board[s as int] == Some(Piece { color, kind: PieceKind::King })
                    && forall|t: int| 0 <= t < s ==> self@.board[t] != Some(Piece { color, kind: PieceKind::King }),
                None => forall|t: int| 0 <= t < 64 ==> self@.board[t] != Some(Piece { color, kind: PieceKind::King }),
            },
    {
        let bb = self.pieces(color, PieceKind::King);
        if bb == 0 {
            proof {
                broadcast use group_bits;
                assert forall|t: int| 0 <= t < 64 implies !sq_in(bb, t) by {
                    crate::bitboard::lemma_bit_zero(t as u64);
                }
                if self.consistent() {
                    assert forall|t: int| 0 <= t < 64 implies self@.board[t] != Some(Piece { color, kind: PieceKind::King }) by {
                        assert(!sq_in(bb, t));
                    }
                }
            }
            None
        } else {
            proof {
                lemma_trailing_zeros(bb);
                let s = bb.trailing_zeros() as int;
                if self.consistent() {
                    assert(sq_in(bb, s));
                    assert forall|t: int| 0 <= t < s implies self@.board[t] != Some(Piece { color, kind: PieceKind::King }) by {
                        assert(!sq_in(bb, t));
                    }
                }
            }
            Some(bb.trailing_zeros() as Square)
        }
    }

    /// Whether `color`'s king is attacked (a side without a king counts as
    /// in check).
    pub fn in_check(&self, color: Color) -> (r: bool)
        ensures
            self.consistent() ==> r == crate::movegen::in_check_spec(self@, color),
    {
        match self.king_square(color) {
            Some(sq) => {
                proof {
                    if self.consistent() {
                        crate::movegen::lemma_king_square(self@.board, color, sq as int);
                    }
                }
                crate::movegen::is_square_attacked(self, sq, color.opposite())
            },
            None => {
                proof {
                    if self.consistent() {
                        crate::movegen::lemma_no_king(self@.board, color);
                    }
                }
                true
            },
        }
    }

    /// A public immutable convenience wrapper. Performance-sensitive search and
    /// perft use `legal_moves_mut`, which makes/unmakes a single board.
    pub fn legal_moves(&self) -> (r: MoveList)
        requires
            self.wf(),
        ensures
            forall|mv: Move| #[trigger] r@.contains(mv) ==> legal_move(self@, mv),
            fits(self@) ==> forall|mv: Move| #[trigger] r@.contains(mv) <== legal_move(self@, mv),
            r@.no_duplicates(),
            r@.len() <= 256,
    {
        let mut copy = self.duplicate();
        generate_legal(&mut copy)
    }

    pub fn legal_moves_mut(&mut self) -> (r: MoveList)
        requires
            old(self).wf(),
        ensures
            final(self).wf(),
            final(self)@ == old(self)@,
            forall|mv: Move| #[trigger] r@.contains(mv) ==> legal_move(old(self)@, mv),
            fits(old(self)@) ==> forall|mv: Move| #[trigger] r@.contains(mv) <== legal_move(old(self)@, mv),
            r@.no_duplicates(),
            r@.len() <= 256,
    {
        generate_legal(self)
    }

    /// The side to move is checkmated: in check with no legal move.
    pub fn is_checkmate(&self) -> (r: bool)
        requires
            self.wf(),
        ensures
            fits(self@) ==> r == (in_check_spec(self@, self@.side) && forall|mv: Move| !#[trigger] legal_move(self@, mv)),
            r ==> in_check_spec(self@, self@.side),
            !r ==> !in_check_spec(self@, self@.side) || exists|mv: Move| #[trigger] legal_move(self@, mv),
    {
        proof { self.lemma_wf(); }
        let check = self.in_check(self.side_to_move);
        if !check {
            return false;
        }
        let moves = self.legal_moves();
        let r = moves.is_empty();
        proof {
            crate::movegen::lemma_empty_list(self@, moves@);
        }
        r
    }

    /// The side to move is stalemated: not in check with no legal move.
    pub fn is_stalemate(&self) -> (r: bool)
        requires
            self.wf(),
        ensures
            fits(self@) ==> r == (!in_check_spec(self@, self@.side) && forall|mv: Move| !#[trigger] legal_move(self@, mv)),
            r ==> !in_check_spec(self@, self@.side),
            !r ==> in_check_spec(self@, self@.side) || exists|mv: Move| #[trigger] legal_move(self@, mv),
    {
        proof { self.lemma_wf(); }
        let check = self.in_check(self.side_to_move);
        if check {
            return false;
        }
        let moves = self.legal_moves();
        let r = moves.is_empty();
        proof {
            crate::movegen::lemma_empty_list(self@, moves@);
        }
        r
    }

    /// Draw by the fifty-move rule, threefold repetition, or dead material.
    pub fn is_draw(&self) -> (r: bool)
        ensures
            self.consistent() ==> r == (self@.halfmove >= 100 || occurrences(self@.history, self@.key) >= 3 || insufficient_material(self@.board)),
    {
        self.is_fifty_move_draw() || self.is_threefold_repetition() || self.is_insufficient_material()
    }

    /// `color` has a knight, bishop, rook, or queen.
    pub(crate) fn has_non_pawn_material(&self, color: Color) -> (r: bool)
        ensures
            self.consistent() ==> r == exists|s: int|
                0 <= s < 64 && (#[trigger] self@.board[s] matches Some(p) && p.color == color && p.kind != PieceKind::Pawn && p.kind != PieceKind::King),
    {
        let n = self.pieces(color, PieceKind::Knight);
        let b = self.pieces(color, PieceKind::Bishop);
        let rk = self.pieces(color, PieceKind::Rook);
        let q = self.pieces(color, PieceKind::Queen);
        let all = n | b | rk | q;
        proof {
            if self.consistent() {
                if all != 0 {
                    lemma_trailing_zeros(all);
                    let s = all.trailing_zeros() as int;
                    crate::bitboard::lemma_bit_or(n | b | rk, q, s as u64);
                    crate::bitboard::lemma_bit_or(n | b, rk, s as u64);
                    crate::bitboard::lemma_bit_or(n, b, s as u64);
                    assert(sq_in(n, s) || sq_in(b, s) || sq_in(rk, s) || sq_in(q, s));
                } else {
                    assert forall|s: int| 0 <= s < 64 implies !(#[trigger] self@.board[s] matches Some(p) && p.color == color && p.kind != PieceKind::Pawn && p.kind != PieceKind::King) by {
                        crate::bitboard::lemma_bit_or(n | b | rk, q, s as u64);
                        crate::bitboard::lemma_bit_or(n | b, rk, s as u64);
                        crate::bitboard::lemma_bit_or(n, b, s as u64);
                        crate::bitboard::lemma_bit_zero(s as u64);
                        assert(!sq_in(all, s));
                        assert(!sq_in(n, s) && !sq_in(b, s) && !sq_in(rk, s) && !sq_in(q, s));
                    }
                }
            }
        }
        all != 0
    }

    /// Applies a move only after checking it against the strictly legal move
    /// list. This is the API used for FEN/UCI game input; recursive search uses
    /// the crate-private unchecked form after obtaining that same list.
    pub fn try_make_move(&mut self, mv: Move) -> (r: Result<Undo, PositionError>)
        requires
            old(self).wf(),
        ensures
            final(self).wf(),
            r is Ok ==> legal_move(old(self)@, mv) && final(self)@ == after_move(old(self)@, mv),
            r matches Ok(u) ==> u.restores(old(self)@, mv),
            r is Err ==> final(self)@ == old(self)@,
            fits(old(self)@) ==> (r is Ok <==> legal_move(old(self)@, mv)),
    {
        let moves = self.legal_moves();
        if !moves.contains(mv) {
            return Err(PositionError(String::from_str("move is not legal in this position")));
        }
        proof {
            self.lemma_wf();
            crate::movegen::lemma_pseudo_applicable(self@, mv);
        }
        Ok(self.make_move_unchecked(mv))
    }

    pub fn history(&self) -> (r: &[u64])
        ensures
            r@ == self@.history,
    {
        self.history.as_slice()
    }

    pub fn is_fifty_move_draw(&self) -> (r: bool)
        ensures
            r == (self@.halfmove >= 100),
    {
        self.halfmove >= 100
    }

    /// The current key occurs at least three times in the game history.
    pub fn is_threefold_repetition(&self) -> (r: bool)
        ensures
            r == (occurrences(self@.history, self@.key) >= 3),
    {
        let mut count: usize = 0;
        let mut i: usize = 0;
        let ghost h = self.history@;
        while i < self.history.len()
            invariant
                h == self.history@,
                i <= h.len(),
                count == occurrences(h.subrange(0, i as int), self.key),
                count <= i,
            decreases h.len() - i,
        {
            proof {
                assert(h.subrange(0, i + 1).drop_last() =~= h.subrange(0, i as int));
            }
            if self.history[i] == self.key {
                count = count + 1;
            }
            i = i + 1;
        }
        proof { assert(h.subrange(0, h.len() as int) =~= h); }
        count >= 3
    }

    /// The number of `color` `kind` pieces on the board.
    fn count(&self, color: Color, kind: PieceKind) -> (r: u32)
        ensures
            self.consistent() ==> r as nat == count_of(self@.board, Piece { color, kind }),
            r <= 64,
    {
        let bb = self.pieces(color, kind);
        let r = count_ones(bb);
        proof {
            if self.consistent() {
                lemma_count_bits_on(bb, self@.board, Piece { color, kind }, 64);
            }
        }
        r
    }

    /// The lowest square holding a piece that occurs once, and that it is the
    /// only such square.
    fn sole_square(&self, color: Color, kind: PieceKind) -> (r: Square)
        ensures
            self.consistent() && count_of(self@.board, Piece { color, kind }) == 1 ==> {
                &&& r < 64
                &&& self@.board[r as int] == Some(Piece { color, kind })
                &&& forall|t: int| 0 <= t < 64 && self@.board[t] == Some(Piece { color, kind }) ==> t == r
            },
    {
        let bb = self.pieces(color, kind);
        if bb == 0 {
            proof {
                if self.consistent() {
                    lemma_count_bits_on(bb, self@.board, Piece { color, kind }, 64);
                    assert forall|t: int| 0 <= t < 64 implies !sq_in(bb, t) by {
                        crate::bitboard::lemma_bit_zero(t as u64);
                    }
                    lemma_count_bits_zero(bb, 64);
                }
            }
            return 0;
        }
        proof {
          if self.consistent() && count_of(self@.board, Piece { color, kind }) == 1 {
            lemma_count_bits_on(bb, self@.board, Piece { color, kind }, 64);
            if bb == 0 {
                assert forall|t: int| 0 <= t < 64 implies !sq_in(bb, t) by {
                    crate::bitboard::lemma_bit_zero(t as u64);
                }
                lemma_count_bits_zero(bb, 64);
            }
            lemma_trailing_zeros(bb);
            let s = bb.trailing_zeros() as int;
            assert(sq_in(bb, s));
            assert forall|t: int| 0 <= t < 64 && self@.board[t] == Some(Piece { color, kind }) implies t == s by {
                lemma_count_one_unique(self@.board, Piece { color, kind }, 64, t, s);
            }
          }
        }
        bb.trailing_zeros() as Square
    }

    /// FIDE dead-position cases that can be decided solely from material:
    /// K/K, K+B/K, K+N/K, and K+B/K+B when every bishop is on the same color.
    /// More exotic dead positions are intentionally not guessed; search can
    /// still find their lack of progress, rather than incorrectly declaring a draw.
    pub fn is_insufficient_material(&self) -> (r: bool)
        ensures
            self.consistent() ==> r == insufficient_material(self@.board),
    {
        let heavy = self.count(Color::White, PieceKind::Pawn) + self.count(Color::Black, PieceKind::Pawn)
            + self.count(Color::White, PieceKind::Rook) + self.count(Color::Black, PieceKind::Rook)
            + self.count(Color::White, PieceKind::Queen) + self.count(Color::Black, PieceKind::Queen);
        if heavy != 0 {
            return false;
        }
        let wn = self.count(Color::White, PieceKind::Knight);
        let bn = self.count(Color::Black, PieceKind::Knight);
        let wb = self.count(Color::White, PieceKind::Bishop);
        let bb = self.count(Color::Black, PieceKind::Bishop);
        let minor = wn + bn + wb + bb;
        if minor == 0 {
            return true;
        }
        if minor == 1 {
            return true;
        }
        if wn == 0 && bn == 0 && wb == 1 && bb == 1 {
            let ws = self.sole_square(Color::White, PieceKind::Bishop);
            let bs = self.sole_square(Color::Black, PieceKind::Bishop);
            return square_color(ws) == square_color(bs);
        }
        false
    }

    fn clear_rook_right(&mut self, sq: Square)
        requires
            old(self).castling < 16,
        ensures
            final(self).castling == clear_rook_spec(old(self).castling, sq as int),
            final(self).castling < 16,
            final(self).pieces == old(self).pieces,
            final(self).occupancy == old(self).occupancy,
            final(self).all == old(self).all,
            final(self).mailbox == old(self).mailbox,
            final(self).side_to_move == old(self).side_to_move,
            final(self).ep == old(self).ep,
            final(self).halfmove == old(self).halfmove,
            final(self).fullmove == old(self).fullmove,
            final(self).key == old(self).key,
            final(self).history == old(self).history,
    {
        proof {
            lemma_and_small(self.castling, !CASTLE_WQ);
            lemma_and_small(self.castling, !CASTLE_WK);
            lemma_and_small(self.castling, !CASTLE_BQ);
            lemma_and_small(self.castling, !CASTLE_BK);
        }
        if sq == 0 {
            self.castling = self.castling & !CASTLE_WQ;
        } else if sq == 7 {
            self.castling = self.castling & !CASTLE_WK;
        } else if sq == 56 {
            self.castling = self.castling & !CASTLE_BQ;
        } else if sq == 63 {
            self.castling = self.castling & !CASTLE_BK;
        }
    }

    fn update_castling_rights(&mut self, from: Square, to: Square, moving: Piece, captured: Option<Piece>)
        requires
            old(self).castling < 16,
        ensures
            final(self).castling < 16,
            final(self).castling == ({
                let c1 = if moving.kind == PieceKind::King {
                    if moving.color == Color::White { old(self).castling & !(CASTLE_WK | CASTLE_WQ) } else { old(self).castling & !(CASTLE_BK | CASTLE_BQ) }
                } else {
                    old(self).castling
                };
                let c2 = if moving.kind == PieceKind::Rook { clear_rook_spec(c1, from as int) } else { c1 };
                match captured {
                    Some(cp) => if cp.kind == PieceKind::Rook { clear_rook_spec(c2, to as int) } else { c2 },
                    None => c2,
                }
            }),
            final(self).pieces == old(self).pieces,
            final(self).occupancy == old(self).occupancy,
            final(self).all == old(self).all,
            final(self).mailbox == old(self).mailbox,
            final(self).side_to_move == old(self).side_to_move,
            final(self).ep == old(self).ep,
            final(self).halfmove == old(self).halfmove,
            final(self).fullmove == old(self).fullmove,
            final(self).key == old(self).key,
            final(self).history == old(self).history,
    {
        if moving.kind == PieceKind::King {
            proof {
                lemma_and_small(self.castling, !(CASTLE_WK | CASTLE_WQ));
                lemma_and_small(self.castling, !(CASTLE_BK | CASTLE_BQ));
            }
            if moving.color == Color::White {
                self.castling = self.castling & !(CASTLE_WK | CASTLE_WQ);
            } else {
                self.castling = self.castling & !(CASTLE_BK | CASTLE_BQ);
            }
        }
        if moving.kind == PieceKind::Rook {
            self.clear_rook_right(from);
        }
        match captured {
            Some(cp) => {
                if cp.kind == PieceKind::Rook {
                    self.clear_rook_right(to);
                }
            },
            None => {},
        }
    }

    /// Moves the pieces of `mv` on the board (the moving piece, any captured
    /// piece, a castling rook), leaving the metadata alone.
    fn relocate(&mut self, mv: Move, moving: Piece, kind: MoveKind, Ghost(m): Ghost<PositionModel>) -> (r: (Option<Piece>, Option<Square>))
        requires
            old(self).consistent(),
            old(self)@.board == m.board,
            applicable(m, mv),
            moving == moving_piece(m, mv),
            kind == mv.kind_spec(),
        ensures
            final(self).consistent(),
            final(self)@.board == board_after(m, mv),
            final(self)@.key ^ board_hash(final(self)@.board, 64) == old(self)@.key ^ board_hash(old(self)@.board, 64),
            final(self)@.side == old(self)@.side,
            final(self)@.castling == old(self)@.castling,
            final(self)@.ep == old(self)@.ep,
            final(self)@.halfmove == old(self)@.halfmove,
            final(self)@.fullmove == old(self)@.fullmove,
            final(self)@.history == old(self)@.history,
            r.0 == captured_piece(m, mv),
            r.1 == (if mv.kind_spec() == MoveKind::EnPassant {
                Some(capture_square(m, mv) as u8)
            } else if captured_piece(m, mv) is Some {
                Some(mv.to_sq())
            } else {
                None
            }),
    {
        let from = mv.from();
        let to = mv.to();
        self.remove_piece(moving, from);
        let mut captured = self.mailbox[to as usize];
        let mut captured_square: Option<Square> = if captured.is_some() { Some(to) } else { None };
        if kind == MoveKind::EnPassant {
            let cap_sq = if moving.color == Color::White { to - 8 } else { to + 8 };
            captured = self.mailbox[cap_sq as usize];
            captured_square = Some(cap_sq);
        }
        match (captured, captured_square) {
            (Some(piece), Some(sq)) => {
                self.remove_piece(piece, sq);
            },
            _ => {},
        }
        proof {
            assert(self.mailbox@ =~= m.board.update(from as int, None).update(capture_square(m, mv), None));
        }
        let placed = match mv.promotion() {
            Some(k) => Piece { color: moving.color, kind: k },
            None => moving,
        };
        self.add_piece(placed, to);
        if kind == MoveKind::CastleKing || kind == MoveKind::CastleQueen {
            self.move_castle_rook(mv, moving.color, kind, Ghost(m));
        }
        (captured, captured_square)
    }

    fn move_castle_rook(&mut self, mv: Move, color: Color, kind: MoveKind, Ghost(m): Ghost<PositionModel>)
        requires
            old(self).consistent(),
            applicable(m, mv),
            color == m.side,
            kind == mv.kind_spec(),
            is_castle_kind(kind),
            old(self)@.board == m.board.update(mv.from_sq() as int, None).update(capture_square(m, mv), None).update(mv.to_sq() as int, Some(placed_piece(m, mv))),
        ensures
            final(self).consistent(),
            final(self)@.board == board_after(m, mv),
            final(self)@.key ^ board_hash(final(self)@.board, 64) == old(self)@.key ^ board_hash(old(self)@.board, 64),
            final(self)@.side == old(self)@.side,
            final(self)@.castling == old(self)@.castling,
            final(self)@.ep == old(self)@.ep,
            final(self)@.halfmove == old(self)@.halfmove,
            final(self)@.fullmove == old(self)@.fullmove,
            final(self)@.history == old(self)@.history,
    {
        let (rf, rt) = if kind == MoveKind::CastleKing {
            if color == Color::White { (7u8, 5u8) } else { (63u8, 61u8) }
        } else {
            if color == Color::White { (0u8, 3u8) } else { (56u8, 59u8) }
        };
        let rook = self.mailbox[rf as usize].unwrap();
        self.remove_piece(rook, rf);
        self.add_piece(rook, rt);
        proof {
            lemma_xor_facts(0, 0, 0);
        }
    }

    /// Makes a move that satisfies `applicable`, returning what is needed to
    /// take it back.
    pub(crate) fn make_move_unchecked(&mut self, mv: Move) -> (undo: Undo)
        requires
            old(self).wf(),
            applicable(old(self)@, mv),
        ensures
            final(self).wf(),
            final(self)@ == after_move(old(self)@, mv),
            undo.restores(old(self)@, mv),
    {
        let ghost m = self@;
        let from = mv.from();
        let to = mv.to();
        let kind = mv.kind();
        let moving = self.mailbox[from as usize].unwrap();
        let undo = Undo {
            captured: None,
            captured_square: None,
            castling: self.castling,
            ep: self.ep,
            halfmove: self.halfmove,
            fullmove: self.fullmove,
            key: self.key,
            history_len: self.history.len(),
        };
        self.xor_state_keys();
        proof {
            lemma_xor_cancel(board_hash(m.board, 64), state_key(m.castling, m.ep, m.side));
            lemma_xor_cancel(self.key, board_hash(self.mailbox@, 64));
        }
        let (captured, captured_square) = self.relocate(mv, moving, kind, Ghost(m));
        self.update_castling_rights(from, to, moving, captured);
        self.ep = if kind == MoveKind::DoublePawn {
            Some(if moving.color == Color::White { from + 8 } else { from - 8 })
        } else {
            None
        };
        self.halfmove = if moving.kind == PieceKind::Pawn || captured.is_some() { 0 } else { self.halfmove.saturating_add(1) };
        if moving.color == Color::Black {
            self.fullmove = self.fullmove.saturating_add(1);
        }
        self.side_to_move = self.side_to_move.opposite();
        let ghost before_state = self.key;
        self.xor_state_keys();
        proof {
            lemma_xor_cancel(before_state, board_hash(self.mailbox@, 64));
            lemma_xor_facts(board_hash(self.mailbox@, 64), state_key(self.castling, self.ep, self.side_to_move), 0);
        }
        self.history.push(self.key);
        proof {
            assert(self@ == after_move(m, mv));
        }
        Undo { captured, captured_square, ..undo }
    }

    /// Takes back `mv`, which was made from the position `pre` and recorded
    /// in `undo`: the position is exactly `pre` again.
    #[verifier::rlimit(60)]
    pub(crate) fn unmake_move(&mut self, mv: Move, undo: Undo, Ghost(pre): Ghost<PositionModel>)
        requires
            old(self).wf(),
            model_ok(pre),
            applicable(pre, mv),
            old(self)@ == after_move(pre, mv),
            undo.restores(pre, mv),
        ensures
            final(self).wf(),
            final(self)@ == pre,
    {
        self.history.truncate(undo.history_len);
        self.side_to_move = self.side_to_move.opposite();
        let from = mv.from();
        let to = mv.to();
        let kind = mv.kind();
        let moved_color = self.side_to_move;
        let placed = self.mailbox[to as usize].unwrap();
        self.remove_piece(placed, to);
        let original_kind = if mv.promotion().is_some() { PieceKind::Pawn } else { placed.kind };
        self.add_piece(Piece { color: moved_color, kind: original_kind }, from);
        match kind {
            MoveKind::CastleKing => {
                let (rf, rt) = if moved_color == Color::White { (7u8, 5u8) } else { (63u8, 61u8) };
                let rook = self.mailbox[rt as usize].unwrap();
                self.remove_piece(rook, rt);
                self.add_piece(rook, rf);
            },
            MoveKind::CastleQueen => {
                let (rf, rt) = if moved_color == Color::White { (0u8, 3u8) } else { (56u8, 59u8) };
                let rook = self.mailbox[rt as usize].unwrap();
                self.remove_piece(rook, rt);
                self.add_piece(rook, rf);
            },
            _ => {},
        }
        match (undo.captured, undo.captured_square) {
            (Some(piece), Some(sq)) => {
                self.add_piece(piece, sq);
            },
            _ => {},
        }
        self.castling = undo.castling;
        self.ep = undo.ep;
        self.halfmove = undo.halfmove;
        self.fullmove = undo.fullmove;
        self.key = undo.key;
        proof {
            assert(self.mailbox@ =~= pre.board);
            assert(self.history@ =~= pre.history);
            assert(self@ == pre);
        }
    }

    /// Null moves are search-only and never exposed through game APIs. The
    /// `history` update keeps repetition detection well-defined during a null
    /// subtree; callers must restore with `unmake_null_move`.
    pub(crate) fn make_null_move(&mut self) -> (undo: Undo)
        requires
            old(self).wf(),
        ensures
            final(self).wf(),
            final(self)@ == after_null(old(self)@),
            undo.restores_null(old(self)@),
    {
        let ghost m = self@;
        let undo = Undo {
            captured: None,
            captured_square: None,
            castling: self.castling,
            ep: self.ep,
            halfmove: self.halfmove,
            fullmove: self.fullmove,
            key: self.key,
            history_len: self.history.len(),
        };
        self.xor_state_keys();
        proof {
            lemma_xor_cancel(board_hash(m.board, 64), state_key(m.castling, m.ep, m.side));
        }
        self.ep = None;
        self.halfmove = self.halfmove.saturating_add(1);
        if self.side_to_move == Color::Black {
            self.fullmove = self.fullmove.saturating_add(1);
        }
        self.side_to_move = self.side_to_move.opposite();
        self.xor_state_keys();
        self.history.push(self.key);
        proof {
            assert(self@ == after_null(m));
        }
        undo
    }

    pub(crate) fn unmake_null_move(&mut self, undo: Undo, Ghost(pre): Ghost<PositionModel>)
        requires
            old(self).wf(),
            model_ok(pre),
            old(self)@ == after_null(pre),
            undo.restores_null(pre),
        ensures
            final(self).wf(),
            final(self)@ == pre,
    {
        self.history.truncate(undo.history_len);
        self.side_to_move = self.side_to_move.opposite();
        self.castling = undo.castling;
        self.ep = undo.ep;
        self.halfmove = undo.halfmove;
        self.fullmove = undo.fullmove;
        self.key = undo.key;
        proof {
            assert(self.history@ =~= pre.history);
            assert(self@ == pre);
        }
    }

    /// XORs the non-board state keys into the key.
    fn xor_state_keys(&mut self)
        requires
            old(self).castling < 16,
            old(self).ep matches Some(e) ==> e < 64,
        ensures
            final(self).key == old(self).key ^ state_key(old(self).castling, old(self).ep, old(self).side_to_move),
            final(self).pieces == old(self).pieces,
            final(self).occupancy == old(self).occupancy,
            final(self).all == old(self).all,
            final(self).mailbox == old(self).mailbox,
            final(self).side_to_move == old(self).side_to_move,
            final(self).castling == old(self).castling,
            final(self).ep == old(self).ep,
            final(self).halfmove == old(self).halfmove,
            final(self).fullmove == old(self).fullmove,
            final(self).history == old(self).history,
    {
        let ck = zobrist_key(769 + self.castling as u64);
        let ek = match self.ep {
            Some(e) => zobrist_key(785 + file_of(e) as u64),
            None => 0,
        };
        let sk = if self.side_to_move == Color::Black { zobrist_key(768) } else { 0 };
        proof {
            lemma_xor_facts(self.key, ck, ek);
            lemma_xor_facts(self.key, ck ^ ek, sk);
        }
        self.key = self.key ^ ck ^ ek ^ sk;
    }
}

} // verus!
