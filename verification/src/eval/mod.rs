//! Tapered classical evaluation. It returns a score from the side to move,
//! matching negamax. Each term is stated as a sum over the board's squares.

pub mod params;
pub mod sums;

use vstd::prelude::*;

use crate::bitboard::{bit_at, count_ones, pop_lsb, sq_in};
use crate::board::occupancy_of;
use crate::movegen::{king_target, bishop_attacks, king_attacks, knight_attacks, pawn_attacks, pawn_target, piece_attacks, queen_attacks, rook_attacks};
use crate::board::{file_of, file_spec, rank_of, rank_spec, Color, Piece, PieceKind, Position, Square};
use params::{BISHOP_PAIR_EG, BISHOP_PAIR_MG, KING_ATTACK_UNIT, KING_CENTER_EG, KING_OPEN_FILE, KING_SHIELD, ROOK_OPEN_FILE, ROOK_SEMIOPEN_FILE, SPACE_MG, mobility_eg, mobility_eg_spec, mobility_mg, mobility_mg_spec, passed_eg, passed_eg_spec, passed_mg, passed_mg_spec, BACKWARD_PAWN, CONNECTED_PAWN, DOUBLED_PAWN, ISOLATED_PAWN, phase_value, phase_value_spec, MAX_PHASE, eg_file, eg_file_spec, eg_rank, eg_rank_spec, eg_value, eg_value_spec, mg_file, mg_file_spec, mg_rank, mg_rank_spec, mg_value, mg_value_spec};
use sums::{bits_sum, lemma_bits_sum_range, lemma_bits_sum_empty, lemma_bits_sum_pop, lemma_count_is_sum, lemma_sum_bound, lemma_sum_congr, square_sum};

verus! {

#[derive(Clone, Copy, Debug)]
pub struct EvalBreakdown {
    pub mg: i32,
    pub eg: i32,
    pub phase: i32,
}

impl Default for EvalBreakdown {
    fn default() -> (r: Self)
        ensures
            r.mg == 0 && r.eg == 0 && r.phase == 0,
    {
        EvalBreakdown { mg: 0, eg: 0, phase: 0 }
    }
}

/// The piece `color` `kind` stands on `s`.
pub open spec fn has(board: Seq<Option<Piece>>, s: int, color: Color, kind: PieceKind) -> bool {
    board[s] == Some(Piece { color, kind })
}

/// The sum of `f` over the squares holding a `color` `kind`.
pub open spec fn kind_sum(board: Seq<Option<Piece>>, color: Color, kind: PieceKind, f: spec_fn(int) -> int) -> int {
    square_sum(|s: int| if has(board, s, color, kind) { f(s) } else { 0 }, 64)
}

/// A bitboard of the `color` `kind` pieces sums `f` as `kind_sum` does.
pub proof fn lemma_kind_sum_bits(board: Seq<Option<Piece>>, color: Color, kind: PieceKind, b: u64, f: spec_fn(int) -> int)
    requires
        forall|s: int| 0 <= s < 64 ==> #[trigger] sq_in(b, s) == has(board, s, color, kind),
    ensures
        bits_sum(b, f, 64) == kind_sum(board, color, kind, f),
{
    let g1 = |s: int| if sq_in(b, s) { f(s) } else { 0 };
    let g2 = |s: int| if has(board, s, color, kind) { f(s) } else { 0 };
    assert forall|s: int| 0 <= s < 64 implies #[trigger] g1(s) == g2(s) by {
        assert(sq_in(b, s) == has(board, s, color, kind));
    }
    lemma_sum_congr(g1, g2, 64);
}

/// The number of `color` `kind` pieces.
pub open spec fn piece_count(board: Seq<Option<Piece>>, color: Color, kind: PieceKind) -> int {
    kind_sum(board, color, kind, |s: int| 1)
}

/// The middlegame material value of a kind.
pub fn piece_value(kind: PieceKind) -> (r: i32)
    ensures
        r == mg_value_spec(kind),
{
    mg_value(kind)
}

/// The rank of `s` counted from `color`'s own side.
pub open spec fn rel_rank(color: Color, s: int) -> int {
    if color == Color::White { rank_spec(s) } else { 7 - rank_spec(s) }
}

/// The piece-square bonus of a `color` `kind` on `s`.
pub open spec fn pst_spec(kind: PieceKind, s: int, color: Color, endgame: bool) -> int {
    if endgame {
        eg_rank_spec(kind, rel_rank(color, s)) + eg_file_spec(file_spec(s))
    } else {
        mg_rank_spec(kind, rel_rank(color, s)) + mg_file_spec(file_spec(s))
    }
}

/// The square on the same file, seen from the other side of the board.
pub open spec fn mirror_square(s: int) -> int {
    (7 - rank_spec(s)) * 8 + file_spec(s)
}

/// The board with every piece moved to the mirror square and given to the
/// other side.
pub open spec fn mirror_board(board: Seq<Option<Piece>>) -> Seq<Option<Piece>> {
    Seq::new(
        64,
        |s: int|
            match board[mirror_square(s)] {
                Some(p) => Some(Piece { color: p.color.opp(), kind: p.kind }),
                None => None,
            },
    )
}

/// The piece-square bonuses are colour-symmetric: a Black piece on a square
/// scores as a White piece of the same kind on the mirror square, and the
/// other way round.
pub proof fn lemma_pst_colour_symmetric(kind: PieceKind, s: int, endgame: bool)
    requires
        0 <= s < 64,
    ensures
        pst_spec(kind, s, Color::Black, endgame) == pst_spec(kind, mirror_square(s), Color::White, endgame),
        pst_spec(kind, s, Color::White, endgame) == pst_spec(kind, mirror_square(s), Color::Black, endgame),
        0 <= mirror_square(s) < 64,
        mirror_square(mirror_square(s)) == s,
{
    let r = rank_spec(s);
    let f = file_spec(s);
    assert(s == r * 8 + f);
    assert(rank_spec(mirror_square(s)) == 7 - r);
    assert(file_spec(mirror_square(s)) == f);
}

spec fn row_sum(f: spec_fn(int) -> int, r: int) -> int {
    f(8 * r) + f(8 * r + 1) + f(8 * r + 2) + f(8 * r + 3) + f(8 * r + 4) + f(8 * r + 5) + f(8 * r + 6) + f(8 * r + 7)
}

proof fn lemma_sum_rows(f: spec_fn(int) -> int)
    ensures
        square_sum(f, 64) == row_sum(f, 0) + row_sum(f, 1) + row_sum(f, 2) + row_sum(f, 3) + row_sum(f, 4) + row_sum(f, 5) + row_sum(f, 6) + row_sum(f, 7),
{
    reveal_with_fuel(square_sum, 65);
}

/// Summing over the squares in mirror order gives the same sum.
proof fn lemma_sum_mirror(f: spec_fn(int) -> int)
    ensures
        square_sum(|s: int| f(mirror_square(s)), 64) == square_sum(f, 64),
{
    let g = |s: int| f(mirror_square(s));
    lemma_sum_rows(f);
    lemma_sum_rows(g);
    assert forall|r: int, i: int| 0 <= r < 8 && 0 <= i < 8 implies #[trigger] g(8 * r + i) == f(8 * (7 - r) + i) by {
        assert(rank_spec(8 * r + i) == r);
        assert(file_spec(8 * r + i) == i);
    }
    assert forall|r: int| 0 <= r < 8 implies #[trigger] row_sum(g, r) == row_sum(f, 7 - r) by {
        assert(g(8 * r) == f(8 * (7 - r)));
        assert(g(8 * r + 1) == f(8 * (7 - r) + 1));
        assert(g(8 * r + 2) == f(8 * (7 - r) + 2));
        assert(g(8 * r + 3) == f(8 * (7 - r) + 3));
        assert(g(8 * r + 4) == f(8 * (7 - r) + 4));
        assert(g(8 * r + 5) == f(8 * (7 - r) + 5));
        assert(g(8 * r + 6) == f(8 * (7 - r) + 6));
        assert(g(8 * r + 7) == f(8 * (7 - r) + 7));
    }
    assert(row_sum(g, 0) == row_sum(f, 7));
    assert(row_sum(g, 1) == row_sum(f, 6));
    assert(row_sum(g, 2) == row_sum(f, 5));
    assert(row_sum(g, 3) == row_sum(f, 4));
    assert(row_sum(g, 4) == row_sum(f, 3));
    assert(row_sum(g, 5) == row_sum(f, 2));
    assert(row_sum(g, 6) == row_sum(f, 1));
    assert(row_sum(g, 7) == row_sum(f, 0));
}

/// Material and piece-square scores are colour-symmetric: Black's score on
/// the mirrored board, with the colours swapped, is White's score on the
/// board, and the other way round.
pub proof fn lemma_material_colour_symmetric(board: Seq<Option<Piece>>, endgame: bool)
    requires
        board.len() == 64,
    ensures
        material_spec(mirror_board(board), Color::Black, endgame) == material_spec(board, Color::White, endgame),
        material_spec(mirror_board(board), Color::White, endgame) == material_spec(board, Color::Black, endgame),
{
    let mb = mirror_board(board);
    assert forall|c: Color, k: PieceKind| #[trigger] kind_sum(mb, c.opp(), k, material_term(k, c.opp(), endgame)) == kind_sum(
        board,
        c,
        k,
        material_term(k, c, endgame),
    ) by {
        let fc = |s: int| if has(board, s, c, k) { material_term(k, c, endgame)(s) } else { 0 };
        let fm = |s: int| if has(mb, s, c.opp(), k) { material_term(k, c.opp(), endgame)(s) } else { 0 };
        lemma_sum_mirror(fc);
        assert forall|s: int| 0 <= s < 64 implies #[trigger] fm(s) == fc(mirror_square(s)) by {
            lemma_pst_colour_symmetric(k, s, endgame);
            assert(has(mb, s, c.opp(), k) == has(board, mirror_square(s), c, k));
        }
        lemma_sum_congr(fm, |s: int| fc(mirror_square(s)), 64);
    }
    assert(Color::White.opp() == Color::Black);
    assert(Color::Black.opp() == Color::White);
}

/// Material plus piece-square bonus of one piece.
pub open spec fn material_term(kind: PieceKind, color: Color, endgame: bool) -> spec_fn(int) -> int {
    |s: int| (if endgame { eg_value_spec(kind) } else { mg_value_spec(kind) }) + pst_spec(kind, s, color, endgame)
}

/// Material and piece-square bonuses of all of `color`'s pieces.
pub open spec fn material_spec(board: Seq<Option<Piece>>, color: Color, endgame: bool) -> int {
    kind_sum(board, color, PieceKind::Pawn, material_term(PieceKind::Pawn, color, endgame))
        + kind_sum(board, color, PieceKind::Knight, material_term(PieceKind::Knight, color, endgame))
        + kind_sum(board, color, PieceKind::Bishop, material_term(PieceKind::Bishop, color, endgame))
        + kind_sum(board, color, PieceKind::Rook, material_term(PieceKind::Rook, color, endgame))
        + kind_sum(board, color, PieceKind::Queen, material_term(PieceKind::Queen, color, endgame))
        + kind_sum(board, color, PieceKind::King, material_term(PieceKind::King, color, endgame))
}

fn pst(kind: PieceKind, sq: Square, color: Color, endgame: bool) -> (r: i32)
    requires
        sq < 64,
    ensures
        r == pst_spec(kind, sq as int, color, endgame),
        -40 <= r <= 70,
{
    let rank = if color == Color::White { rank_of(sq) } else { 7 - rank_of(sq) };
    let file = file_of(sq);
    if endgame {
        eg_rank(kind, rank) + eg_file(file)
    } else {
        mg_rank(kind, rank) + mg_file(file)
    }
}

proof fn lemma_material_term_bound(kind: PieceKind, color: Color, endgame: bool)
    ensures
        forall|s: int| 0 <= s < 64 ==> -40 <= #[trigger] material_term(kind, color, endgame)(s) <= 1000,
{
    assert forall|s: int| 0 <= s < 64 implies -40 <= #[trigger] material_term(kind, color, endgame)(s) <= 1000 by {
        let r = rel_rank(color, s);
        assert(0 <= r < 8);
        assert(0 <= file_spec(s) < 8);
    }
}

/// Material and piece-square bonuses of the `color` `kind` pieces.
fn kind_material(position: &Position, color: Color, kind: PieceKind) -> (r: (i32, i32))
    ensures
        position.consistent() ==> r.0 == kind_sum(position@.board, color, kind, material_term(kind, color, false)),
        position.consistent() ==> r.1 == kind_sum(position@.board, color, kind, material_term(kind, color, true)),
        -2560 <= r.0 <= 64000,
        -2560 <= r.1 <= 64000,
{
    let ghost board = position@.board;
    let ghost fm = material_term(kind, color, false);
    let ghost fe = material_term(kind, color, true);
    let pieces = position.pieces(color, kind);
    let mut work = pieces;
    let mut mg: i32 = 0;
    let mut eg: i32 = 0;
    proof {
        lemma_material_term_bound(kind, color, false);
        lemma_material_term_bound(kind, color, true);
        lemma_bits_sum_range(pieces, fm, -40, 1000);
        lemma_bits_sum_range(pieces, fe, -40, 1000);
    }
    while work != 0
        invariant
            forall|s: int| 0 <= s < 64 ==> -40 <= #[trigger] fm(s) <= 1000,
            forall|s: int| 0 <= s < 64 ==> -40 <= #[trigger] fe(s) <= 1000,
            fm == material_term(kind, color, false),
            fe == material_term(kind, color, true),
            mg + bits_sum(work, fm, 64) == bits_sum(pieces, fm, 64),
            eg + bits_sum(work, fe, 64) == bits_sum(pieces, fe, 64),
            -2560 <= bits_sum(work, fm, 64) <= 64000,
            -2560 <= bits_sum(work, fe, 64) <= 64000,
            -2560 <= bits_sum(pieces, fm, 64) <= 64000,
            -2560 <= bits_sum(pieces, fe, 64) <= 64000,
        decreases work,
    {
        let ghost before = work;
        let sq = pop_lsb(&mut work);
        proof {
            lemma_bits_sum_pop(before, work, sq as int, fm, 64);
            lemma_bits_sum_pop(before, work, sq as int, fe, 64);
            lemma_bits_sum_range(work, fm, -40, 1000);
            lemma_bits_sum_range(work, fe, -40, 1000);
        }
        mg = mg + mg_value(kind) + pst(kind, sq, color, false);
        eg = eg + eg_value(kind) + pst(kind, sq, color, true);
    }
    proof {
        lemma_bits_sum_empty(fm, 64);
        lemma_bits_sum_empty(fe, 64);
        if position.consistent() {
            lemma_kind_sum_bits(board, color, kind, pieces, fm);
            lemma_kind_sum_bits(board, color, kind, pieces, fe);
        }
    }
    (mg, eg)
}

/// Material and separate middlegame/endgame piece-square contributions of
/// `color`'s pieces.
pub fn material_and_pst(position: &Position, color: Color) -> (r: (i32, i32))
    ensures
        position.consistent() ==> r.0 == material_spec(position@.board, color, false),
        position.consistent() ==> r.1 == material_spec(position@.board, color, true),
        -6 * 2560 <= r.0 <= 6 * 64000,
        -6 * 2560 <= r.1 <= 6 * 64000,
{
    let (m0, e0) = kind_material(position, color, PieceKind::Pawn);
    let (m1, e1) = kind_material(position, color, PieceKind::Knight);
    let (m2, e2) = kind_material(position, color, PieceKind::Bishop);
    let (m3, e3) = kind_material(position, color, PieceKind::Rook);
    let (m4, e4) = kind_material(position, color, PieceKind::Queen);
    let (m5, e5) = kind_material(position, color, PieceKind::King);
    (m0 + m1 + m2 + m3 + m4 + m5, e0 + e1 + e2 + e3 + e4 + e5)
}

/// The number of `color` `kind` pieces, by population count.
fn count_kind(position: &Position, color: Color, kind: PieceKind) -> (r: i32)
    ensures
        position.consistent() ==> r == piece_count(position@.board, color, kind),
        0 <= r <= 64,
{
    let b = position.pieces(color, kind);
    let n = count_ones(b);
    proof {
        if position.consistent() {
            lemma_count_is_sum(b, 64);
            let g1 = |s: int| if sq_in(b, s) { 1int } else { 0int };
            let f = |s: int| 1int;
            let g2 = |s: int| if sq_in(b, s) { f(s) } else { 0 };
            assert forall|s: int| 0 <= s < 64 implies #[trigger] g1(s) == g2(s) by {}
            lemma_sum_congr(g1, g2, 64);
            lemma_kind_sum_bits(position@.board, color, kind, b, f);
        }
    }
    n as i32
}

/// The game phase: 1 per minor piece, 2 per rook, 4 per queen, at most
/// 24 (the opening).
pub open spec fn phase_spec(board: Seq<Option<Piece>>) -> int {
    let w = |k: PieceKind| piece_count(board, Color::White, k) * phase_value_spec(k);
    let b = |k: PieceKind| piece_count(board, Color::Black, k) * phase_value_spec(k);
    let total = w(PieceKind::Knight) + w(PieceKind::Bishop) + w(PieceKind::Rook) + w(PieceKind::Queen) + b(PieceKind::Knight) + b(
        PieceKind::Bishop,
    ) + b(PieceKind::Rook) + b(PieceKind::Queen);
    if total < 24 { total } else { 24 }
}

pub fn phase(position: &Position) -> (r: i32)
    ensures
        position.consistent() ==> r == phase_spec(position@.board),
        0 <= r <= 24,
{
    let mut p: i32 = 0;
    p = p + count_kind(position, Color::White, PieceKind::Knight) * phase_value(PieceKind::Knight);
    p = p + count_kind(position, Color::White, PieceKind::Bishop) * phase_value(PieceKind::Bishop);
    p = p + count_kind(position, Color::White, PieceKind::Rook) * phase_value(PieceKind::Rook);
    p = p + count_kind(position, Color::White, PieceKind::Queen) * phase_value(PieceKind::Queen);
    p = p + count_kind(position, Color::Black, PieceKind::Knight) * phase_value(PieceKind::Knight);
    p = p + count_kind(position, Color::Black, PieceKind::Bishop) * phase_value(PieceKind::Bishop);
    p = p + count_kind(position, Color::Black, PieceKind::Rook) * phase_value(PieceKind::Rook);
    p = p + count_kind(position, Color::Black, PieceKind::Queen) * phase_value(PieceKind::Queen);
    if p < MAX_PHASE { p } else { MAX_PHASE }
}

/// A bitboard of one file.
pub open spec fn on_file(s: int, f: int) -> bool {
    file_spec(s) == f
}

proof fn lemma_file_mask_bits(f: u64, t: u64)
    by (bit_vector)
    requires
        f < 8,
        t < 64,
    ensures
        bit_at(0x0101_0101_0101_0101u64 << f, t) == (t % 8 == f),
{
}

fn file_mask(file: u8) -> (r: u64)
    requires
        file < 8,
    ensures
        forall|s: int| 0 <= s < 64 ==> #[trigger] sq_in(r, s) == (file_spec(s) == file),
{
    proof {
        assert forall|s: int| 0 <= s < 64 implies #[trigger] sq_in(0x0101_0101_0101_0101u64 << (file as u64), s) == (file_spec(s) == file) by {
            lemma_file_mask_bits(file as u64, s as u64);
        }
    }
    0x0101_0101_0101_0101u64 << (file as u64)
}

fn adjacent_file_mask(file: u8) -> (r: u64)
    requires
        file < 8,
    ensures
        forall|s: int| 0 <= s < 64 ==> #[trigger] sq_in(r, s) == (file_spec(s) == file - 1 || file_spec(s) == file + 1),
{
    let left: u64 = if file > 0 { file_mask(file - 1) } else { 0 };
    let right: u64 = if file < 7 { file_mask(file + 1) } else { 0 };
    proof {
        assert forall|s: int| 0 <= s < 64 implies #[trigger] sq_in(left | right, s) == (file_spec(s) == file - 1 || file_spec(s) == file + 1) by {
            crate::bitboard::lemma_bit_or(left, right, s as u64);
            crate::bitboard::lemma_bit_zero(s as u64);
            assert(0 <= file_spec(s) < 8);
            assert(sq_in(left, s) == (file_spec(s) == file - 1));
            assert(sq_in(right, s) == (file_spec(s) == file + 1));
        }
    }
    left | right
}

/// The number of `color` pawns on file `f`.
pub open spec fn pawns_on_file(board: Seq<Option<Piece>>, color: Color, f: int) -> int {
    square_sum(|s: int| if has(board, s, color, PieceKind::Pawn) && file_spec(s) == f { 1int } else { 0int }, 64)
}

/// Doubled-pawn penalty of one file.
pub open spec fn doubled_term(board: Seq<Option<Piece>>, color: Color, endgame: bool) -> spec_fn(int) -> int {
    |f: int| {
        let n = pawns_on_file(board, color, f);
        if n > 1 { -(if endgame { DOUBLED_PAWN + 3 } else { DOUBLED_PAWN as int }) * (n - 1) } else { 0 }
    }
}

/// A `color` pawn stands on a file next to file `f`.
pub open spec fn adjacent_pawn(board: Seq<Option<Piece>>, color: Color, f: int) -> bool {
    exists|t: int| 0 <= t < 64 && #[trigger] has(board, t, color, PieceKind::Pawn) && (file_spec(t) == f - 1 || file_spec(t) == f + 1)
}

/// A `color` pawn on `s` is defended by a pawn of its own.
pub open spec fn supported(board: Seq<Option<Piece>>, color: Color, s: int) -> bool {
    exists|t: int| 0 <= t < 64 && #[trigger] has(board, t, color, PieceKind::Pawn) && pawn_target(color.opp(), s, t)
}

/// `t` is further up the board than `s` from `color`'s side.
pub open spec fn ahead(color: Color, s: int, t: int) -> bool {
    if color == Color::White { rank_spec(t) > rank_spec(s) } else { rank_spec(t) < rank_spec(s) }
}

/// No enemy pawn stands ahead of `s` on its own or an adjacent file.
pub open spec fn passed(board: Seq<Option<Piece>>, color: Color, s: int) -> bool {
    !exists|t: int|
        0 <= t < 64 && #[trigger] has(board, t, color.opp(), PieceKind::Pawn) && -1 <= file_spec(t) - file_spec(s) <= 1 && ahead(color, s, t)
}

/// The square in front of a `color` pawn on `s`.
pub open spec fn front_square(color: Color, s: int) -> int {
    if color == Color::White { s + 8 } else { s - 8 }
}

/// An unsupported pawn whose square in front is covered by an enemy pawn.
pub open spec fn backward(board: Seq<Option<Piece>>, color: Color, s: int) -> bool {
    &&& !supported(board, color, s)
    &&& 0 <= front_square(color, s) < 64
    &&& exists|t: int|
        0 <= t < 64 && #[trigger] has(board, t, color.opp(), PieceKind::Pawn) && pawn_target(color, front_square(color, s), t)
}

/// The structure terms of one pawn: isolated, connected, passed, backward.
pub open spec fn pawn_term(board: Seq<Option<Piece>>, color: Color, endgame: bool) -> spec_fn(int) -> int {
    |s: int|
        {
            let adv = rel_rank(color, s);
            (if !adjacent_pawn(board, color, file_spec(s)) { if endgame { -(ISOLATED_PAWN / 2) } else { -ISOLATED_PAWN } } else { 0 })
                + (if supported(board, color, s) { if endgame { CONNECTED_PAWN + 2 } else { CONNECTED_PAWN as int } } else { 0 })
                + (if passed(board, color, s) {
                (if endgame { passed_eg_spec(adv) } else { passed_mg_spec(adv) }) + (if supported(board, color, s) {
                    if endgame { 8int } else { 4int }
                } else {
                    0
                })
            } else {
                0
            }) + (if backward(board, color, s) { if endgame { -(BACKWARD_PAWN / 2) } else { -BACKWARD_PAWN } } else { 0 })
        }
}

/// Isolated, doubled, connected, backward, and passed pawn terms of
/// `color`.
pub open spec fn pawn_structure_spec(board: Seq<Option<Piece>>, color: Color, endgame: bool) -> int {
    square_sum(doubled_term(board, color, endgame), 8) + kind_sum(board, color, PieceKind::Pawn, pawn_term(board, color, endgame))
}

proof fn pawn_term_range(board: Seq<Option<Piece>>, color: Color)
    ensures
        forall|s: int| 0 <= s < 64 ==> -40 <= #[trigger] pawn_term(board, color, false)(s) <= 200,
        forall|s: int| 0 <= s < 64 ==> -40 <= #[trigger] pawn_term(board, color, true)(s) <= 200,
{
    assert forall|s: int| 0 <= s < 64 implies -40 <= #[trigger] pawn_term(board, color, false)(s) <= 200 by {
        assert(0 <= rel_rank(color, s) < 8);
    }
    assert forall|s: int| 0 <= s < 64 implies -40 <= #[trigger] pawn_term(board, color, true)(s) <= 200 by {
        assert(0 <= rel_rank(color, s) < 8);
    }
}

/// No pawn of `enemy` stands ahead of `sq` on its file or an adjacent one.
fn is_passed(sq: Square, color: Color, enemy_pawns: u64) -> (r: bool)
    requires
        sq < 64,
    ensures
        r == !exists|t: int| 0 <= t < 64 && #[trigger] sq_in(enemy_pawns, t) && -1 <= file_spec(t) - file_spec(sq as int) <= 1 && ahead(color, sq as int, t),
{
    let file = file_of(sq);
    let rank = rank_of(sq);
    let fm = file_mask(file);
    let am = adjacent_file_mask(file);
    let files = fm | am;
    let mut candidates = enemy_pawns & files;
    proof {
        assert forall|t: int| 0 <= t < 64 implies #[trigger] sq_in(candidates, t) == (sq_in(enemy_pawns, t) && -1 <= file_spec(t) - file_spec(sq as int) <= 1) by {
            crate::bitboard::lemma_bit_and(enemy_pawns, files, t as u64);
            crate::bitboard::lemma_bit_or(fm, am, t as u64);
            assert(sq_in(fm, t) == (file_spec(t) == file));
            assert(sq_in(am, t) == (file_spec(t) == file - 1 || file_spec(t) == file + 1));
        }
    }
    let ghost all = candidates;
    while candidates != 0
        invariant
            rank == rank_spec(sq as int),
            forall|t: int| 0 <= t < 64 ==> #[trigger] sq_in(all, t) == (sq_in(enemy_pawns, t) && -1 <= file_spec(t) - file_spec(sq as int) <= 1),
            forall|t: int| 0 <= t < 64 && #[trigger] sq_in(candidates, t) ==> sq_in(all, t),
            forall|t: int| 0 <= t < 64 && #[trigger] sq_in(all, t) && !sq_in(candidates, t) ==> !ahead(color, sq as int, t),
        decreases candidates,
    {
        let ghost before = candidates;
        let ep = pop_lsb(&mut candidates);
        let er = rank_of(ep);
        if (color == Color::White && er > rank) || (color == Color::Black && er < rank) {
            proof {
                assert(sq_in(all, ep as int));
            }
            return false;
        }
        proof {
            assert forall|t: int| 0 <= t < 64 && #[trigger] sq_in(all, t) && !sq_in(candidates, t) implies !ahead(color, sq as int, t) by {
                if t != ep as int {
                    assert(!sq_in(before, t));
                }
            }
        }
    }
    proof {
        assert forall|t: int| 0 <= t < 64 implies !(#[trigger] sq_in(enemy_pawns, t) && -1 <= file_spec(t) - file_spec(sq as int) <= 1 && ahead(color, sq as int, t)) by {
            crate::bitboard::lemma_bit_zero(t as u64);
            if sq_in(enemy_pawns, t) && -1 <= file_spec(t) - file_spec(sq as int) <= 1 {
                assert(sq_in(all, t));
                assert(!sq_in(candidates, t));
            }
        }
    }
    true
}

/// Bits of `own` that defend `sq` as pawns of `color`.
fn is_backward(sq: Square, color: Color, own: u64, enemy: u64) -> (r: bool)
    requires
        sq < 64,
    ensures
        r == (!(exists|t: int| 0 <= t < 64 && #[trigger] sq_in(own, t) && pawn_target(color.opp(), sq as int, t))
            && 0 <= front_square(color, sq as int) < 64
            && exists|t: int| 0 <= t < 64 && #[trigger] sq_in(enemy, t) && pawn_target(color, front_square(color, sq as int), t)),
{
    let support = pawn_attacks(color.opposite(), sq);
    proof {
        crate::movegen::lemma_and_nonzero(support, own);
        if support & own != 0 {
            let t = choose|t: int| 0 <= t < 64 && #[trigger] sq_in(support, t) && sq_in(own, t);
            assert(pawn_target(color.opp(), sq as int, t));
        } else {
            assert forall|t: int| 0 <= t < 64 && #[trigger] sq_in(own, t) implies !pawn_target(color.opp(), sq as int, t) by {
                assert(sq_in(support, t) == pawn_target(color.opp(), sq as int, t));
            }
        }
    }
    if support & own != 0 {
        return false;
    }
    let front: u8 = match color {
        Color::White => sq + 8,
        Color::Black => if sq >= 8 { sq - 8 } else { 64 },
    };
    if front >= 64 {
        return false;
    }
    let threat = pawn_attacks(color, front);
    proof {
        crate::movegen::lemma_and_nonzero(enemy, threat);
        let f = front_square(color, sq as int);
        assert(f == front as int);
        if enemy & threat != 0 {
            let t = choose|t: int| 0 <= t < 64 && #[trigger] sq_in(enemy, t) && sq_in(threat, t);
            assert(pawn_target(color, f, t));
        } else {
            assert forall|t: int| 0 <= t < 64 && #[trigger] sq_in(enemy, t) implies !pawn_target(color, f, t) by {
                assert(sq_in(threat, t) == pawn_target(color, front as int, t));
            }
        }
    }
    enemy & threat != 0
}

/// Isolated, doubled, connected/supported, backward, and passed pawn terms.
pub fn pawn_structure(position: &Position, color: Color) -> (r: (i32, i32))
    ensures
        position.consistent() ==> r.0 == pawn_structure_spec(position@.board, color, false),
        position.consistent() ==> r.1 == pawn_structure_spec(position@.board, color, true),
        -30000 <= r.0 <= 30000,
        -30000 <= r.1 <= 30000,
{
    let ghost board = position@.board;
    let ghost c = position.consistent();
    let pawns = position.pieces(color, PieceKind::Pawn);
    let enemy = position.pieces(color.opposite(), PieceKind::Pawn);
    let ghost dm = doubled_term(board, color, false);
    let ghost de = doubled_term(board, color, true);
    let mut mg: i32 = 0;
    let mut eg: i32 = 0;
    let mut file: u8 = 0;
    while file < 8
        invariant
            file <= 8,
            c == position.consistent(),
            board == position@.board,
            dm == doubled_term(board, color, false),
            de == doubled_term(board, color, true),
            c ==> forall|s: int| 0 <= s < 64 ==> #[trigger] sq_in(pawns, s) == has(board, s, color, PieceKind::Pawn),
            c ==> mg == square_sum(dm, file as nat),
            c ==> eg == square_sum(de, file as nat),
            -1000 * file <= mg <= 0,
            -1000 * file <= eg <= 0,
        decreases 8 - file,
    {
        let fmask = file_mask(file);
        let on_file = pawns & fmask;
        let count = count_ones(on_file) as i32;
        proof {
            if c {
                lemma_count_is_sum(on_file, 64);
                let g1 = |s: int| if sq_in(on_file, s) { 1int } else { 0int };
                let g2 = |s: int| if has(board, s, color, PieceKind::Pawn) && file_spec(s) == file { 1int } else { 0int };
                assert forall|s: int| 0 <= s < 64 implies #[trigger] g1(s) == g2(s) by {
                    crate::bitboard::lemma_bit_and(pawns, fmask, s as u64);
                    assert(sq_in(fmask, s) == (file_spec(s) == file));
                    assert(sq_in(pawns, s) == has(board, s, color, PieceKind::Pawn));
                    assert(sq_in(on_file, s) == (sq_in(pawns, s) && sq_in(fmask, s)));
                }
                lemma_sum_congr(g1, g2, 64);
                assert(count == pawns_on_file(board, color, file as int));
            }
        }
        if count > 1 {
            mg = mg - DOUBLED_PAWN * (count - 1);
            eg = eg - (DOUBLED_PAWN + 3) * (count - 1);
        }
        proof {
            if c {
                let n = pawns_on_file(board, color, file as int);
                assert(de(file as int) == (if n > 1 { -15 * (n - 1) } else { 0 }));
                assert(dm(file as int) == (if n > 1 { -12 * (n - 1) } else { 0 }));
            }
        }
        file = file + 1;
    }
    let ghost pm = pawn_term(board, color, false);
    let ghost pe = pawn_term(board, color, true);
    let ghost base_mg = mg;
    let ghost base_eg = eg;
    let mut work = pawns;
    let ghost one = |s: int| 1int;
    let ghost mut k: int = 0;
    proof {
        lemma_bits_sum_range(pawns, one, 0, 1);
        pawn_term_range(board, color);
        lemma_bits_sum_range(pawns, pm, -40, 200);
        lemma_bits_sum_range(pawns, pe, -40, 200);
    }
    while work != 0
        invariant
            c == position.consistent(),
            board == position@.board,
            pm == pawn_term(board, color, false),
            pe == pawn_term(board, color, true),
            forall|s: int| 0 <= s < 64 ==> -40 <= #[trigger] pm(s) <= 200,
            forall|s: int| 0 <= s < 64 ==> -40 <= #[trigger] pe(s) <= 200,
            c ==> forall|s: int| 0 <= s < 64 ==> #[trigger] sq_in(pawns, s) == has(board, s, color, PieceKind::Pawn),
            c ==> forall|s: int| 0 <= s < 64 ==> #[trigger] sq_in(enemy, s) == has(board, s, color.opp(), PieceKind::Pawn),
            -8000 <= base_mg <= 0,
            -8000 <= base_eg <= 0,
            (c ==> mg - base_mg + bits_sum(work, pm, 64) == bits_sum(pawns, pm, 64)),
            (c ==> eg - base_eg + bits_sum(work, pe, 64) == bits_sum(pawns, pe, 64)),
            -2560 <= bits_sum(work, pm, 64) <= 12800,
            -2560 <= bits_sum(work, pe, 64) <= 12800,
            -2560 <= bits_sum(pawns, pm, 64) <= 12800,
            -2560 <= bits_sum(pawns, pe, 64) <= 12800,
            one == (|s: int| 1int),
            k + bits_sum(work, one, 64) == bits_sum(pawns, one, 64),
            bits_sum(pawns, one, 64) <= 64,
            0 <= bits_sum(work, one, 64),
            -40 * k <= mg - base_mg <= 200 * k,
            -40 * k <= eg - base_eg <= 200 * k,
        decreases work,
    {
        let ghost before = work;
        let sq = pop_lsb(&mut work);
        let file = file_of(sq);
        let rank = rank_of(sq);
        let adjacent = adjacent_file_mask(file);
        let sup_bb = pawn_attacks(color.opposite(), sq);
        let support = sup_bb & pawns != 0;
        let pass = is_passed(sq, color, enemy);
        let back = is_backward(sq, color, pawns, enemy);
        let isolated = pawns & adjacent == 0;
        let mut dmg: i32 = 0;
        let mut deg: i32 = 0;
        if isolated {
            dmg = dmg - ISOLATED_PAWN;
            deg = deg - ISOLATED_PAWN / 2;
        }
        if support {
            dmg = dmg + CONNECTED_PAWN;
            deg = deg + CONNECTED_PAWN + 2;
        }
        if pass {
            let advance = if color == Color::White { rank } else { 7 - rank };
            dmg = dmg + passed_mg(advance);
            deg = deg + passed_eg(advance);
            if support {
                dmg = dmg + 4;
                deg = deg + 8;
            }
        }
        if back {
            dmg = dmg - BACKWARD_PAWN;
            deg = deg - BACKWARD_PAWN / 2;
        }
        proof {
            lemma_bits_sum_pop(before, work, sq as int, pm, 64);
            lemma_bits_sum_pop(before, work, sq as int, pe, 64);
            lemma_bits_sum_pop(before, work, sq as int, one, 64);
            lemma_bits_sum_range(work, one, 0, 1);
            k = k + 1;
            lemma_bits_sum_range(work, pm, -40, 200);
            lemma_bits_sum_range(work, pe, -40, 200);
            if c {
                let s = sq as int;
                crate::movegen::lemma_and_nonzero(sup_bb, pawns);
                crate::movegen::lemma_and_nonzero(pawns, adjacent);
                if isolated {
                    assert forall|t: int| 0 <= t < 64 && #[trigger] has(board, t, color, PieceKind::Pawn) implies !(file_spec(t) == file_spec(s) - 1 || file_spec(t) == file_spec(s) + 1) by {
                        assert(sq_in(pawns, t));
                    }
                } else {
                    let t = choose|t: int| 0 <= t < 64 && #[trigger] sq_in(pawns, t) && sq_in(adjacent, t);
                    assert(has(board, t, color, PieceKind::Pawn));
                }
                assert(isolated == !adjacent_pawn(board, color, file_spec(s)));
                if support {
                    let t = choose|t: int| 0 <= t < 64 && #[trigger] sq_in(sup_bb, t) && sq_in(pawns, t);
                    assert(has(board, t, color, PieceKind::Pawn));
                } else {
                    assert forall|t: int| 0 <= t < 64 && #[trigger] has(board, t, color, PieceKind::Pawn) implies !pawn_target(color.opp(), s, t) by {
                        assert(sq_in(pawns, t));
                        assert(sq_in(sup_bb, t) == pawn_target(color.opp(), s, t));
                    }
                }
                assert(support == supported(board, color, s));
                if !pass {
                    let t = choose|t: int| 0 <= t < 64 && #[trigger] sq_in(enemy, t) && -1 <= file_spec(t) - file_spec(s) <= 1 && ahead(color, s, t);
                    assert(has(board, t, color.opp(), PieceKind::Pawn));
                } else {
                    assert forall|t: int| 0 <= t < 64 && #[trigger] has(board, t, color.opp(), PieceKind::Pawn) implies !(-1 <= file_spec(t) - file_spec(s) <= 1 && ahead(color, s, t)) by {
                        assert(sq_in(enemy, t));
                    }
                }
                assert(pass == passed(board, color, s));
                if exists|t: int| 0 <= t < 64 && #[trigger] sq_in(pawns, t) && pawn_target(color.opp(), s, t) {
                    let t = choose|t: int| 0 <= t < 64 && #[trigger] sq_in(pawns, t) && pawn_target(color.opp(), s, t);
                    assert(has(board, t, color, PieceKind::Pawn));
                } else {
                    assert forall|t: int| 0 <= t < 64 && #[trigger] has(board, t, color, PieceKind::Pawn) implies !pawn_target(color.opp(), s, t) by {
                        assert(sq_in(pawns, t));
                    }
                }
                let f = front_square(color, s);
                if exists|t: int| 0 <= t < 64 && #[trigger] sq_in(enemy, t) && pawn_target(color, f, t) {
                    let t = choose|t: int| 0 <= t < 64 && #[trigger] sq_in(enemy, t) && pawn_target(color, f, t);
                    assert(has(board, t, color.opp(), PieceKind::Pawn));
                } else {
                    assert forall|t: int| 0 <= t < 64 && #[trigger] has(board, t, color.opp(), PieceKind::Pawn) implies !pawn_target(color, f, t) by {
                        assert(sq_in(enemy, t));
                    }
                }
                assert(back == backward(board, color, s));
                assert(dmg == pm(s));
                assert(deg == pe(s));
            }
        }
        mg = mg + dmg;
        eg = eg + deg;
    }
    proof {
        lemma_bits_sum_empty(pm, 64);
        lemma_bits_sum_empty(pe, 64);
        if c {
            lemma_kind_sum_bits(board, color, PieceKind::Pawn, pawns, pm);
            lemma_kind_sum_bits(board, color, PieceKind::Pawn, pawns, pe);
        }
    }
    (mg, eg)
}

/// `t` holds a piece of `color`.
pub open spec fn own(board: Seq<Option<Piece>>, color: Color, t: int) -> bool {
    board[t] matches Some(p) && p.color == color
}

/// The squares a `color` `kind` on `s` attacks that do not hold a piece of
/// its own.
pub open spec fn reach(board: Seq<Option<Piece>>, color: Color, kind: PieceKind, s: int) -> int {
    square_sum(
        |t: int|
            if piece_attacks(Piece { color, kind }, s, t, occupancy_of(board)) && !own(board, color, t) { 1int } else { 0int },
        64,
    )
}

pub open spec fn mobility_term(board: Seq<Option<Piece>>, color: Color, kind: PieceKind, endgame: bool) -> spec_fn(int) -> int {
    |s: int| reach(board, color, kind, s) * (if endgame { mobility_eg_spec(kind) } else { mobility_mg_spec(kind) })
}

/// Weighted counts of the squares each knight, bishop, rook, and queen
/// reaches.
pub open spec fn mobility_spec(board: Seq<Option<Piece>>, color: Color, endgame: bool) -> int {
    kind_sum(board, color, PieceKind::Knight, mobility_term(board, color, PieceKind::Knight, endgame)) + kind_sum(
        board,
        color,
        PieceKind::Bishop,
        mobility_term(board, color, PieceKind::Bishop, endgame),
    ) + kind_sum(board, color, PieceKind::Rook, mobility_term(board, color, PieceKind::Rook, endgame)) + kind_sum(
        board,
        color,
        PieceKind::Queen,
        mobility_term(board, color, PieceKind::Queen, endgame),
    )
}

/// The attack set of a `color` `kind` on `sq`, for a slider with `occ` as
/// blockers.
fn attack_set(color: Color, kind: PieceKind, sq: Square, occ: u64) -> (r: u64)
    requires
        sq < 64,
    ensures
        forall|t: int| 0 <= t < 64 ==> #[trigger] sq_in(r, t) == piece_attacks(Piece { color, kind }, sq as int, t, occ),
{
    match kind {
        PieceKind::Pawn => pawn_attacks(color, sq),
        PieceKind::Knight => knight_attacks(sq),
        PieceKind::Bishop => bishop_attacks(sq, occ),
        PieceKind::Rook => rook_attacks(sq, occ),
        PieceKind::Queen => queen_attacks(sq, occ),
        PieceKind::King => king_attacks(sq),
    }
}

fn piece_reach(position: &Position, color: Color, kind: PieceKind, sq: Square) -> (r: i32)
    requires
        sq < 64,
    ensures
        position.consistent() ==> r == reach(position@.board, color, kind, sq as int),
        0 <= r <= 64,
{
    let own_bb = position.occupancy(color);
    let occ = position.all_occupancy();
    let a = attack_set(color, kind, sq, occ);
    let x = a & !own_bb;
    let n = count_ones(x);
    proof {
        if position.consistent() {
            let board = position@.board;
            lemma_count_is_sum(x, 64);
            let g1 = |t: int| if sq_in(x, t) { 1int } else { 0int };
            let g2 = |t: int|
                if piece_attacks(Piece { color, kind }, sq as int, t, occupancy_of(board)) && !own(board, color, t) { 1int } else { 0int };
            assert forall|t: int| 0 <= t < 64 implies #[trigger] g1(t) == g2(t) by {
                crate::bitboard::lemma_bit_and(a, !own_bb, t as u64);
                crate::bitboard::lemma_bit_not(own_bb, t as u64);
                assert(sq_in(a, t) == piece_attacks(Piece { color, kind }, sq as int, t, occ));
                assert(sq_in(own_bb, t) == own(board, color, t));
            }
            lemma_sum_congr(g1, g2, 64);
        }
    }
    n as i32
}

proof fn lemma_reach_range(board: Seq<Option<Piece>>, color: Color, kind: PieceKind, s: int)
    ensures
        0 <= reach(board, color, kind, s) <= 64,
{
    let g = |t: int| if piece_attacks(Piece { color, kind }, s, t, occupancy_of(board)) && !own(board, color, t) { 1int } else { 0int };
    assert forall|t: int| 0 <= t < 64 implies 0 <= #[trigger] g(t) <= 1 by {}
    crate::eval::sums::lemma_sum_bound(g, 64, 0, 1);
}

fn kind_mobility(position: &Position, color: Color, kind: PieceKind) -> (r: (i32, i32))
    ensures
        position.consistent() ==> r.0 == kind_sum(position@.board, color, kind, mobility_term(position@.board, color, kind, false)),
        position.consistent() ==> r.1 == kind_sum(position@.board, color, kind, mobility_term(position@.board, color, kind, true)),
        0 <= r.0 <= 16384,
        0 <= r.1 <= 16384,
{
    let ghost board = position@.board;
    let ghost c = position.consistent();
    let ghost fm = mobility_term(board, color, kind, false);
    let ghost fe = mobility_term(board, color, kind, true);
    let pieces = position.pieces(color, kind);
    let wm = mobility_mg(kind);
    let we = mobility_eg(kind);
    let mut work = pieces;
    let mut mg: i32 = 0;
    let mut eg: i32 = 0;
    let ghost one = |s: int| 1int;
    let ghost mut k: int = 0;
    proof {
        lemma_bits_sum_range(pieces, one, 0, 1);
        assert forall|s: int| 0 <= s < 64 implies 0 <= #[trigger] fm(s) <= 256 by {
            lemma_reach_range(board, color, kind, s);
        }
        assert forall|s: int| 0 <= s < 64 implies 0 <= #[trigger] fe(s) <= 256 by {
            lemma_reach_range(board, color, kind, s);
        }
    }
    while work != 0
        invariant
            c == position.consistent(),
            board == position@.board,
            fm == mobility_term(board, color, kind, false),
            fe == mobility_term(board, color, kind, true),
            wm == mobility_mg_spec(kind),
            we == mobility_eg_spec(kind),
            0 <= wm <= 4,
            0 <= we <= 3,
            one == (|s: int| 1int),
            k + bits_sum(work, one, 64) == bits_sum(pieces, one, 64),
            bits_sum(pieces, one, 64) <= 64,
            0 <= bits_sum(work, one, 64),
            0 <= mg <= 256 * k,
            0 <= eg <= 256 * k,
            c ==> mg + bits_sum(work, fm, 64) == bits_sum(pieces, fm, 64),
            c ==> eg + bits_sum(work, fe, 64) == bits_sum(pieces, fe, 64),
        decreases work,
    {
        let ghost before = work;
        let sq = pop_lsb(&mut work);
        let n = piece_reach(position, color, kind, sq);
        proof {
            lemma_bits_sum_pop(before, work, sq as int, one, 64);
            lemma_bits_sum_range(work, one, 0, 1);
            lemma_bits_sum_pop(before, work, sq as int, fm, 64);
            lemma_bits_sum_pop(before, work, sq as int, fe, 64);
            k = k + 1;
            assert(0 <= n * wm <= 256) by (nonlinear_arith)
                requires
                    0 <= n <= 64,
                    0 <= wm <= 4,
            ;
            assert(0 <= n * we <= 256) by (nonlinear_arith)
                requires
                    0 <= n <= 64,
                    0 <= we <= 3,
            ;
        }
        mg = mg + n * wm;
        eg = eg + n * we;
    }
    proof {
        lemma_bits_sum_empty(fm, 64);
        lemma_bits_sum_empty(fe, 64);
        if c {
            lemma_kind_sum_bits(board, color, kind, pieces, fm);
            lemma_kind_sum_bits(board, color, kind, pieces, fe);
        }
    }
    (mg, eg)
}

pub fn mobility(position: &Position, color: Color) -> (r: (i32, i32))
    ensures
        position.consistent() ==> r.0 == mobility_spec(position@.board, color, false),
        position.consistent() ==> r.1 == mobility_spec(position@.board, color, true),
        0 <= r.0 <= 4 * 16384,
        0 <= r.1 <= 4 * 16384,
{
    let (m1, e1) = kind_mobility(position, color, PieceKind::Knight);
    let (m2, e2) = kind_mobility(position, color, PieceKind::Bishop);
    let (m3, e3) = kind_mobility(position, color, PieceKind::Rook);
    let (m4, e4) = kind_mobility(position, color, PieceKind::Queen);
    (m1 + m2 + m3 + m4, e1 + e2 + e3 + e4)
}

/// An open file (no pawns) or a half-open one (no own pawns) for a rook on `s`.
pub open spec fn rook_term(board: Seq<Option<Piece>>, color: Color) -> spec_fn(int) -> int {
    |s: int|
        if pawns_on_file(board, Color::White, file_spec(s)) == 0 && pawns_on_file(board, Color::Black, file_spec(s)) == 0 {
            ROOK_OPEN_FILE as int
        } else if pawns_on_file(board, color, file_spec(s)) == 0 {
            ROOK_SEMIOPEN_FILE as int
        } else {
            0
        }
}

pub open spec fn rook_files_spec(board: Seq<Option<Piece>>, color: Color) -> int {
    kind_sum(board, color, PieceKind::Rook, rook_term(board, color))
}

/// The number of a bitboard's squares on file `f`, counted as pawns.
proof fn lemma_no_pawns_on_file(board: Seq<Option<Piece>>, color: Color, b: u64, f: int)
    requires
        forall|s: int| 0 <= s < 64 ==> #[trigger] sq_in(b, s) == (has(board, s, color, PieceKind::Pawn) && file_spec(s) == f),
    ensures
        (b == 0) == (pawns_on_file(board, color, f) == 0),
{
    lemma_count_is_sum(b, 64);
    let g1 = |s: int| if sq_in(b, s) { 1int } else { 0int };
    let g2 = |s: int| if has(board, s, color, PieceKind::Pawn) && file_spec(s) == f { 1int } else { 0int };
    assert forall|s: int| 0 <= s < 64 implies #[trigger] g1(s) == g2(s) by {}
    lemma_sum_congr(g1, g2, 64);
    if b == 0 {
        assert forall|s: int| 0 <= s < 64 implies 0 <= #[trigger] g1(s) <= 0 by {
            crate::bitboard::lemma_bit_zero(s as u64);
        }
        crate::eval::sums::lemma_sum_bound(g1, 64, 0, 0);
    } else {
        crate::bitboard::lemma_trailing_zeros(b);
        let t = b.trailing_zeros() as int;
        assert(sq_in(b, t));
        assert forall|s: int| 0 <= s < 64 implies 0 <= #[trigger] g1(s) by {}
        crate::eval::sums::lemma_sum_positive(g1, 64, t);
    }
}

/// Open and half-open file bonuses of `color`'s rooks; the endgame share is
/// half the middlegame one.
pub fn rook_files(position: &Position, color: Color) -> (r: (i32, i32))
    ensures
        position.consistent() ==> r.0 == rook_files_spec(position@.board, color),
        r.1 == r.0 / 2,
        0 <= r.0 <= 64 * 22,
{
    let ghost board = position@.board;
    let ghost c = position.consistent();
    let ghost f = rook_term(board, color);
    let own_pawns = position.pieces(color, PieceKind::Pawn);
    let other_pawns = position.pieces(color.opposite(), PieceKind::Pawn);
    let all_pawns = own_pawns | other_pawns;
    let rooks = position.pieces(color, PieceKind::Rook);
    let mut work = rooks;
    let mut mg: i32 = 0;
    let ghost one = |s: int| 1int;
    let ghost mut k: int = 0;
    proof {
        lemma_bits_sum_range(rooks, one, 0, 1);
    }
    while work != 0
        invariant
            c == position.consistent(),
            board == position@.board,
            f == rook_term(board, color),
            c ==> forall|s: int| 0 <= s < 64 ==> #[trigger] sq_in(own_pawns, s) == has(board, s, color, PieceKind::Pawn),
            c ==> forall|s: int| 0 <= s < 64 ==> #[trigger] sq_in(other_pawns, s) == has(board, s, color.opp(), PieceKind::Pawn),
            all_pawns == own_pawns | other_pawns,
            one == (|s: int| 1int),
            k + bits_sum(work, one, 64) == bits_sum(rooks, one, 64),
            bits_sum(rooks, one, 64) <= 64,
            0 <= bits_sum(work, one, 64),
            0 <= mg <= 22 * k,
            c ==> mg + bits_sum(work, f, 64) == bits_sum(rooks, f, 64),
        decreases work,
    {
        let ghost before = work;
        let sq = pop_lsb(&mut work);
        let file = file_of(sq);
        let fmask = file_mask(file);
        let on_all = all_pawns & fmask;
        let on_own = own_pawns & fmask;
        let term: i32 = if on_all == 0 {
            ROOK_OPEN_FILE
        } else if on_own == 0 {
            ROOK_SEMIOPEN_FILE
        } else {
            0
        };
        proof {
            lemma_bits_sum_pop(before, work, sq as int, one, 64);
            lemma_bits_sum_range(work, one, 0, 1);
            lemma_bits_sum_pop(before, work, sq as int, f, 64);
            k = k + 1;
            if c {
                let opp = color.opp();
                let ff = file as int;
                let wp = if color == Color::White { own_pawns } else { other_pawns };
                let bp = if color == Color::White { other_pawns } else { own_pawns };
                let wf = wp & fmask;
                let bf = bp & fmask;
                assert forall|s: int| 0 <= s < 64 implies #[trigger] sq_in(on_own, s) == (has(board, s, color, PieceKind::Pawn) && file_spec(s) == ff) by {
                    crate::bitboard::lemma_bit_and(own_pawns, fmask, s as u64);
                    assert(sq_in(fmask, s) == (file_spec(s) == ff));
                    assert(sq_in(own_pawns, s) == has(board, s, color, PieceKind::Pawn));
                    assert(sq_in(on_own, s) == (sq_in(own_pawns, s) && sq_in(fmask, s)));
                }
                lemma_no_pawns_on_file(board, color, on_own, ff);
                assert forall|s: int| 0 <= s < 64 implies #[trigger] sq_in(wf, s) == (has(board, s, Color::White, PieceKind::Pawn) && file_spec(s) == ff) by {
                    crate::bitboard::lemma_bit_and(wp, fmask, s as u64);
                    assert(sq_in(fmask, s) == (file_spec(s) == ff));
                    assert(sq_in(own_pawns, s) == has(board, s, color, PieceKind::Pawn));
                    assert(sq_in(other_pawns, s) == has(board, s, opp, PieceKind::Pawn));
                    assert(sq_in(wf, s) == (sq_in(wp, s) && sq_in(fmask, s)));
                }
                assert forall|s: int| 0 <= s < 64 implies #[trigger] sq_in(bf, s) == (has(board, s, Color::Black, PieceKind::Pawn) && file_spec(s) == ff) by {
                    crate::bitboard::lemma_bit_and(bp, fmask, s as u64);
                    assert(sq_in(fmask, s) == (file_spec(s) == ff));
                    assert(sq_in(own_pawns, s) == has(board, s, color, PieceKind::Pawn));
                    assert(sq_in(other_pawns, s) == has(board, s, opp, PieceKind::Pawn));
                    assert(sq_in(bf, s) == (sq_in(bp, s) && sq_in(fmask, s)));
                }
                lemma_no_pawns_on_file(board, Color::White, wf, ff);
                lemma_no_pawns_on_file(board, Color::Black, bf, ff);
                assert forall|s: int| 0 <= s < 64 implies #[trigger] sq_in(on_all, s) == (sq_in(wf, s) || sq_in(bf, s)) by {
                    crate::bitboard::lemma_bit_and(all_pawns, fmask, s as u64);
                    crate::bitboard::lemma_bit_or(own_pawns, other_pawns, s as u64);
                    crate::bitboard::lemma_bit_and(wp, fmask, s as u64);
                    crate::bitboard::lemma_bit_and(bp, fmask, s as u64);
                }
                lemma_zero_iff_empty(on_all);
                lemma_zero_iff_empty(wf);
                lemma_zero_iff_empty(bf);
                if on_all == 0 {
                    assert forall|s: int| 0 <= s < 64 implies !#[trigger] sq_in(wf, s) by {
                        assert(!sq_in(on_all, s));
                    }
                    assert forall|s: int| 0 <= s < 64 implies !#[trigger] sq_in(bf, s) by {
                        assert(!sq_in(on_all, s));
                    }
                } else if wf == 0 && bf == 0 {
                    assert forall|s: int| 0 <= s < 64 implies !#[trigger] sq_in(on_all, s) by {
                        assert(!sq_in(wf, s) && !sq_in(bf, s));
                    }
                }
                assert(term == f(sq as int));
            }
        }
        mg = mg + term;
    }
    proof {
        lemma_bits_sum_empty(f, 64);
        if c {
            lemma_kind_sum_bits(board, color, PieceKind::Rook, rooks, f);
        }
    }
    (mg, mg / 2)
}

/// A bitboard is zero exactly when it holds no square.
proof fn lemma_zero_iff_empty(b: u64)
    ensures
        (b == 0) == forall|s: int| 0 <= s < 64 ==> !#[trigger] sq_in(b, s),
{
    if b == 0 {
        assert forall|s: int| 0 <= s < 64 implies !#[trigger] sq_in(b, s) by {
            crate::bitboard::lemma_bit_zero(s as u64);
        }
    } else {
        crate::bitboard::lemma_trailing_zeros(b);
    }
}

/// The bishop pair bonus: two or more bishops.
pub fn bishop_pair(position: &Position, color: Color) -> (r: (i32, i32))
    ensures
        position.consistent() ==> r == (if piece_count(position@.board, color, PieceKind::Bishop) >= 2 {
            (BISHOP_PAIR_MG, BISHOP_PAIR_EG)
        } else {
            (0i32, 0i32)
        }),
        r == (BISHOP_PAIR_MG, BISHOP_PAIR_EG) || r == (0i32, 0i32),
{
    if count_kind(position, color, PieceKind::Bishop) >= 2 {
        (BISHOP_PAIR_MG, BISHOP_PAIR_EG)
    } else {
        (0, 0)
    }
}

/// A piece of `by` other than the king attacks `sq`.
pub open spec fn attacked_without_king(board: Seq<Option<Piece>>, sq: int, by: Color) -> bool {
    exists|from: int|
        0 <= from < 64 && (#[trigger] board[from] matches Some(p) && p.color == by && p.kind != PieceKind::King && piece_attacks(
            p,
            from,
            sq,
            occupancy_of(board),
        ))
}

fn square_attacked_by(position: &Position, sq: Square, color: Color) -> (r: bool)
    requires
        sq < 64,
    ensures
        position.consistent() ==> r == attacked_without_king(position@.board, sq as int, color),
{
    let ghost board = position@.board;
    let ghost s = sq as int;
    let ghost c = position.consistent();
    let occ = position.all_occupancy();
    let pawns = pawn_attacks(color.opposite(), sq);
    let pw = position.pieces(color, PieceKind::Pawn);
    let knights = knight_attacks(sq);
    let kn = position.pieces(color, PieceKind::Knight);
    let diag = bishop_attacks(sq, occ);
    let bb = position.pieces(color, PieceKind::Bishop);
    let qb = position.pieces(color, PieceKind::Queen);
    let bq = bb | qb;
    let orth = rook_attacks(sq, occ);
    let rb = position.pieces(color, PieceKind::Rook);
    let rq = rb | qb;
    let r = (pawns & pw) != 0 || (knights & kn) != 0 || (diag & bq) != 0 || (orth & rq) != 0;
    proof {
        if c {
            crate::movegen::lemma_and_nonzero(pawns, pw);
            crate::movegen::lemma_and_nonzero(knights, kn);
            crate::movegen::lemma_and_nonzero(diag, bq);
            crate::movegen::lemma_and_nonzero(orth, rq);
            let o = occupancy_of(board);
            assert(occ == o);
            assert forall|t: int| 0 <= t < 64 implies #[trigger] sq_in(bq, t) == (board[t] == Some(Piece { color, kind: PieceKind::Bishop }) || board[t] == Some(Piece { color, kind: PieceKind::Queen })) by {
                crate::bitboard::lemma_bit_or(bb, qb, t as u64);
                assert(sq_in(bq, t) == (sq_in(bb, t) || sq_in(qb, t)));
            }
            assert forall|t: int| 0 <= t < 64 implies #[trigger] sq_in(rq, t) == (board[t] == Some(Piece { color, kind: PieceKind::Rook }) || board[t] == Some(Piece { color, kind: PieceKind::Queen })) by {
                crate::bitboard::lemma_bit_or(rb, qb, t as u64);
                assert(sq_in(rq, t) == (sq_in(rb, t) || sq_in(qb, t)));
            }
            if attacked_without_king(board, s, color) {
                let from = choose|from: int|
                    0 <= from < 64 && (#[trigger] board[from] matches Some(p) && p.color == color && p.kind != PieceKind::King && piece_attacks(p, from, s, o));
                let p = board[from].unwrap();
                crate::movegen::lemma_leaper_symmetric(from, s, color);
                crate::movegen::lemma_slider_symmetric(from, o, s);
                match p.kind {
                    PieceKind::Pawn => { assert(sq_in(pawns, from) && sq_in(pw, from)); },
                    PieceKind::Knight => { assert(sq_in(knights, from) && sq_in(kn, from)); },
                    PieceKind::Bishop => { assert(sq_in(diag, from) && sq_in(bq, from)); },
                    PieceKind::Rook => { assert(sq_in(orth, from) && sq_in(rq, from)); },
                    PieceKind::Queen => {
                        if crate::movegen::rook_target(from, o, s) {
                            assert(sq_in(orth, from) && sq_in(rq, from));
                        } else {
                            assert(sq_in(diag, from) && sq_in(bq, from));
                        }
                    },
                    PieceKind::King => {},
                }
            }
            if r {
                let t = if (pawns & pw) != 0 {
                    choose|t: int| 0 <= t < 64 && #[trigger] sq_in(pawns, t) && sq_in(pw, t)
                } else if (knights & kn) != 0 {
                    choose|t: int| 0 <= t < 64 && #[trigger] sq_in(knights, t) && sq_in(kn, t)
                } else if (diag & bq) != 0 {
                    choose|t: int| 0 <= t < 64 && #[trigger] sq_in(diag, t) && sq_in(bq, t)
                } else {
                    choose|t: int| 0 <= t < 64 && #[trigger] sq_in(orth, t) && sq_in(rq, t)
                };
                crate::movegen::lemma_leaper_symmetric(t, s, color);
                crate::movegen::lemma_slider_symmetric(t, o, s);
                assert(board[t] matches Some(p) && p.color == color && p.kind != PieceKind::King && piece_attacks(p, t, s, o));
            }
        }
    }
    r
}

/// The sixteen central squares: files c to f, ranks 3 to 6.
pub open spec fn central(s: int) -> bool {
    2 <= file_spec(s) <= 5 && 2 <= rank_spec(s) <= 5
}

pub open spec fn space_spec(board: Seq<Option<Piece>>, color: Color) -> int {
    square_sum(|s: int| if central(s) && attacked_without_king(board, s, color) { SPACE_MG as int } else { 0int }, 64)
}

/// A bonus for each central square a non-king piece of `color` attacks.
pub fn space(position: &Position, color: Color) -> (r: i32)
    ensures
        position.consistent() ==> r == space_spec(position@.board, color),
        0 <= r <= 64 * 5,
{
    let ghost board = position@.board;
    let ghost g = |s: int| if central(s) && attacked_without_king(board, s, color) { SPACE_MG as int } else { 0int };
    let mut result: i32 = 0;
    let mut sq: u8 = 0;
    while sq < 64
        invariant
            sq <= 64,
            board == position@.board,
            g == (|s: int| if central(s) && attacked_without_king(board, s, color) { SPACE_MG as int } else { 0int }),
            position.consistent() ==> result == square_sum(g, sq as nat),
            0 <= result <= 5 * sq,
        decreases 64 - sq,
    {
        let f = file_of(sq);
        let r = rank_of(sq);
        if 2 <= f && f <= 5 && 2 <= r && r <= 5 {
            if square_attacked_by(position, sq, color) {
                result = result + SPACE_MG;
            }
        }
        sq = sq + 1;
    }
    result
}

/// Distance of `s` from the four central squares, in files plus ranks.
pub open spec fn center_distance(s: int) -> int {
    let f = file_spec(s);
    let r = rank_spec(s);
    let df = if f <= 3 { 3 - f } else { f - 4 };
    let dr = if r <= 3 { 3 - r } else { r - 4 };
    df + dr
}

pub open spec fn king_activity_spec(board: Seq<Option<Piece>>, color: Color) -> int {
    match crate::movegen::king_square_spec(board, color) {
        Some(k) => (if 4 - center_distance(k) > 0 { 4 - center_distance(k) } else { 0 }) * KING_CENTER_EG,
        None => -10_000,
    }
}

/// An endgame bonus for a king near the centre.
pub fn king_activity(position: &Position, color: Color) -> (r: i32)
    ensures
        position.consistent() ==> r == king_activity_spec(position@.board, color),
        -10_000 <= r <= 28,
{
    match position.king_square(color) {
        Some(sq) => {
            proof {
                if position.consistent() {
                    crate::movegen::lemma_king_square(position@.board, color, sq as int);
                }
            }
            let f = file_of(sq) as i32;
            let r = rank_of(sq) as i32;
            let df = if f <= 3 { 3 - f } else { f - 4 };
            let dr = if r <= 3 { 3 - r } else { r - 4 };
            let d = df + dr;
            let near = if 4 - d > 0 { 4 - d } else { 0 };
            near * KING_CENTER_EG
        },
        None => {
            proof {
                if position.consistent() {
                    crate::movegen::lemma_no_king(position@.board, color);
                }
            }
            -10_000
        },
    }
}

/// The square in front of the king on file offset `df`, toward the enemy.
pub open spec fn shield_square(color: Color, k: int, df: int) -> Option<int> {
    let f = file_spec(k) + df;
    let r = rank_spec(k) + (if color == Color::White { 1int } else { -1int });
    if 0 <= f < 8 && 0 <= r < 8 { Some(r * 8 + f) } else { None }
}

pub open spec fn shield_bonus(board: Seq<Option<Piece>>, color: Color, k: int, df: int) -> int {
    match shield_square(color, k, df) {
        Some(t) => if has(board, t, color, PieceKind::Pawn) { KING_SHIELD as int } else { 0 },
        None => 0,
    }
}

pub open spec fn open_file_penalty(board: Seq<Option<Piece>>, color: Color, k: int, df: int) -> int {
    let f = file_spec(k) + df;
    if 0 <= f < 8 && pawns_on_file(board, color, f) == 0 { KING_OPEN_FILE as int } else { 0 }
}

/// How much an attack on the king's zone by a piece of `kind` weighs.
pub open spec fn attack_weight(kind: PieceKind) -> int {
    match kind {
        PieceKind::Queen => 4,
        PieceKind::Rook => 3,
        PieceKind::Bishop => 2,
        PieceKind::Knight => 2,
        PieceKind::Pawn => 1,
        PieceKind::King => 0,
    }
}

/// A `by` `kind` on `s` attacks the king square `k` or a square next to it.
pub open spec fn hits_zone(board: Seq<Option<Piece>>, by: Color, kind: PieceKind, s: int, k: int) -> bool {
    exists|t: int| 0 <= t < 64 && (king_target(k, t) || t == k) && #[trigger] piece_attacks(Piece { color: by, kind }, s, t, occupancy_of(board))
}

pub open spec fn zone_term(board: Seq<Option<Piece>>, by: Color, kind: PieceKind, k: int) -> spec_fn(int) -> int {
    |s: int| if hits_zone(board, by, kind, s, k) { attack_weight(kind) } else { 0 }
}

/// Weighted count of the enemy pieces attacking the zone of `color`'s king on `k`.
pub open spec fn attack_units(board: Seq<Option<Piece>>, color: Color, k: int) -> int {
    let e = color.opp();
    kind_sum(board, e, PieceKind::Pawn, zone_term(board, e, PieceKind::Pawn, k)) + kind_sum(board, e, PieceKind::Knight, zone_term(board, e, PieceKind::Knight, k))
        + kind_sum(board, e, PieceKind::Bishop, zone_term(board, e, PieceKind::Bishop, k)) + kind_sum(board, e, PieceKind::Rook, zone_term(board, e, PieceKind::Rook, k))
        + kind_sum(board, e, PieceKind::Queen, zone_term(board, e, PieceKind::Queen, k))
}

/// Pawn shield, open files next to the king, and attacks on its zone; a
/// side without a king scores a large penalty.
pub open spec fn king_safety_spec(board: Seq<Option<Piece>>, color: Color) -> (int, int) {
    match crate::movegen::king_square_spec(board, color) {
        None => (-10_000, -10_000),
        Some(k) => (shield_bonus(board, color, k, -1) + shield_bonus(board, color, k, 0) + shield_bonus(board, color, k, 1)
            - open_file_penalty(board, color, k, -1) - open_file_penalty(board, color, k, 0) - open_file_penalty(board, color, k, 1)
            - KING_ATTACK_UNIT * attack_units(board, color, k), 0),
    }
}

fn shield_at(position: &Position, color: Color, king: Square, df: i8) -> (r: i32)
    requires
        king < 64,
        -1 <= df <= 1,
    ensures
        position.consistent() ==> r == shield_bonus(position@.board, color, king as int, df as int),
        0 <= r <= 12,
{
    let f = file_of(king) as i8 + df;
    let r = rank_of(king) as i8 + if color == Color::White { 1 } else { -1 };
    if 0 <= f && f < 8 && 0 <= r && r < 8 {
        let t = (r * 8 + f) as u8;
        match position.piece_at(t) {
            Some(p) => if p.color == color && p.kind == PieceKind::Pawn { KING_SHIELD } else { 0 },
            None => 0,
        }
    } else {
        0
    }
}

fn open_at(position: &Position, color: Color, king: Square, df: i8) -> (r: i32)
    requires
        king < 64,
        -1 <= df <= 1,
    ensures
        position.consistent() ==> r == open_file_penalty(position@.board, color, king as int, df as int),
        0 <= r <= 18,
{
    let f = file_of(king) as i8 + df;
    if 0 <= f && f < 8 {
        let pawns = position.pieces(color, PieceKind::Pawn);
        let fm = file_mask(f as u8);
        let on = pawns & fm;
        proof {
            if position.consistent() {
                assert forall|s: int| 0 <= s < 64 implies #[trigger] sq_in(on, s) == (has(position@.board, s, color, PieceKind::Pawn) && file_spec(s) == f) by {
                    crate::bitboard::lemma_bit_and(pawns, fm, s as u64);
                    assert(sq_in(fm, s) == (file_spec(s) == f));
                    assert(sq_in(pawns, s) == has(position@.board, s, color, PieceKind::Pawn));
                }
                lemma_no_pawns_on_file(position@.board, color, on, f as int);
            }
        }
        if on == 0 { KING_OPEN_FILE } else { 0 }
    } else {
        0
    }
}

fn attack_weight_of(kind: PieceKind) -> (r: i32)
    ensures
        r == attack_weight(kind),
{
    match kind {
        PieceKind::Queen => 4,
        PieceKind::Rook => 3,
        PieceKind::Bishop => 2,
        PieceKind::Knight => 2,
        PieceKind::Pawn => 1,
        PieceKind::King => 0,
    }
}

/// Attack units of the `by` `kind` pieces against the zone of the king on `king`.
fn zone_units(position: &Position, by: Color, kind: PieceKind, king: Square) -> (r: i32)
    requires
        king < 64,
    ensures
        position.consistent() ==> r == kind_sum(position@.board, by, kind, zone_term(position@.board, by, kind, king as int)),
        0 <= r <= 256,
{
    let ghost board = position@.board;
    let ghost c = position.consistent();
    let ghost f = zone_term(board, by, kind, king as int);
    let occ = position.all_occupancy();
    let around = king_attacks(king);
    let here = crate::bitboard::bit(king);
    let zone = around | here;
    let w = attack_weight_of(kind);
    let pieces = position.pieces(by, kind);
    let mut work = pieces;
    let mut units: i32 = 0;
    let ghost one = |s: int| 1int;
    let ghost mut k: int = 0;
    proof {
        lemma_bits_sum_range(pieces, one, 0, 1);
        assert forall|t: int| 0 <= t < 64 implies #[trigger] sq_in(zone, t) == (king_target(king as int, t) || t == king as int) by {
            crate::bitboard::lemma_bit_or(around, here, t as u64);
            assert(sq_in(around, t) == king_target(king as int, t));
            assert(sq_in(here, t) == (t == king as int));
            assert(sq_in(zone, t) == (sq_in(around, t) || sq_in(here, t)));
        }
    }
    while work != 0
        invariant
            c == position.consistent(),
            board == position@.board,
            f == zone_term(board, by, kind, king as int),
            king < 64,
            c ==> occ == occupancy_of(board),
            forall|t: int| 0 <= t < 64 ==> #[trigger] sq_in(zone, t) == (king_target(king as int, t) || t == king as int),
            w == attack_weight(kind),
            0 <= w <= 4,
            one == (|s: int| 1int),
            k + bits_sum(work, one, 64) == bits_sum(pieces, one, 64),
            bits_sum(pieces, one, 64) <= 64,
            0 <= bits_sum(work, one, 64),
            0 <= units <= 4 * k,
            c ==> units + bits_sum(work, f, 64) == bits_sum(pieces, f, 64),
        decreases work,
    {
        let ghost before = work;
        let sq = pop_lsb(&mut work);
        let a = attack_set(by, kind, sq, occ);
        let hit = a & zone != 0;
        proof {
            lemma_bits_sum_pop(before, work, sq as int, one, 64);
            lemma_bits_sum_range(work, one, 0, 1);
            lemma_bits_sum_pop(before, work, sq as int, f, 64);
            k = k + 1;
            if c {
                crate::movegen::lemma_and_nonzero(a, zone);
                if hit {
                    let t = choose|t: int| 0 <= t < 64 && #[trigger] sq_in(a, t) && sq_in(zone, t);
                    assert(piece_attacks(Piece { color: by, kind }, sq as int, t, occupancy_of(board)));
                } else {
                    assert forall|t: int| 0 <= t < 64 && (king_target(king as int, t) || t == king as int) implies !#[trigger] piece_attacks(Piece { color: by, kind }, sq as int, t, occupancy_of(board)) by {
                        assert(sq_in(zone, t));
                        assert(sq_in(a, t) == piece_attacks(Piece { color: by, kind }, sq as int, t, occ));
                    }
                }
                assert((if hit { w } else { 0 }) == f(sq as int));
            }
        }
        if hit {
            units = units + w;
        }
    }
    proof {
        lemma_bits_sum_empty(f, 64);
        if c {
            lemma_kind_sum_bits(board, by, kind, pieces, f);
        }
    }
    units
}

/// Pawn shield, open files next to the king, and enemy attacks on the
/// king's zone.
pub fn king_safety(position: &Position, color: Color) -> (r: (i32, i32))
    ensures
        position.consistent() ==> r.0 == king_safety_spec(position@.board, color).0,
        position.consistent() ==> r.1 == king_safety_spec(position@.board, color).1,
        -10_000 <= r.0 <= 36,
        -10_000 <= r.1 <= 0,
{
    let king = match position.king_square(color) {
        Some(s) => s,
        None => {
            proof {
                if position.consistent() {
                    crate::movegen::lemma_no_king(position@.board, color);
                }
            }
            return (-10_000, -10_000);
        },
    };
    proof {
        if position.consistent() {
            crate::movegen::lemma_king_square(position@.board, color, king as int);
        }
    }
    let mut mg: i32 = shield_at(position, color, king, -1) + shield_at(position, color, king, 0) + shield_at(position, color, king, 1);
    mg = mg - open_at(position, color, king, -1) - open_at(position, color, king, 0) - open_at(position, color, king, 1);
    let enemy = color.opposite();
    let attacks = zone_units(position, enemy, PieceKind::Pawn, king) + zone_units(position, enemy, PieceKind::Knight, king)
        + zone_units(position, enemy, PieceKind::Bishop, king) + zone_units(position, enemy, PieceKind::Rook, king)
        + zone_units(position, enemy, PieceKind::Queen, king);
    mg = mg - attacks * KING_ATTACK_UNIT;
    (mg, 0)
}

/// Middlegame score of one side: every term of its pieces.
pub open spec fn side_mg(board: Seq<Option<Piece>>, color: Color) -> int {
    material_spec(board, color, false) + pawn_structure_spec(board, color, false) + mobility_spec(board, color, false)
        + rook_files_spec(board, color) + (if piece_count(board, color, PieceKind::Bishop) >= 2 { BISHOP_PAIR_MG as int } else { 0 })
        + king_safety_spec(board, color).0 + space_spec(board, color)
}

/// Endgame score of one side.
pub open spec fn side_eg(board: Seq<Option<Piece>>, color: Color) -> int {
    material_spec(board, color, true) + pawn_structure_spec(board, color, true) + mobility_spec(board, color, true)
        + rook_files_spec(board, color) / 2 + (if piece_count(board, color, PieceKind::Bishop) >= 2 { BISHOP_PAIR_EG as int } else { 0 })
        + king_safety_spec(board, color).1 + king_activity_spec(board, color)
}

/// The evaluation terms, White minus Black, with the game phase.
pub fn evaluate_breakdown(position: &Position) -> (r: EvalBreakdown)
    ensures
        position.consistent() ==> r.mg == side_mg(position@.board, Color::White) - side_mg(position@.board, Color::Black),
        position.consistent() ==> r.eg == side_eg(position@.board, Color::White) - side_eg(position@.board, Color::Black),
        position.consistent() ==> r.phase == phase_spec(position@.board),
        -1_000_000 <= r.mg <= 1_000_000,
        -1_000_000 <= r.eg <= 1_000_000,
        0 <= r.phase <= 24,
{
    let mut result = EvalBreakdown::default();
    result.phase = phase(position);
    let (wm, we) = side_terms(position, Color::White);
    let (bm, be) = side_terms(position, Color::Black);
    result.mg = wm - bm;
    result.eg = we - be;
    result
}

/// Both phases' score of one side.
fn side_terms(position: &Position, color: Color) -> (r: (i32, i32))
    ensures
        position.consistent() ==> r.0 == side_mg(position@.board, color),
        position.consistent() ==> r.1 == side_eg(position@.board, color),
        -500_000 <= r.0 <= 500_000,
        -500_000 <= r.1 <= 500_000,
{
    let (m1, e1) = material_and_pst(position, color);
    let (m2, e2) = pawn_structure(position, color);
    let (m3, e3) = mobility(position, color);
    let (m4, e4) = rook_files(position, color);
    let (m5, e5) = bishop_pair(position, color);
    let (m6, e6) = king_safety(position, color);
    let m7 = space(position, color);
    let e7 = king_activity(position, color);
    (m1 + m2 + m3 + m4 + m5 + m6 + m7, e1 + e2 + e3 + e4 + e5 + e6 + e7)
}

/// Rust's integer division, rounding toward zero.
pub open spec fn trunc_div(x: int, d: int) -> int {
    if x >= 0 { x / d } else { -((-x) / d) }
}

/// The tapered score from the side to move: zero for dead material, else
/// the middlegame and endgame scores blended by phase.
pub open spec fn evaluate_spec(board: Seq<Option<Piece>>, side: Color) -> int {
    if crate::board::insufficient_material(board) {
        0
    } else {
        let mg = side_mg(board, Color::White) - side_mg(board, Color::Black);
        let eg = side_eg(board, Color::White) - side_eg(board, Color::Black);
        let ph = phase_spec(board);
        let blended = trunc_div(mg * ph + eg * (24 - ph), 24);
        if side == Color::White { blended } else { -blended }
    }
}

pub fn evaluate(position: &Position) -> (r: i32)
    ensures
        position.consistent() ==> r == evaluate_spec(position@.board, position@.side),
        -2_000_000 <= r <= 2_000_000,
{
    if position.is_insufficient_material() {
        return 0;
    }
    let b = evaluate_breakdown(position);
    proof {
        assert(-24_000_000 <= b.mg * b.phase <= 24_000_000) by (nonlinear_arith)
            requires
                -1_000_000 <= b.mg <= 1_000_000,
                0 <= b.phase <= 24,
        ;
        assert(-24_000_000 <= b.eg * (MAX_PHASE - b.phase) <= 24_000_000) by (nonlinear_arith)
            requires
                -1_000_000 <= b.eg <= 1_000_000,
                0 <= MAX_PHASE - b.phase <= 24,
        ;
    }
    let total = b.mg * b.phase + b.eg * (MAX_PHASE - b.phase);
    let blended = total / MAX_PHASE;
    proof {
        assert(blended == trunc_div(total as int, 24));
    }
    if position.side_to_move() == Color::White {
        blended
    } else {
        -blended
    }
}

} // verus!
