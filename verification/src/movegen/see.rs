//! Attackers of a square and static exchange evaluation.

use vstd::prelude::*;

use crate::bitboard::{group_bits, sq_in};
use crate::board::{after_move, occupancy_of, Color, Piece, PieceKind, Position, PositionModel, Square};
use crate::movegen::{bishop_attacks, fits, king_attacks, knight_attacks, lemma_leaper_symmetric, lemma_pseudo_applicable, lemma_slider_symmetric, legal_move, pawn_attacks, piece_attacks, rook_attacks};
use crate::moves::{is_capture, Move, MoveKind};

verus! {

/// The pieces of `by` that attack `square`.
fn attackers_by(position: &Position, square: Square, by: Color) -> (r: u64)
    requires
        square < 64,
    ensures
        position.consistent() ==> forall|t: int| 0 <= t < 64 ==> #[trigger] sq_in(r, t) == (position@.board[t] matches Some(p)
            && p.color == by && piece_attacks(p, t, square as int, occupancy_of(position@.board))),
{
    let occ = position.all_occupancy();
    let ghost board = position@.board;
    let ghost s = square as int;
    let pa = pawn_attacks(by.opposite(), square);
    let pw = position.pieces(by, PieceKind::Pawn);
    let na = knight_attacks(square);
    let nw = position.pieces(by, PieceKind::Knight);
    let ka = king_attacks(square);
    let kw = position.pieces(by, PieceKind::King);
    let ba = bishop_attacks(square, occ);
    let bw = position.pieces(by, PieceKind::Bishop);
    let qw = position.pieces(by, PieceKind::Queen);
    let ra = rook_attacks(square, occ);
    let rw = position.pieces(by, PieceKind::Rook);
    let r = (pa & pw) | (na & nw) | (ka & kw) | (ba & (bw | qw)) | (ra & (rw | qw));
    proof {
        if position.consistent() {
            broadcast use group_bits;
            assert(occ == occupancy_of(board));
            assert forall|t: int| 0 <= t < 64 implies #[trigger] sq_in(r, t) == (board[t] matches Some(p) && p.color == by && piece_attacks(
                p,
                t,
                s,
                occupancy_of(board),
            )) by {
                lemma_leaper_symmetric(t, s, by);
                lemma_slider_symmetric(t, occ, s);
                assert(sq_in(pa, t) == crate::movegen::pawn_target(by.opp(), s, t));
                assert(sq_in(r, t) == ((sq_in(pa, t) && sq_in(pw, t)) || (sq_in(na, t) && sq_in(nw, t)) || (sq_in(ka, t) && sq_in(kw, t)) || (
                sq_in(ba, t) && (sq_in(bw, t) || sq_in(qw, t))) || (sq_in(ra, t) && (sq_in(rw, t) || sq_in(qw, t)))));
            }
        }
    }
    r
}

/// Every piece, of either color, that attacks `square`.
pub fn attackers_to(position: &Position, square: Square) -> (r: u64)
    requires
        square < 64,
    ensures
        position.consistent() ==> forall|t: int| 0 <= t < 64 ==> #[trigger] sq_in(r, t) == (position@.board[t] matches Some(p)
            && piece_attacks(p, t, square as int, occupancy_of(position@.board))),
{
    let w = attackers_by(position, square, Color::White);
    let b = attackers_by(position, square, Color::Black);
    proof {
        if position.consistent() {
            assert forall|t: int| 0 <= t < 64 implies #[trigger] sq_in(w | b, t) == (position@.board[t] matches Some(p)
                && piece_attacks(p, t, square as int, occupancy_of(position@.board))) by {
                crate::bitboard::lemma_bit_or(w, b, t as u64);
                assert(sq_in(w, t) == (position@.board[t] matches Some(p) && p.color == Color::White && piece_attacks(p, t, square as int, occupancy_of(position@.board))));
                assert(sq_in(b, t) == (position@.board[t] matches Some(p) && p.color == Color::Black && piece_attacks(p, t, square as int, occupancy_of(position@.board))));
            }
        }
    }
    w | b
}

/// Piece values of the exchange evaluation; the king counts as very large.
pub open spec fn see_value(kind: PieceKind) -> int {
    match kind {
        PieceKind::Pawn => 100,
        PieceKind::Knight => 320,
        PieceKind::Bishop => 335,
        PieceKind::Rook => 500,
        PieceKind::Queen => 950,
        PieceKind::King => 20_000,
    }
}

fn see_piece_value(kind: PieceKind) -> (r: i32)
    ensures
        r == see_value(kind),
{
    match kind {
        PieceKind::Pawn => 100,
        PieceKind::Knight => 320,
        PieceKind::Bishop => 335,
        PieceKind::Rook => 500,
        PieceKind::Queen => 950,
        PieceKind::King => 20_000,
    }
}

/// A legal capture onto `target`.
#[verifier::opaque]
pub open spec fn recapture(m: PositionModel, target: int, mv: Move) -> bool {
    legal_move(m, mv) && mv.to_sq() == target && is_capture(m, mv)
}

/// The legal captures onto `target`, as a predicate.
pub open spec fn recaptures(m: PositionModel, target: int) -> spec_fn(Move) -> bool {
    |mv: Move| recapture(m, target, mv)
}

/// `v` is the largest of zero and the values `g` takes where `r` holds.
pub open spec fn best_of(v: int, r: spec_fn(Move) -> bool, g: spec_fn(Move) -> int) -> bool {
    &&& v >= 0
    &&& (v == 0 || exists|mv: Move| #[trigger] r(mv) && v == g(mv))
    &&& forall|mv: Move| #[trigger] r(mv) ==> g(mv) <= v
}

proof fn lemma_best_unique(v: int, w: int, r: spec_fn(Move) -> bool, g: spec_fn(Move) -> int)
    requires
        best_of(v, r, g),
        best_of(w, r, g),
    ensures
        v == w,
{
    if v != w {
        if v != 0 {
            let mv = choose|mv: Move| #[trigger] r(mv) && v == g(mv);
        }
        if w != 0 {
            let mw = choose|mw: Move| #[trigger] r(mw) && w == g(mw);
        }
    }
}

/// What one capture onto `target` gains for the side making it.
pub open spec fn capture_gain(m: PositionModel, target: int, side: Color, ply: int) -> spec_fn(Move) -> int
    decreases 12 - ply, 0int,
{
    |mv: Move| see_value(m.board[target].unwrap().kind) - (if ply < 12 { exchange(after_move(m, mv), target, side.opp(), ply + 1) } else { 0 })
}

/// What `side`, to move, gains at best by capturing on `target` and
/// letting the exchange go on, where each side may also stop: at least
/// zero, and nothing after twelve captures.
pub open spec fn exchange(m: PositionModel, target: int, side: Color, ply: int) -> int
    decreases 12 - ply, 1int,
{
    if ply >= 12 || m.side != side || m.board[target] is None {
        0
    } else {
        choose|v: int| #[trigger] best_of(v, recaptures(m, target), capture_gain(m, target, side, ply))
    }
}

/// Every position of the exchange has its whole move set listed.
pub open spec fn exchange_fits(m: PositionModel, target: int, side: Color, ply: int) -> bool
    decreases 12 - ply,
{
    if ply >= 12 || m.side != side || m.board[target] is None {
        true
    } else {
        fits(m) && forall|mv: Move| #[trigger] recapture(m, target, mv) ==> exchange_fits(after_move(m, mv), target, side.opp(), ply + 1)
    }
}

/// The best gain over the first `i` listed moves.
pub open spec fn listed_best(m: PositionModel, target: int, side: Color, ply: int, l: Seq<Move>, i: int) -> int
    decreases i,
{
    if i <= 0 {
        0
    } else {
        let prev = listed_best(m, target, side, ply, l, i - 1);
        let mv = l[i - 1];
        if mv.to_sq() == target && is_capture(m, mv) {
            let g = capture_gain(m, target, side, ply)(mv);
            if g > prev { g } else { prev }
        } else {
            prev
        }
    }
}

proof fn lemma_listed_best(m: PositionModel, target: int, side: Color, ply: int, l: Seq<Move>)
    requires
        !(ply >= 12 || m.side != side || m.board[target] is None),
        forall|mv: Move| #[trigger] l.contains(mv) <==> legal_move(m, mv),
    ensures
        listed_best(m, target, side, ply, l, l.len() as int) == exchange(m, target, side, ply),
{
    let n = l.len() as int;
    let r = recaptures(m, target);
    let g = capture_gain(m, target, side, ply);
    lemma_listed_best_prefix(m, target, side, ply, l, n);
    let v = listed_best(m, target, side, ply, l, n);
    assert forall|mv: Move| #[trigger] r(mv) implies g(mv) <= v by {
        reveal(recapture);
        assert(l.contains(mv));
        let j = l.index_of(mv);
        lemma_listed_best_mono(m, target, side, ply, l, j + 1, n);
    }
    if v != 0 {
        let mv = choose|mv: Move| #[trigger] recapture(m, target, mv) && v == capture_gain(m, target, side, ply)(mv);
        assert(r(mv) && v == g(mv));
    }
    assert(best_of(v, r, g));
    let w = exchange(m, target, side, ply);
    assert(best_of(w, r, g));
    lemma_best_unique(v, w, r, g);
}

/// The listed best is non-negative and achieved by a listed capture or zero.
proof fn lemma_listed_best_prefix(m: PositionModel, target: int, side: Color, ply: int, l: Seq<Move>, i: int)
    requires
        0 <= i <= l.len(),
        forall|mv: Move| #[trigger] l.contains(mv) ==> legal_move(m, mv),
    ensures
        ({
            let v = listed_best(m, target, side, ply, l, i);
            v >= 0 && (v == 0 || exists|mv: Move| #[trigger] recapture(m, target, mv) && v == capture_gain(m, target, side, ply)(mv))
        }),
    decreases i,
{
    if i > 0 {
        lemma_listed_best_prefix(m, target, side, ply, l, i - 1);
        let mv = l[i - 1];
        assert(l.contains(mv));
        if mv.to_sq() == target && is_capture(m, mv) {
            assert(recapture(m, target, mv)) by {
                reveal(recapture);
            }
        }
    }
}

/// The listed best only grows, and covers each listed capture.
proof fn lemma_listed_best_mono(m: PositionModel, target: int, side: Color, ply: int, l: Seq<Move>, i: int, n: int)
    requires
        1 <= i <= n <= l.len(),
        l[i - 1].to_sq() == target,
        is_capture(m, l[i - 1]),
    ensures
        capture_gain(m, target, side, ply)(l[i - 1]) <= listed_best(m, target, side, ply, l, n),
    decreases n - i,
{
    if n > i {
        lemma_listed_best_mono(m, target, side, ply, l, i, n - 1);
    }
}

fn is_capture_move(position: &Position, mv: Move) -> (r: bool)
    ensures
        r == is_capture(position@, mv),
{
    proof {
        broadcast use crate::moves::group_move_bounds;
    }
    mv.kind() == MoveKind::EnPassant || position.piece_at(mv.to()).is_some()
}

/// The exchange on `target` from `side`'s point of view, searched over the
/// legal captures with make and unmake.
fn see_recapture(position: &mut Position, target: Square, side: Color, ply: u8) -> (r: i32)
    requires
        old(position).wf(),
        target < 64,
    ensures
        final(position).wf(),
        final(position)@ == old(position)@,
        0 <= r <= 20_000,
        exchange_fits(old(position)@, target as int, side, ply as int) ==> r == exchange(old(position)@, target as int, side, ply as int),
    decreases 12 - ply,
{
    if ply >= 12 || position.side_to_move() != side {
        return 0;
    }
    let target_piece = match position.piece_at(target) {
        Some(p) => p,
        None => return 0,
    };
    let ghost m = position@;
    let ghost fit = exchange_fits(m, target as int, side, ply as int);
    let value = see_piece_value(target_piece.kind);
    let moves = position.legal_moves_mut();
    let mut best: i32 = 0;
    let mut i: usize = 0;
    while i < moves.len()
        invariant
            i <= moves@.len(),
            position.wf(),
            position@ == m,
            ply < 12,
            target < 64,
            m.side == side,
            m.board[target as int] == Some(target_piece),
            value == see_value(target_piece.kind),
            fit == exchange_fits(m, target as int, side, ply as int),
            forall|mv: Move| #[trigger] moves@.contains(mv) ==> legal_move(m, mv),
            0 <= best <= 20_000,
            fit ==> best == listed_best(m, target as int, side, ply as int, moves@, i as int),
        decreases moves@.len() - i,
    {
        let mv = moves.get(i);
        proof {
            assert(moves@.contains(mv));
        }
        if mv.to() == target && is_capture_move(position, mv) {
            proof {
                position.lemma_wf();
                lemma_pseudo_applicable(m, mv);
                if fit {
                    reveal(recapture);
                    assert(recapture(m, target as int, mv));
                }
            }
            let undo = position.make_move_unchecked(mv);
            let child = see_recapture(position, target, side.opposite(), ply + 1);
            position.unmake_move(mv, undo, Ghost(m));
            let gain = value - child;
            if gain > best {
                best = gain;
            }
        }
        i = i + 1;
    }
    proof {
        if fit {
            lemma_listed_best(m, target as int, side, ply as int, moves@);
        }
    }
    best
}

/// The static exchange value of a legal capture: the victim's value less
/// what the opponent then gains on that square; zero for anything else.
pub open spec fn see_spec(m: PositionModel, mv: Move) -> int {
    if !legal_move(m, mv) {
        0
    } else if mv.kind_spec() == MoveKind::EnPassant {
        see_value(PieceKind::Pawn) - exchange(after_move(m, mv), mv.to_sq() as int, m.side.opp(), 0)
    } else if m.board[mv.to_sq() as int] is Some {
        see_value(m.board[mv.to_sq() as int].unwrap().kind) - exchange(after_move(m, mv), mv.to_sq() as int, m.side.opp(), 0)
    } else {
        0
    }
}

/// The positions `see` looks at all have their whole move sets listed.
pub open spec fn see_fits(m: PositionModel, mv: Move) -> bool {
    fits(m) && (legal_move(m, mv) ==> exchange_fits(after_move(m, mv), mv.to_sq() as int, m.side.opp(), 0))
}

pub fn see(position: &Position, mv: Move) -> (r: i32)
    requires
        position.wf(),
    ensures
        see_fits(position@, mv) ==> r == see_spec(position@, mv),
        !legal_move(position@, mv) ==> r == 0,
        -20_000 <= r <= 20_000,
{
    proof {
        broadcast use crate::moves::group_move_bounds;
    }
    let legal = position.legal_moves();
    if !legal.contains(mv) {
        return 0;
    }
    if !mv.is_capture_kind() && position.piece_at(mv.to()).is_none() {
        return 0;
    }
    let victim = if mv.kind() == MoveKind::EnPassant {
        PieceKind::Pawn
    } else {
        match position.piece_at(mv.to()) {
            Some(p) => p.kind,
            None => return 0,
        }
    };
    let mut copy = position.duplicate();
    proof {
        position.lemma_wf();
        lemma_pseudo_applicable(position@, mv);
    }
    let _undo = copy.make_move_unchecked(mv);
    let side = copy.side_to_move();
    see_piece_value(victim) - see_recapture(&mut copy, mv.to(), side, 0)
}

/// Whether the static exchange value of `mv` reaches `threshold`.
pub fn see_ge(position: &Position, mv: Move, threshold: i32) -> (r: bool)
    requires
        position.wf(),
    ensures
        see_fits(position@, mv) ==> r == (see_spec(position@, mv) >= threshold),
{
    see(position, mv) >= threshold
}

} // verus!
