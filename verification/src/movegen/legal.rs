//! Check detection and strictly legal move generation.

use vstd::prelude::*;

use crate::board::{after_move, applicable, ep_ok, is_castle_kind, model_ok, rank_spec, Color, Piece, PieceKind, Position, PositionModel};
use crate::movegen::attacks::{lemma_fr_square, lemma_square_fr, ray_step, step};
use crate::movegen::generate::{castle_move, generate_pseudo, pawn_move, piece_move, pseudo_legal, push_dir};
use crate::movegen::{attacked_by, MoveList};
use crate::moves::{group_move_bounds, Move, MoveKind};

verus! {

broadcast use group_move_bounds;

/// The lowest square holding `color`'s king, if there is one.
pub open spec fn king_square_spec(board: Seq<Option<Piece>>, color: Color) -> Option<int> {
    if exists|s: int| 0 <= s < 64 && #[trigger] board[s] == Some(Piece { color, kind: PieceKind::King }) {
        Some(
            choose|s: int|
                0 <= s < 64 && #[trigger] board[s] == Some(Piece { color, kind: PieceKind::King }) && forall|t: int|
                    0 <= t < s ==> board[t] != Some(Piece { color, kind: PieceKind::King }),
        )
    } else {
        None
    }
}

/// `color` is in check: its king is attacked, or it has no king.
pub open spec fn in_check_spec(m: PositionModel, color: Color) -> bool {
    match king_square_spec(m.board, color) {
        Some(s) => attacked_by(m.board, s, color.opp()),
        None => true,
    }
}

/// A legal move: it obeys piece movement and does not leave the mover's
/// king attacked.
pub open spec fn legal_move(m: PositionModel, mv: Move) -> bool {
    pseudo_legal(m, mv) && !in_check_spec(after_move(m, mv), m.side)
}

/// The set of pseudo-legal moves holds fewer than 256 moves, so no move list
/// overflows.
pub open spec fn fits(m: PositionModel) -> bool {
    let s = Set::new(|mv: Move| pseudo_legal(m, mv));
    s.finite() && s.len() < 256
}

/// The lowest king square found by scanning agrees with the specification.
pub proof fn lemma_king_square(board: Seq<Option<Piece>>, color: Color, s: int)
    requires
        0 <= s < 64,
        board[s] == Some(Piece { color, kind: PieceKind::King }),
        forall|t: int| 0 <= t < s ==> board[t] != Some(Piece { color, kind: PieceKind::King }),
    ensures
        king_square_spec(board, color) == Some(s),
{
    let c = choose|c: int|
        0 <= c < 64 && #[trigger] board[c] == Some(Piece { color, kind: PieceKind::King }) && forall|t: int|
            0 <= t < c ==> board[t] != Some(Piece { color, kind: PieceKind::King });
    assert(board[s] == Some(Piece { color, kind: PieceKind::King }));
    if c < s {
        assert(board[c] != Some(Piece { color, kind: PieceKind::King }));
    }
    if s < c {
        assert(board[s] != Some(Piece { color, kind: PieceKind::King }));
    }
}

pub proof fn lemma_no_king(board: Seq<Option<Piece>>, color: Color)
    requires
        forall|t: int| 0 <= t < 64 ==> board[t] != Some(Piece { color, kind: PieceKind::King }),
    ensures
        king_square_spec(board, color) is None,
{
}

/// Every pseudo-legal move of a well-formed position can be made and unmade.
pub proof fn lemma_pseudo_applicable(m: PositionModel, mv: Move)
    requires
        model_ok(m),
        pseudo_legal(m, mv),
    ensures
        applicable(m, mv),
{
    let from = mv.from_sq() as int;
    let to = mv.to_sq() as int;
    let p = m.board[from].unwrap();
    let k = mv.kind_spec();
    lemma_fr_square(from);
    lemma_fr_square(to);
    if p.kind == PieceKind::Pawn {
        assert(pawn_move(m, from, mv));
        let one = step(from, 0, push_dir(m.side));
        if one >= 0 {
            lemma_square_fr(crate::board::file_spec(from), rank_spec(from) + push_dir(m.side));
        }
        if k == MoveKind::DoublePawn {
            lemma_square_fr(crate::board::file_spec(from), rank_spec(from) + 2 * push_dir(m.side));
        }
        if k == MoveKind::EnPassant {
            let e = m.ep.unwrap();
            assert(ep_ok(m));
            lemma_fr_square(e as int);
        }
        assert(from != to);
    } else if castle_move(m, mv) {
        assert(is_castle_kind(k));
    } else {
        assert(piece_move(m, p, from, mv));
        if from == to {
            lemma_slide_not_self(from, m, to);
        }
        assert(from != to);
    }
}

/// A slider never reaches its own square.
proof fn lemma_slide_not_self(s: int, m: PositionModel, t: int)
    requires
        0 <= s < 64,
        t == s,
    ensures
        !crate::movegen::attacks::rook_target(s, crate::board::occupancy_of(m.board), t),
        !crate::movegen::attacks::bishop_target(s, crate::board::occupancy_of(m.board), t),
{
    lemma_fr_square(s);
    assert forall|df: int, dr: int, k: int| -1 <= df <= 1 && -1 <= dr <= 1 && (df != 0 || dr != 0) && 1 <= k < 8 implies #[trigger] ray_step(s, df, dr, k) != s by {
        let f = crate::board::file_spec(s) + crate::movegen::attacks::sgn_mul(k, df);
        let r = rank_spec(s) + crate::movegen::attacks::sgn_mul(k, dr);
        if 0 <= f < 8 && 0 <= r < 8 {
            lemma_square_fr(f, r);
        }
    }
}

/// A duplicate-free list of pseudo-legal moves is shorter than 256 when the
/// pseudo-legal moves fit.
pub proof fn lemma_fits_len(m: PositionModel, l: Seq<Move>)
    requires
        fits(m),
        l.no_duplicates(),
        forall|mv: Move| #[trigger] l.contains(mv) ==> pseudo_legal(m, mv),
    ensures
        l.len() < 256,
{
    let s = Set::new(|mv: Move| pseudo_legal(m, mv));
    l.unique_seq_to_set();
    assert(l.to_set().subset_of(s));
    vstd::set_lib::lemma_len_subset(l.to_set(), s);
}

/// The moves of `s` that are legal in `m`, in order.
pub open spec fn keep_legal(m: PositionModel, s: Seq<Move>) -> Seq<Move>
    decreases s.len(),
{
    if s.len() == 0 {
        s
    } else if legal_move(m, s.last()) {
        keep_legal(m, s.drop_last()).push(s.last())
    } else {
        keep_legal(m, s.drop_last())
    }
}

proof fn lemma_keep_legal(m: PositionModel, s: Seq<Move>)
    requires
        s.no_duplicates(),
    ensures
        forall|mv: Move| #[trigger] keep_legal(m, s).contains(mv) <==> (s.contains(mv) && legal_move(m, mv)),
        keep_legal(m, s).no_duplicates(),
        keep_legal(m, s).len() <= s.len(),
    decreases s.len(),
{
    if s.len() > 0 {
        let r = s.drop_last();
        assert(r.no_duplicates()) by {
            assert forall|i: int, j: int| 0 <= i < r.len() && 0 <= j < r.len() && i != j implies r[i] != r[j] by {
                assert(s[i] != s[j]);
            }
        }
        lemma_keep_legal(m, r);
        let k = keep_legal(m, r);
        assert forall|mv: Move| #[trigger] s.contains(mv) <==> (r.contains(mv) || mv == s.last()) by {
            if s.contains(mv) {
                let i = choose|i: int| 0 <= i < s.len() && s[i] == mv;
                if i < r.len() {
                    assert(r[i] == mv);
                }
            }
            if r.contains(mv) {
                let i = choose|i: int| 0 <= i < r.len() && r[i] == mv;
                assert(s[i] == mv);
            }
        }
        assert(!r.contains(s.last())) by {
            if r.contains(s.last()) {
                let i = choose|i: int| 0 <= i < r.len() && r[i] == s.last();
                assert(s[i] == s[s.len() - 1]);
            }
        }
        if legal_move(m, s.last()) {
            let k2 = k.push(s.last());
            assert forall|mv: Move| #[trigger] k2.contains(mv) <==> (k.contains(mv) || mv == s.last()) by {
                if k2.contains(mv) {
                    let i = choose|i: int| 0 <= i < k2.len() && k2[i] == mv;
                    if i < k.len() {
                        assert(k[i] == mv);
                    }
                }
                if k.contains(mv) {
                    let i = choose|i: int| 0 <= i < k.len() && k[i] == mv;
                    assert(k2[i] == mv);
                }
                if mv == s.last() {
                    assert(k2[k.len() as int] == mv);
                }
            }
            assert forall|i: int, j: int| 0 <= i < k2.len() && 0 <= j < k2.len() && i != j implies k2[i] != k2[j] by {
                if i < k.len() && j < k.len() {
                } else if i == k.len() {
                    assert(k.contains(k[j]));
                } else {
                    assert(k.contains(k[i]));
                }
            }
        }
    }
}

/// Production legal generator. A move is never returned unless applying it
/// leaves the moving side's king unattacked. The mutation is fully undone for
/// every candidate, so state-dependent rules such as en-passant are tested in
/// their post-move occupancy rather than by error-prone special cases.
pub fn generate_legal(position: &mut Position) -> (legal: MoveList)
    requires
        old(position).wf(),
    ensures
        final(position).wf(),
        final(position)@ == old(position)@,
        forall|mv: Move| #[trigger] legal@.contains(mv) ==> legal_move(old(position)@, mv),
        fits(old(position)@) ==> forall|mv: Move| #[trigger] legal@.contains(mv) <== legal_move(old(position)@, mv),
        legal@.no_duplicates(),
        legal@.len() <= 256,
{
    let ghost m = position@;
    let pseudo = generate_pseudo(position);
    let side = position.side_to_move();
    let mut legal = MoveList::new();
    let n = pseudo.len();
    let mut i: usize = 0;
    proof {
        position.lemma_wf();
    }
    while i < n
        invariant
            position.wf(),
            position@ == m,
            model_ok(m),
            side == m.side,
            n == pseudo@.len(),
            n <= 256,
            i <= n,
            forall|mv: Move| #[trigger] pseudo@.contains(mv) ==> pseudo_legal(m, mv),
            pseudo@.no_duplicates(),
            legal@ == keep_legal(m, pseudo@.subrange(0, i as int)),
            legal@.len() <= i,
        decreases n - i,
    {
        let mv = pseudo.get(i);
        proof {
            assert(pseudo@.contains(mv));
            lemma_pseudo_applicable(m, mv);
            let t = pseudo@.subrange(0, i as int);
            assert(t.no_duplicates()) by {
                assert forall|a: int, b: int| 0 <= a < t.len() && 0 <= b < t.len() && a != b implies t[a] != t[b] by {
                    assert(pseudo@[a] != pseudo@[b]);
                }
            }
            lemma_keep_legal(m, t);
        }
        let undo = position.make_move_unchecked(mv);
        let okay = !position.in_check(side);
        proof {
            position.lemma_wf();
        }
        position.unmake_move(mv, undo, Ghost(m));
        if okay {
            legal.push(mv);
        }
        proof {
            let t2 = pseudo@.subrange(0, i + 1);
            assert(t2.drop_last() =~= pseudo@.subrange(0, i as int));
            assert(t2.last() == mv);
        }
        i = i + 1;
    }
    proof {
        assert(pseudo@.subrange(0, n as int) =~= pseudo@);
        lemma_keep_legal(m, pseudo@);
        if fits(m) {
            lemma_fits_len(m, pseudo@);
        }
    }
    legal
}

/// A complete list of legal moves is empty exactly when there is no legal
/// move.
pub proof fn lemma_empty_list(m: PositionModel, l: Seq<Move>)
    requires
        forall|mv: Move| #[trigger] l.contains(mv) ==> legal_move(m, mv),
        fits(m) ==> forall|mv: Move| #[trigger] l.contains(mv) <== legal_move(m, mv),
    ensures
        l.len() > 0 ==> exists|mv: Move| #[trigger] legal_move(m, mv),
        fits(m) && l.len() == 0 ==> forall|mv: Move| !#[trigger] legal_move(m, mv),
{
    if l.len() > 0 {
        assert(l.contains(l[0]));
        assert(legal_move(m, l[0]));
    }
    if fits(m) && l.len() == 0 {
        assert forall|mv: Move| !#[trigger] legal_move(m, mv) by {
            if legal_move(m, mv) {
                assert(l.contains(mv));
            }
        }
    }
}

/// Deliberately independent test oracle. It copy-makes each pseudo move on a
/// fresh copy of the position instead of making and unmaking one board.
pub fn reference_legal_moves(position: &Position) -> (legal: MoveList)
    requires
        position.wf(),
    ensures
        forall|mv: Move| #[trigger] legal@.contains(mv) ==> legal_move(position@, mv),
        fits(position@) ==> forall|mv: Move| #[trigger] legal@.contains(mv) <== legal_move(position@, mv),
        legal@.no_duplicates(),
{
    let ghost m = position@;
    let pseudo = generate_pseudo(position);
    let side = position.side_to_move();
    let mut legal = MoveList::new();
    let n = pseudo.len();
    let mut i: usize = 0;
    proof {
        position.lemma_wf();
    }
    while i < n
        invariant
            position.wf(),
            position@ == m,
            model_ok(m),
            side == m.side,
            n == pseudo@.len(),
            n <= 256,
            i <= n,
            forall|mv: Move| #[trigger] pseudo@.contains(mv) ==> pseudo_legal(m, mv),
            pseudo@.no_duplicates(),
            legal@ == keep_legal(m, pseudo@.subrange(0, i as int)),
        decreases n - i,
    {
        let mv = pseudo.get(i);
        proof {
            assert(pseudo@.contains(mv));
            lemma_pseudo_applicable(m, mv);
            let t = pseudo@.subrange(0, i as int);
            assert(t.no_duplicates()) by {
                assert forall|a: int, b: int| 0 <= a < t.len() && 0 <= b < t.len() && a != b implies t[a] != t[b] by {
                    assert(pseudo@[a] != pseudo@[b]);
                }
            }
            lemma_keep_legal(m, t);
        }
        let mut copy = position.duplicate();
        let _undo = copy.make_move_unchecked(mv);
        proof {
            copy.lemma_wf();
        }
        if !copy.in_check(side) {
            legal.push(mv);
        }
        proof {
            let t2 = pseudo@.subrange(0, i + 1);
            assert(t2.drop_last() =~= pseudo@.subrange(0, i as int));
            assert(t2.last() == mv);
        }
        i = i + 1;
    }
    proof {
        assert(pseudo@.subrange(0, n as int) =~= pseudo@);
        lemma_keep_legal(m, pseudo@);
        if fits(m) {
            lemma_fits_len(m, pseudo@);
        }
    }
    legal
}

/// The production generator and the copy-make oracle produce the same moves:
/// any two duplicate-free lists holding exactly the legal moves of a position
/// whose moves fit hold the same moves and have the same length.
pub proof fn lemma_generators_agree(m: PositionModel, a: Seq<Move>, b: Seq<Move>)
    requires
        fits(m),
        a.no_duplicates(),
        b.no_duplicates(),
        forall|mv: Move| #[trigger] a.contains(mv) <==> legal_move(m, mv),
        forall|mv: Move| #[trigger] b.contains(mv) <==> legal_move(m, mv),
    ensures
        a.to_set() == b.to_set(),
        a.len() == b.len(),
{
    assert(a.to_set() =~= b.to_set());
    a.unique_seq_to_set();
    b.unique_seq_to_set();
}

} // verus!
