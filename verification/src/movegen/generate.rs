//! Pseudo-legal move generation.

use vstd::prelude::*;

use crate::bitboard::{bit, lemma_bit_and, lemma_bit_not, pop_lsb, sq_in};
use crate::board::{
    king_home, occupancy_of, rank_of, rank_spec, Color, Piece, PieceKind, Position, PositionModel, Square, CASTLE_BK, CASTLE_BQ,
    CASTLE_WK, CASTLE_WQ,
};
use crate::movegen::attacks::{bishop_attacks, king_attacks, knight_attacks, pawn_attacks, pawn_target, queen_attacks, rook_attacks, step};
use crate::movegen::{attacked_by, is_square_attacked, piece_attacks, MoveList};
use crate::moves::{group_move_bounds, Move, MoveKind};

verus! {

broadcast use group_move_bounds;

pub open spec fn push_dir(c: Color) -> int {
    if c == Color::White { 1 } else { -1 }
}

pub open spec fn promo_rank(c: Color) -> int {
    if c == Color::White { 7 } else { 0 }
}

pub open spec fn start_rank(c: Color) -> int {
    if c == Color::White { 1 } else { 6 }
}

pub open spec fn is_promo_kind(k: MoveKind) -> bool {
    k == MoveKind::PromoteKnight || k == MoveKind::PromoteBishop || k == MoveKind::PromoteRook || k == MoveKind::PromoteQueen
}

/// `mv` is the move `from`-`to` of kind `k`.
pub open spec fn is_move(mv: Move, from: int, to: int, k: MoveKind) -> bool {
    mv.from_sq() == from && mv.to_sq() == to && mv.kind_code() == k.code()
}

/// Pawn moves from `from`: a push to an empty square (promoting on the last
/// rank), a double push from the start rank over two empty squares, a
/// capture of an enemy piece (promoting on the last rank), or an en-passant
/// capture onto the target square.
pub open spec fn pawn_move(m: PositionModel, from: int, mv: Move) -> bool {
    let us = m.side;
    let to = mv.to_sq() as int;
    let k = mv.kind_spec();
    let one = step(from, 0, push_dir(us));
    &&& mv.from_sq() == from
    &&& mv.kind_code() < 10
    &&& {
        ||| (to == one && one >= 0 && m.board[one] is None && (if rank_spec(one) == promo_rank(us) {
            is_promo_kind(k)
        } else {
            k == MoveKind::Quiet
        }))
        ||| (k == MoveKind::DoublePawn && one >= 0 && m.board[one] is None && rank_spec(from) == start_rank(us) && to == step(
            from,
            0,
            2 * push_dir(us),
        ) && m.board[to] is None)
        ||| (pawn_target(us, from, to) && (m.board[to] matches Some(q) && q.color != us) && (if rank_spec(to) == promo_rank(us) {
            is_promo_kind(k)
        } else {
            k == MoveKind::Capture
        }))
        ||| (k == MoveKind::EnPassant && m.ep == Some(to as u8) && pawn_target(us, from, to))
    }
}

/// A knight, bishop, rook, queen, or king move along its attack pattern to a
/// square not holding an own piece or the enemy king; a capture when the
/// square is occupied.
pub open spec fn piece_move(m: PositionModel, p: Piece, from: int, mv: Move) -> bool {
    let to = mv.to_sq() as int;
    &&& mv.from_sq() == from
    &&& 0 <= to < 64
    &&& piece_attacks(p, from, to, occupancy_of(m.board))
    &&& !(m.board[to] matches Some(q) && (q.color == m.side || q.kind == PieceKind::King))
    &&& mv.kind_code() == (if m.board[to] is Some { 1u16 } else { 0u16 })
}

pub open spec fn right_bit(c: Color, kingside: bool) -> u8 {
    if c == Color::White {
        if kingside { CASTLE_WK } else { CASTLE_WQ }
    } else {
        if kingside { CASTLE_BK } else { CASTLE_BQ }
    }
}

/// Castling: the king on its home square with the right still held, the
/// rook on its corner, the squares between empty, and the king's start,
/// transit, and destination squares not attacked.
pub open spec fn castle_move(m: PositionModel, mv: Move) -> bool {
    let us = m.side;
    let them = us.opp();
    let home = king_home(us);
    &&& m.board[home] == Some(Piece { color: us, kind: PieceKind::King })
    &&& {
        ||| (m.castling & right_bit(us, true) != 0 && m.board[home + 3] == Some(Piece { color: us, kind: PieceKind::Rook })
            && m.board[home + 1] is None && m.board[home + 2] is None && !attacked_by(m.board, home, them) && !attacked_by(
            m.board,
            home + 1,
            them,
        ) && !attacked_by(m.board, home + 2, them) && is_move(mv, home, home + 2, MoveKind::CastleKing))
        ||| (m.castling & right_bit(us, false) != 0 && m.board[home - 4] == Some(Piece { color: us, kind: PieceKind::Rook })
            && m.board[home - 1] is None && m.board[home - 2] is None && m.board[home - 3] is None && !attacked_by(m.board, home, them)
            && !attacked_by(m.board, home - 1, them) && !attacked_by(m.board, home - 2, them) && is_move(
            mv,
            home,
            home - 2,
            MoveKind::CastleQueen,
        ))
    }
}

/// Moves obeying piece movement (not yet checked for leaving the own king
/// attacked).
pub open spec fn pseudo_legal(m: PositionModel, mv: Move) -> bool {
    let from = mv.from_sq() as int;
    match m.board[from] {
        Some(p) => p.color == m.side && if p.kind == PieceKind::Pawn {
            pawn_move(m, from, mv)
        } else if p.kind == PieceKind::King {
            piece_move(m, p, from, mv) || castle_move(m, mv)
        } else {
            piece_move(m, p, from, mv)
        },
        None => false,
    }
}


/// `mv` goes from `from` to a square of `targets`, capturing exactly when the
/// square is in `enemy`.
pub open spec fn target_move(mv: Move, from: int, targets: u64, enemy: u64) -> bool {
    &&& mv.from_sq() == from
    &&& sq_in(targets, mv.to_sq() as int)
    &&& mv.kind_code() == (if sq_in(enemy, mv.to_sq() as int) { 1u16 } else { 0u16 })
}

/// Pushes a move from `from` to each square of `targets`, a capture where
/// `enemy` is occupied.
fn push_targets(list: &mut MoveList, from: Square, targets: u64, enemy: u64)
    requires
        from < 64,
    ensures
        forall|mv: Move| #[trigger] final(list)@.contains(mv) ==> old(list)@.contains(mv) || target_move(mv, from as int, targets, enemy),
        final(list)@.len() < 256 ==> forall|mv: Move|
            #[trigger] final(list)@.contains(mv) <== old(list)@.contains(mv) || target_move(mv, from as int, targets, enemy),
        final(list)@.len() >= old(list)@.len(),
        old(list)@.len() <= 256 ==> final(list)@.len() <= 256,
        old(list)@.no_duplicates() && (forall|i: int| 0 <= i < old(list)@.len() ==> #[trigger] old(list)@[i].from_sq() != from)
            ==> final(list)@.no_duplicates(),
{
    let ghost start = list@;
    let mut rest = targets;
    while rest != 0
        invariant
            from < 64,
            forall|t: int| #[trigger] sq_in(rest, t) ==> sq_in(targets, t),
            forall|mv: Move|
                #[trigger] list@.contains(mv) ==> start.contains(mv) || (target_move(mv, from as int, targets, enemy) && !sq_in(
                    rest,
                    mv.to_sq() as int,
                )),
            list@.len() < 256 ==> forall|mv: Move|
                #[trigger] list@.contains(mv) <== start.contains(mv) || (target_move(mv, from as int, targets, enemy) && !sq_in(
                    rest,
                    mv.to_sq() as int,
                )),
            list@.len() >= start.len(),
            start.len() <= 256 ==> list@.len() <= 256,
            start.no_duplicates() && (forall|i: int| 0 <= i < start.len() ==> #[trigger] start[i].from_sq() != from)
                ==> list@.no_duplicates(),
        decreases rest,
    {
        let ghost before = list@;
        let ghost old_rest = rest;
        let to = pop_lsb(&mut rest);
        let kind = if enemy & bit(to) != 0 { MoveKind::Capture } else { MoveKind::Quiet };
        proof {
            crate::bitboard::lemma_mask_test(enemy, to as u64);
        }
        let mv = Move::new(from, to, kind);
        list.push(mv);
        proof {
            assert(target_move(mv, from as int, targets, enemy));
            if !before.contains(mv) {
            } else {
                if start.contains(mv) && start.no_duplicates() && (forall|i: int| 0 <= i < start.len() ==> #[trigger] start[i].from_sq() != from) {
                    let i = choose|i: int| 0 <= i < start.len() && start[i] == mv;
                    assert(start[i].from_sq() != from);
                }
            }
            assert forall|m2: Move| #[trigger] list@.contains(m2) implies start.contains(m2) || (target_move(m2, from as int, targets, enemy) && !sq_in(rest, m2.to_sq() as int)) by {
                if before.contains(m2) {
                } else {
                    assert(m2 == mv);
                }
            }
            if list@.len() < 256 {
                assert forall|m2: Move| #[trigger] list@.contains(m2) <== start.contains(m2) || (target_move(m2, from as int, targets, enemy) && !sq_in(rest, m2.to_sq() as int)) by {
                    if start.contains(m2) || (target_move(m2, from as int, targets, enemy) && !sq_in(old_rest, m2.to_sq() as int)) {
                        assert(before.contains(m2));
                        assert(list@[before.len() as int] == mv);
                        let i = choose|i: int| 0 <= i < before.len() && before[i] == m2;
                        assert(list@[i] == m2);
                    } else if target_move(m2, from as int, targets, enemy) && !sq_in(rest, m2.to_sq() as int) {
                        assert(m2.to_sq() == to);
                        Move::lemma_fields_determine(m2, mv);
                        assert(list@[before.len() as int] == mv);
                    }
                }
            }
            if start.no_duplicates() && (forall|i: int| 0 <= i < start.len() ==> #[trigger] start[i].from_sq() != from) {
                if before.len() < 256 {
                    assert(!before.contains(mv)) by {
                        if before.contains(mv) {
                            if start.contains(mv) {
                                let i = choose|i: int| 0 <= i < start.len() && start[i] == mv;
                                assert(start[i].from_sq() != from);
                            }
                        }
                    }
                    assert forall|i: int, j: int| 0 <= i < list@.len() && 0 <= j < list@.len() && i != j implies list@[i] != list@[j] by {
                        if i < before.len() && j < before.len() {
                        } else if i == before.len() {
                            assert(before[j] == list@[j]);
                            if list@[j] == mv {
                                assert(before.contains(mv));
                            }
                        } else {
                            assert(before[i] == list@[i]);
                            if list@[i] == mv {
                                assert(before.contains(mv));
                            }
                        }
                    }
                }
            }
        }
    }
    proof {
        assert forall|t: int| !sq_in(rest, t) by {
            if 0 <= t < 64 {
                crate::bitboard::lemma_bit_zero(t as u64);
            }
        }
    }
}

/// The attack set of a `kind` piece of color `us` on `from`.
fn piece_attack_set(kind: PieceKind, us: Color, from: Square, occ: u64) -> (r: u64)
    requires
        from < 64,
        kind != PieceKind::Pawn,
    ensures
        forall|t: int| 0 <= t < 64 ==> #[trigger] sq_in(r, t) == piece_attacks(Piece { color: us, kind }, from as int, t, occ),
{
    match kind {
        PieceKind::Knight => knight_attacks(from),
        PieceKind::Bishop => bishop_attacks(from, occ),
        PieceKind::Rook => rook_attacks(from, occ),
        PieceKind::Queen => queen_attacks(from, occ),
        _ => king_attacks(from),
    }
}

/// A `kind` piece of the side to move stands on the origin of `mv`, and `mv`
/// follows its movement.
pub open spec fn kind_move(m: PositionModel, kind: PieceKind, mv: Move) -> bool {
    m.board[mv.from_sq() as int] == Some(Piece { color: m.side, kind }) && piece_move(
        m,
        Piece { color: m.side, kind },
        mv.from_sq() as int,
        mv,
    )
}

/// Adds the moves of every `kind` piece of the side to move.
fn gen_piece_moves(position: &Position, list: &mut MoveList, kind: PieceKind)
    requires
        position.wf(),
        kind != PieceKind::Pawn,
    ensures
        forall|mv: Move| #[trigger] final(list)@.contains(mv) ==> old(list)@.contains(mv) || kind_move(position@, kind, mv),
        final(list)@.len() < 256 ==> forall|mv: Move|
            #[trigger] final(list)@.contains(mv) <== old(list)@.contains(mv) || kind_move(position@, kind, mv),
        final(list)@.len() >= old(list)@.len(),
        old(list)@.len() <= 256 ==> final(list)@.len() <= 256,
        old(list)@.no_duplicates() && (forall|i: int|
            0 <= i < old(list)@.len() ==> position@.board[#[trigger] old(list)@[i].from_sq() as int] != Some(
                Piece { color: position@.side, kind },
            )) ==> final(list)@.no_duplicates(),
{
    let ghost m = position@;
    let ghost start = list@;
    let us = position.side_to_move();
    let them = us.opposite();
    let own = position.occupancy(us);
    let enemy = position.occupancy(them);
    let eking = position.pieces(them, PieceKind::King);
    let occ = position.all_occupancy();
    let blocked = !own & !eking;
    let pieces = position.pieces(us, kind);
    let mut rest = pieces;
    let ghost piece = Piece { color: us, kind };
    proof {
        position.lemma_wf();
    }
    while rest != 0
        invariant
            position.wf(),
            m == position@,
            us == m.side,
            them == us.opp(),
            piece == (Piece { color: us, kind }),
            kind != PieceKind::Pawn,
            occ == occupancy_of(m.board),
            forall|s: int| 0 <= s < 64 ==> #[trigger] sq_in(own, s) == (m.board[s] matches Some(p) && p.color == us),
            forall|s: int| 0 <= s < 64 ==> #[trigger] sq_in(enemy, s) == (m.board[s] matches Some(p) && p.color == them),
            forall|s: int| 0 <= s < 64 ==> #[trigger] sq_in(eking, s) == (m.board[s] == Some(Piece { color: them, kind: PieceKind::King })),
            blocked == !own & !eking,
            forall|s: int| 0 <= s < 64 ==> #[trigger] sq_in(pieces, s) == (m.board[s] == Some(piece)),
            forall|t: int| #[trigger] sq_in(rest, t) ==> sq_in(pieces, t),
            forall|mv: Move|
                #[trigger] list@.contains(mv) ==> start.contains(mv) || (kind_move(m, kind, mv) && !sq_in(rest, mv.from_sq() as int)),
            list@.len() < 256 ==> forall|mv: Move|
                #[trigger] list@.contains(mv) <== start.contains(mv) || (kind_move(m, kind, mv) && !sq_in(rest, mv.from_sq() as int)),
            list@.len() >= start.len(),
            start.len() <= 256 ==> list@.len() <= 256,
            start.no_duplicates() && (forall|i: int|
                0 <= i < start.len() ==> m.board[#[trigger] start[i].from_sq() as int] != Some(piece)) ==> list@.no_duplicates(),
        decreases rest,
    {
        let ghost before = list@;
        let ghost old_rest = rest;
        let from = pop_lsb(&mut rest);
        let att = piece_attack_set(kind, us, from, occ);
        let targets = att & blocked;
        proof {
            assert forall|t: int| 0 <= t < 64 implies #[trigger] sq_in(targets, t) == (piece_attacks(piece, from as int, t, occ) && !(m.board[t] matches Some(q) && (q.color == us || q.kind == PieceKind::King))) by {
                lemma_bit_and(att, blocked, t as u64);
                lemma_bit_and(!own, !eking, t as u64);
                lemma_bit_not(own, t as u64);
                lemma_bit_not(eking, t as u64);
                assert(sq_in(targets, t) == (sq_in(att, t) && !sq_in(own, t) && !sq_in(eking, t)));
            }
            if start.no_duplicates() && (forall|i: int| 0 <= i < start.len() ==> m.board[#[trigger] start[i].from_sq() as int] != Some(piece)) {
                assert forall|i: int| 0 <= i < before.len() implies #[trigger] before[i].from_sq() != from by {
                    assert(before.contains(before[i]));
                    if start.contains(before[i]) {
                        let j = choose|j: int| 0 <= j < start.len() && start[j] == before[i];
                        assert(m.board[start[j].from_sq() as int] != Some(piece));
                    }
                }
            }
        }
        push_targets(list, from, targets, enemy);
        proof {
            assert forall|mv: Move| #[trigger] target_move(mv, from as int, targets, enemy) <==> (kind_move(m, kind, mv) && mv.from_sq() == from) by {
                if mv.from_sq() == from {
                    let to = mv.to_sq() as int;
                    assert(0 <= to < 64);
                    assert(sq_in(targets, to) == (piece_attacks(piece, from as int, to, occ) && !(m.board[to] matches Some(q) && (q.color == us || q.kind == PieceKind::King))));
                    assert(sq_in(enemy, to) == (m.board[to] matches Some(p) && p.color == them));
                }
            }
            assert forall|mv: Move| #[trigger] list@.contains(mv) implies start.contains(mv) || (kind_move(m, kind, mv) && !sq_in(rest, mv.from_sq() as int)) by {
                if before.contains(mv) {
                } else {
                    assert(target_move(mv, from as int, targets, enemy));
                }
            }
            if list@.len() < 256 {
                assert forall|mv: Move| #[trigger] list@.contains(mv) <== start.contains(mv) || (kind_move(m, kind, mv) && !sq_in(rest, mv.from_sq() as int)) by {
                    if start.contains(mv) || (kind_move(m, kind, mv) && !sq_in(old_rest, mv.from_sq() as int)) {
                        assert(before.contains(mv));
                    } else if kind_move(m, kind, mv) && !sq_in(rest, mv.from_sq() as int) {
                        assert(mv.from_sq() == from);
                        assert(target_move(mv, from as int, targets, enemy));
                    }
                }
            }
        }
    }
    proof {
        assert forall|t: int| !sq_in(rest, t) by {
            if 0 <= t < 64 {
                crate::bitboard::lemma_bit_zero(t as u64);
            }
        }
    }
}

/// The list holds the moves of `start` and `added` (all of them while it is
/// not full), and no move twice when `start` has none twice and no move from
/// `from`, and every added move is from `from` and added once.
#[verifier::opaque]
pub open spec fn holds_moves(list: Seq<Move>, start: Seq<Move>, added: Seq<Move>, from: int) -> bool {
    &&& forall|m2: Move| #[trigger] list.contains(m2) ==> start.contains(m2) || added.contains(m2)
    &&& list.len() < 256 ==> forall|m2: Move| #[trigger] list.contains(m2) <== start.contains(m2) || added.contains(m2)
    &&& list.len() >= start.len()
    &&& start.len() <= 256 ==> list.len() <= 256
    &&& forall|i: int| 0 <= i < added.len() ==> #[trigger] added[i].from_sq() == from
    &&& added.no_duplicates()
    &&& start.no_duplicates() && disjoint(start, added) ==> list.no_duplicates()
}

/// No move of `a` is in `b`.
pub open spec fn disjoint(a: Seq<Move>, b: Seq<Move>) -> bool {
    forall|i: int, j: int| 0 <= i < a.len() && 0 <= j < b.len() ==> #[trigger] a[i] != #[trigger] b[j]
}

fn push_recorded(list: &mut MoveList, mv: Move, Ghost(start): Ghost<Seq<Move>>, Ghost(added): Ghost<Seq<Move>>, Ghost(from): Ghost<int>)
    requires
        holds_moves(old(list)@, start, added, from),
        !added.contains(mv),
        mv.from_sq() == from,
    ensures
        holds_moves(final(list)@, start, added.push(mv), from),
{
    let ghost before = list@;
    proof { reveal(holds_moves); }
    list.push(mv);
    proof {
        reveal(holds_moves);
        let added2 = added.push(mv);
        assert forall|m2: Move| #[trigger] added2.contains(m2) <==> (added.contains(m2) || m2 == mv) by {
            if added2.contains(m2) {
                let i = choose|i: int| 0 <= i < added2.len() && added2[i] == m2;
                if i < added.len() {
                    assert(added[i] == m2);
                }
            }
            if added.contains(m2) {
                let i = choose|i: int| 0 <= i < added.len() && added[i] == m2;
                assert(added2[i] == m2);
            }
            if m2 == mv {
                assert(added2[added.len() as int] == mv);
            }
        }
        assert forall|m2: Move| #[trigger] list@.contains(m2) implies start.contains(m2) || added2.contains(m2) by {
            if before.len() < 256 {
                let i = choose|i: int| 0 <= i < list@.len() && list@[i] == m2;
                if i < before.len() {
                    assert(before[i] == m2);
                    assert(before.contains(m2));
                }
            }
        }
        if list@.len() < 256 {
            assert forall|m2: Move| #[trigger] list@.contains(m2) <== start.contains(m2) || added2.contains(m2) by {
                if start.contains(m2) || added.contains(m2) {
                    assert(before.contains(m2));
                    let i = choose|i: int| 0 <= i < before.len() && before[i] == m2;
                    assert(list@[i] == m2);
                } else if m2 == mv {
                    assert(list@[before.len() as int] == mv);
                }
            }
        }
        assert forall|i: int| 0 <= i < added2.len() implies #[trigger] added2[i].from_sq() == from by {
            if i < added.len() {
                assert(added2[i] == added[i]);
            }
        }
        assert forall|i: int, j: int| 0 <= i < added2.len() && 0 <= j < added2.len() && i != j implies added2[i] != added2[j] by {
            if i < added.len() && j < added.len() {
            } else if i == added.len() {
                assert(added2[j] == added[j]);
                if added[j] == mv {
                    assert(added.contains(mv));
                }
            } else {
                assert(added2[i] == added[i]);
                if added[i] == mv {
                    assert(added.contains(mv));
                }
            }
        }
        if start.no_duplicates() && disjoint(start, added2) {
            assert(disjoint(start, added)) by {
                assert forall|i: int, j: int| 0 <= i < start.len() && 0 <= j < added.len() implies #[trigger] start[i] != #[trigger] added[j] by {
                    assert(added2[j] == added[j]);
                }
            }
            if before.len() < 256 {
                assert(!before.contains(mv)) by {
                    if before.contains(mv) {
                        if start.contains(mv) {
                            let i = choose|i: int| 0 <= i < start.len() && start[i] == mv;
                            assert(start[i] != added2[added.len() as int]);
                        }
                    }
                }
                assert forall|i: int, j: int| 0 <= i < list@.len() && 0 <= j < list@.len() && i != j implies list@[i] != list@[j] by {
                    if i < before.len() && j < before.len() {
                    } else if i == before.len() {
                        assert(before[j] == list@[j]);
                        if list@[j] == mv {
                            assert(before.contains(mv));
                        }
                    } else {
                        assert(before[i] == list@[i]);
                        if list@[i] == mv {
                            assert(before.contains(mv));
                        }
                    }
                }
            }
        }
    }
}

/// The four promotion moves `from`-`to`, queen first.
pub open spec fn promotion_of(mv: Move, from: int, to: int) -> bool {
    mv.from_sq() == from && mv.to_sq() == to && 6 <= mv.kind_code() <= 9
}

fn add_promotions(list: &mut MoveList, from: Square, to: Square, Ghost(start): Ghost<Seq<Move>>, Ghost(added): Ghost<Seq<Move>>) -> (added_out: Ghost<Seq<Move>>)
    requires
        from < 64,
        to < 64,
        holds_moves(old(list)@, start, added, from as int),
        forall|m2: Move| #[trigger] added.contains(m2) ==> m2.to_sq() != to || !(6 <= m2.kind_code() <= 9),
    ensures
        holds_moves(final(list)@, start, added_out@, from as int),
        forall|m2: Move| #[trigger] added_out@.contains(m2) <==> (added.contains(m2) || promotion_of(m2, from as int, to as int)),
{
    let ghost f = from as int;
    let mq = Move::new(from, to, MoveKind::PromoteQueen);
    push_recorded(list, mq, Ghost(start), Ghost(added), Ghost(f));
    let ghost a1 = added.push(mq);
    let mr = Move::new(from, to, MoveKind::PromoteRook);
    proof { lemma_push_contains(added, mq); }
    push_recorded(list, mr, Ghost(start), Ghost(a1), Ghost(f));
    let ghost a2 = a1.push(mr);
    let mb = Move::new(from, to, MoveKind::PromoteBishop);
    proof { lemma_push_contains(a1, mr); }
    push_recorded(list, mb, Ghost(start), Ghost(a2), Ghost(f));
    let ghost a3 = a2.push(mb);
    let mn = Move::new(from, to, MoveKind::PromoteKnight);
    proof { lemma_push_contains(a2, mb); }
    push_recorded(list, mn, Ghost(start), Ghost(a3), Ghost(f));
    let ghost a4 = a3.push(mn);
    proof {
        lemma_push_contains(a3, mn);
        assert forall|m2: Move| #[trigger] a4.contains(m2) <==> (added.contains(m2) || promotion_of(m2, f, to as int)) by {
            if promotion_of(m2, f, to as int) {
                if m2.kind_code() == 9 {
                    Move::lemma_fields_determine(m2, mq);
                } else if m2.kind_code() == 8 {
                    Move::lemma_fields_determine(m2, mr);
                } else if m2.kind_code() == 7 {
                    Move::lemma_fields_determine(m2, mb);
                } else {
                    Move::lemma_fields_determine(m2, mn);
                }
            }
        }
    }
    Ghost(a4)
}

proof fn lemma_push_contains(s: Seq<Move>, mv: Move)
    ensures
        forall|m2: Move| #[trigger] s.push(mv).contains(m2) <==> (s.contains(m2) || m2 == mv),
{
    assert forall|m2: Move| #[trigger] s.push(mv).contains(m2) <==> (s.contains(m2) || m2 == mv) by {
        if s.push(mv).contains(m2) {
            let i = choose|i: int| 0 <= i < s.push(mv).len() && s.push(mv)[i] == m2;
            if i < s.len() {
                assert(s[i] == m2);
            }
        }
        if s.contains(m2) {
            let i = choose|i: int| 0 <= i < s.len() && s[i] == m2;
            assert(s.push(mv)[i] == m2);
        }
        if m2 == mv {
            assert(s.push(mv)[s.len() as int] == mv);
        }
    }
}

/// Pawn pushes of `from`: one square ahead onto an empty square (promoting on
/// the last rank), or two from the start rank over empty squares.
pub open spec fn push_part(m: PositionModel, f: int, mv: Move) -> bool {
    let us = m.side;
    let one = step(f, 0, push_dir(us));
    let two = step(f, 0, 2 * push_dir(us));
    mv.from_sq() == f && ((mv.to_sq() == one && one >= 0 && m.board[one] is None && (if rank_spec(one) == promo_rank(us) {
        6 <= mv.kind_code() <= 9
    } else {
        mv.kind_code() == 0
    })) || (mv.kind_code() == 2 && one >= 0 && m.board[one] is None && rank_spec(f) == start_rank(us) && mv.to_sq() == two
        && m.board[two] is None))
}

/// Pawn captures of `from` onto squares of `targets` (promoting on the last
/// rank).
pub open spec fn pawn_capture_of(mv: Move, from: int, targets: u64, last: int) -> bool {
    &&& mv.from_sq() == from
    &&& sq_in(targets, mv.to_sq() as int)
    &&& if rank_spec(mv.to_sq() as int) == last { 6 <= mv.kind_code() <= 9 } else { mv.kind_code() == 1 }
}

/// Adds the pushes of the pawn on `from`.
fn gen_pawn_pushes(position: &Position, from: Square, us: Color, occupied: u64, list: &mut MoveList, Ghost(start): Ghost<Seq<Move>>) -> (added: Ghost<Seq<Move>>)
    requires
        position.wf(),
        us == position@.side,
        from < 64,
        forall|s: int| 0 <= s < 64 ==> #[trigger] sq_in(occupied, s) == (position@.board[s] is Some),
        holds_moves(old(list)@, start, Seq::empty(), from as int),
    ensures
        holds_moves(final(list)@, start, added@, from as int),
        forall|mv: Move| #[trigger] added@.contains(mv) <==> push_part(position@, from as int, mv),
{
    let ghost m = position@;
    let ghost f = from as int;
    proof {
        position.lemma_wf();
        crate::movegen::attacks::lemma_fr_square(f);
    }
    let rank = rank_of(from);
    let white = us == Color::White;
    let last: u8 = if white { 7 } else { 0 };
    let ghost added: Seq<Move> = Seq::empty();
    let one_ok = if white { from < 56 } else { from >= 8 };
    let ghost one = step(f, 0, push_dir(us));
    let ghost two = step(f, 0, 2 * push_dir(us));
    if !one_ok {
        proof {
            assert(one == -1);
            assert forall|m2: Move| #[trigger] added.contains(m2) <==> push_part(m, f, m2) by {}
        }
        return Ghost(added);
    }
    let one_sq = if white { from + 8 } else { from - 8 };
    proof {
        crate::movegen::attacks::lemma_square_fr(crate::board::file_spec(f), rank_spec(f) + push_dir(us));
        assert(one_sq as int == one);
        crate::bitboard::lemma_mask_test(occupied, one_sq as u64);
        assert(sq_in(occupied, one) == (m.board[one] is Some));
    }
    if occupied & bit(one_sq) != 0 {
        proof {
            assert(m.board[one] is Some);
            assert forall|m2: Move| #[trigger] added.contains(m2) <==> push_part(m, f, m2) by {}
        }
        return Ghost(added);
    }
    proof {
        assert(m.board[one] is None);
    }
    if rank_of(one_sq) == last {
        let Ghost(a) = add_promotions(list, from, one_sq, Ghost(start), Ghost(added));
        proof {
            assert(rank_spec(one) == promo_rank(us));
            assert(rank_spec(f) != start_rank(us));
            assert forall|m2: Move| #[trigger] a.contains(m2) <==> push_part(m, f, m2) by {}
        }
        return Ghost(a);
    }
    proof {
        assert(rank_spec(one) != promo_rank(us));
    }
    let mv = Move::new(from, one_sq, MoveKind::Quiet);
    push_recorded(list, mv, Ghost(start), Ghost(added), Ghost(f));
    proof {
        lemma_push_contains(added, mv);
    }
    let ghost a1 = added.push(mv);
    if rank == (if white { 1u8 } else { 6u8 }) {
        let two_sq = if white { from + 16 } else { from - 16 };
        proof {
            crate::movegen::attacks::lemma_square_fr(crate::board::file_spec(f), rank_spec(f) + 2 * push_dir(us));
            assert(two_sq as int == two);
            crate::bitboard::lemma_mask_test(occupied, two_sq as u64);
            assert(sq_in(occupied, two) == (m.board[two] is Some));
        }
        if occupied & bit(two_sq) == 0 {
            let dm = Move::new(from, two_sq, MoveKind::DoublePawn);
            push_recorded(list, dm, Ghost(start), Ghost(a1), Ghost(f));
            proof {
                lemma_push_contains(a1, dm);
                assert forall|m2: Move| #[trigger] a1.push(dm).contains(m2) <==> push_part(m, f, m2) by {
                    if push_part(m, f, m2) {
                        if m2.kind_code() == 2 {
                            Move::lemma_fields_determine(m2, dm);
                        } else {
                            Move::lemma_fields_determine(m2, mv);
                        }
                    }
                }
            }
            return Ghost(a1.push(dm));
        }
    }
    proof {
        if rank == (if white { 1u8 } else { 6u8 }) {
            assert(m.board[two] is Some);
        }
        assert forall|m2: Move| #[trigger] a1.contains(m2) <==> push_part(m, f, m2) by {
            if push_part(m, f, m2) {
                if m2.kind_code() == 2 {
                } else {
                    Move::lemma_fields_determine(m2, mv);
                }
            }
        }
    }
    Ghost(a1)
}

/// Adds the captures of the pawn on `from` onto the squares of `caps`.
fn gen_pawn_captures(from: Square, us: Color, caps: u64, list: &mut MoveList, Ghost(start): Ghost<Seq<Move>>, Ghost(pushes): Ghost<Seq<Move>>, Ghost(one): Ghost<int>, Ghost(two): Ghost<int>) -> (added: Ghost<Seq<Move>>)
    requires
        from < 64,
        holds_moves(old(list)@, start, pushes, from as int),
        forall|t: int| #[trigger] sq_in(caps, t) ==> pawn_target(us, from as int, t),
        forall|t: int| 0 <= t < 64 && pawn_target(us, from as int, t) ==> t != one && t != two,
        forall|mv: Move| #[trigger] pushes.contains(mv) ==> mv.to_sq() == one || mv.to_sq() == two,
    ensures
        holds_moves(final(list)@, start, added@, from as int),
        forall|mv: Move| #[trigger] added@.contains(mv) <==> (pushes.contains(mv) || pawn_capture_of(mv, from as int, caps, promo_rank(us))),
{
    let ghost f = from as int;
    let last: u8 = if us == Color::White { 7 } else { 0 };
    let ghost mut added: Seq<Move> = pushes;
    let mut targets = caps;
    while targets != 0
        invariant
            f == from as int,
            from < 64,
            last as int == promo_rank(us),
            forall|t: int| #[trigger] sq_in(targets, t) ==> sq_in(caps, t),
            forall|t: int| #[trigger] sq_in(caps, t) ==> pawn_target(us, f, t),
            forall|t: int| 0 <= t < 64 && pawn_target(us, f, t) ==> t != one && t != two,
            forall|mv: Move| #[trigger] pushes.contains(mv) ==> mv.to_sq() == one || mv.to_sq() == two,
            holds_moves(list@, start, added, f),
            forall|mv: Move| #[trigger] added.contains(mv) <==> (pushes.contains(mv) || (pawn_capture_of(mv, f, caps, last as int) && !sq_in(targets, mv.to_sq() as int))),
        decreases targets,
    {
        let to = pop_lsb(&mut targets);
        proof {
            assert(sq_in(caps, to as int));
            assert(to as int != one && to as int != two);
        }
        if rank_of(to) == last {
            let Ghost(a) = add_promotions(list, from, to, Ghost(start), Ghost(added));
            proof {
                assert forall|mv: Move| #[trigger] a.contains(mv) <==> (pushes.contains(mv) || (pawn_capture_of(mv, f, caps, last as int) && !sq_in(targets, mv.to_sq() as int))) by {
                    if promotion_of(mv, f, to as int) {
                        assert(pawn_capture_of(mv, f, caps, last as int));
                    }
                }
                added = a;
            }
        } else {
            let cm = Move::new(from, to, MoveKind::Capture);
            proof {
                if added.contains(cm) {
                    assert(!pushes.contains(cm));
                }
            }
            push_recorded(list, cm, Ghost(start), Ghost(added), Ghost(f));
            proof {
                lemma_push_contains(added, cm);
                assert forall|mv: Move| #[trigger] added.push(cm).contains(mv) <==> (pushes.contains(mv) || (pawn_capture_of(mv, f, caps, last as int) && !sq_in(targets, mv.to_sq() as int))) by {
                    if pawn_capture_of(mv, f, caps, last as int) && mv.to_sq() == to {
                        Move::lemma_fields_determine(mv, cm);
                    }
                }
                added = added.push(cm);
            }
        }
    }
    proof {
        assert forall|t: int| !sq_in(targets, t) by {
            if 0 <= t < 64 {
                crate::bitboard::lemma_bit_zero(t as u64);
            }
        }
    }
    Ghost(added)
}

/// Adds the moves of the pawn on `from`.
fn gen_pawn(position: &Position, from: Square, us: Color, enemy: u64, occupied: u64, list: &mut MoveList, Ghost(start): Ghost<Seq<Move>>) -> (added: Ghost<Seq<Move>>)
    requires
        position.wf(),
        us == position@.side,
        from < 64,
        position@.board[from as int] == Some(Piece { color: us, kind: PieceKind::Pawn }),
        forall|s: int| 0 <= s < 64 ==> #[trigger] sq_in(enemy, s) == (position@.board[s] matches Some(p) && p.color == us.opp()),
        forall|s: int| 0 <= s < 64 ==> #[trigger] sq_in(occupied, s) == (position@.board[s] is Some),
        holds_moves(old(list)@, start, Seq::empty(), from as int),
    ensures
        holds_moves(final(list)@, start, added@, from as int),
        forall|mv: Move| #[trigger] added@.contains(mv) <==> pawn_move(position@, from as int, mv),
{
    let ghost m = position@;
    let ghost f = from as int;
    proof {
        position.lemma_wf();
        crate::movegen::attacks::lemma_fr_square(f);
    }
    let ghost one = step(f, 0, push_dir(us));
    let ghost two = step(f, 0, 2 * push_dir(us));
    let Ghost(pushes) = gen_pawn_pushes(position, from, us, occupied, list, Ghost(start));
    let atk = pawn_attacks(us, from);
    let caps = atk & enemy;
    proof {
        assert forall|mv: Move| #[trigger] pushes.contains(mv) implies mv.to_sq() == one || mv.to_sq() == two by {
            assert(push_part(m, f, mv));
        }
        assert forall|t: int| 0 <= t < 64 implies #[trigger] sq_in(caps, t) == (pawn_target(us, f, t) && (m.board[t] matches Some(q) && q.color == us.opp())) by {
            lemma_bit_and(atk, enemy, t as u64);
            assert(sq_in(caps, t) == (sq_in(atk, t) && sq_in(enemy, t)));
        }
        assert forall|t: int| 0 <= t < 64 && pawn_target(us, f, t) implies t != one && t != two by {
            crate::movegen::attacks::lemma_fr_square(t);
        }
    }
    let Ghost(a) = gen_pawn_captures(from, us, caps, list, Ghost(start), Ghost(pushes), Ghost(one), Ghost(two));
    let ghost mut ep_move: Option<Move> = None;
    match position.en_passant() {
        Some(ep) => {
            proof { crate::bitboard::lemma_mask_test(atk, ep as u64); }
            if atk & bit(ep) != 0 {
                let em = Move::new(from, ep, MoveKind::EnPassant);
                proof {
                    if a.contains(em) {
                        if pushes.contains(em) {
                            assert(push_part(m, f, em));
                        }
                    }
                }
                push_recorded(list, em, Ghost(start), Ghost(a), Ghost(f));
                proof {
                    assert(sq_in(atk, ep as int));
                    assert(pawn_target(us, f, ep as int));
                    ep_move = Some(em);
                }
            } else {
                proof { assert(!sq_in(atk, ep as int)); }
            }
        },
        None => {},
    }
    proof {
        lemma_pawn_characterization(m, f, pushes, caps, a, ep_move);
    }
    let ghost added = with_extra(a, ep_move);
    Ghost(added)
}

pub open spec fn with_extra(a: Seq<Move>, extra: Option<Move>) -> Seq<Move> {
    match extra {
        Some(em) => a.push(em),
        None => a,
    }
}

proof fn lemma_pawn_characterization(m: PositionModel, f: int, pushes: Seq<Move>, caps: u64, a: Seq<Move>, ep_move: Option<Move>)
    requires
        0 <= f < 64,
        forall|mv: Move| #[trigger] pushes.contains(mv) <==> push_part(m, f, mv),
        forall|t: int| 0 <= t < 64 ==> #[trigger] sq_in(caps, t) == (pawn_target(m.side, f, t) && (m.board[t] matches Some(q) && q.color == m.side.opp())),
        forall|mv: Move| #[trigger] a.contains(mv) <==> (pushes.contains(mv) || pawn_capture_of(mv, f, caps, promo_rank(m.side))),
        ep_move matches Some(em) ==> (m.ep matches Some(e) && em == Move::of(f, e as int, MoveKind::EnPassant) && pawn_target(m.side, f, e as int) && e < 64),
        ep_move is None ==> !(m.ep matches Some(e) && pawn_target(m.side, f, e as int)),
    ensures
        forall|mv: Move| #[trigger] with_extra(a, ep_move).contains(mv) <==> pawn_move(m, f, mv),
{
    let added = with_extra(a, ep_move);
    match ep_move {
        Some(em) => { lemma_push_contains(a, em); Move::lemma_of(f, m.ep.unwrap() as int, MoveKind::EnPassant); },
        None => {},
    }
    assert forall|mv: Move| #[trigger] added.contains(mv) <==> pawn_move(m, f, mv) by {
        if pushes.contains(mv) {
            assert(push_part(m, f, mv));
        }
        if pawn_move(m, f, mv) {
            if mv.kind_code() == 3 {
                Move::lemma_of(f, mv.to_sq() as int, MoveKind::EnPassant);
                Move::lemma_fields_determine(mv, Move::of(f, mv.to_sq() as int, MoveKind::EnPassant));
            } else if push_part(m, f, mv) {
            } else {
                assert(pawn_capture_of(mv, f, caps, promo_rank(m.side)));
            }
        }
    }
}

proof fn lemma_holds_init(l: Seq<Move>, from: int)
    ensures
        holds_moves(l, l, Seq::empty(), from),
{
    reveal(holds_moves);
}

/// A pawn of the side to move stands on the origin of `mv`, and `mv` is one
/// of its moves.
pub open spec fn pawn_of_side_move(m: PositionModel, mv: Move) -> bool {
    m.board[mv.from_sq() as int] == Some(Piece { color: m.side, kind: PieceKind::Pawn }) && pawn_move(m, mv.from_sq() as int, mv)
}

/// Adds the moves of every pawn of the side to move.
fn gen_pawns(position: &Position, list: &mut MoveList)
    requires
        position.wf(),
    ensures
        forall|mv: Move| #[trigger] final(list)@.contains(mv) ==> old(list)@.contains(mv) || pawn_of_side_move(position@, mv),
        final(list)@.len() < 256 ==> forall|mv: Move|
            #[trigger] final(list)@.contains(mv) <== old(list)@.contains(mv) || pawn_of_side_move(position@, mv),
        final(list)@.len() >= old(list)@.len(),
        old(list)@.len() <= 256 ==> final(list)@.len() <= 256,
        old(list)@.no_duplicates() && (forall|i: int|
            0 <= i < old(list)@.len() ==> position@.board[#[trigger] old(list)@[i].from_sq() as int] != Some(
                Piece { color: position@.side, kind: PieceKind::Pawn },
            )) ==> final(list)@.no_duplicates(),
{
    let ghost m = position@;
    let ghost start = list@;
    let us = position.side_to_move();
    let them = us.opposite();
    let enemy = position.occupancy(them);
    let occ = position.all_occupancy();
    let pawns = position.pieces(us, PieceKind::Pawn);
    let ghost piece = Piece { color: us, kind: PieceKind::Pawn };
    let mut rest = pawns;
    proof {
        position.lemma_wf();
    }
    while rest != 0
        invariant
            position.wf(),
            m == position@,
            us == m.side,
            them == us.opp(),
            piece == (Piece { color: us, kind: PieceKind::Pawn }),
            forall|s: int| 0 <= s < 64 ==> #[trigger] sq_in(enemy, s) == (m.board[s] matches Some(p) && p.color == us.opp()),
            forall|s: int| 0 <= s < 64 ==> #[trigger] sq_in(occ, s) == (m.board[s] is Some),
            forall|s: int| 0 <= s < 64 ==> #[trigger] sq_in(pawns, s) == (m.board[s] == Some(piece)),
            forall|t: int| #[trigger] sq_in(rest, t) ==> sq_in(pawns, t),
            forall|mv: Move|
                #[trigger] list@.contains(mv) ==> start.contains(mv) || (pawn_of_side_move(m, mv) && !sq_in(rest, mv.from_sq() as int)),
            list@.len() < 256 ==> forall|mv: Move|
                #[trigger] list@.contains(mv) <== start.contains(mv) || (pawn_of_side_move(m, mv) && !sq_in(rest, mv.from_sq() as int)),
            list@.len() >= start.len(),
            start.len() <= 256 ==> list@.len() <= 256,
            start.no_duplicates() && (forall|i: int|
                0 <= i < start.len() ==> m.board[#[trigger] start[i].from_sq() as int] != Some(piece)) ==> list@.no_duplicates(),
        decreases rest,
    {
        let ghost before = list@;
        let ghost old_rest = rest;
        let from = pop_lsb(&mut rest);
        proof {
            lemma_holds_init(before, from as int);
            assert(sq_in(pawns, from as int));
        }
        let Ghost(added) = gen_pawn(position, from, us, enemy, occ, list, Ghost(before));
        proof {
            reveal(holds_moves);
            assert forall|mv: Move| #[trigger] list@.contains(mv) implies start.contains(mv) || (pawn_of_side_move(m, mv) && !sq_in(rest, mv.from_sq() as int)) by {
                if before.contains(mv) {
                } else {
                    assert(added.contains(mv));
                    let i = choose|i: int| 0 <= i < added.len() && added[i] == mv;
                    assert(added[i].from_sq() == from);
                }
            }
            if list@.len() < 256 {
                assert forall|mv: Move| #[trigger] list@.contains(mv) <== start.contains(mv) || (pawn_of_side_move(m, mv) && !sq_in(rest, mv.from_sq() as int)) by {
                    if start.contains(mv) || (pawn_of_side_move(m, mv) && !sq_in(old_rest, mv.from_sq() as int)) {
                        assert(before.contains(mv));
                    } else if pawn_of_side_move(m, mv) && !sq_in(rest, mv.from_sq() as int) {
                        assert(mv.from_sq() == from);
                        assert(added.contains(mv));
                    }
                }
            }
            if start.no_duplicates() && (forall|i: int| 0 <= i < start.len() ==> m.board[#[trigger] start[i].from_sq() as int] != Some(piece)) {
                assert(before.no_duplicates());
                assert forall|i: int, j: int| 0 <= i < before.len() && 0 <= j < added.len() implies #[trigger] before[i] != #[trigger] added[j] by {
                    assert(added[j].from_sq() == from);
                    assert(before.contains(before[i]));
                    if start.contains(before[i]) {
                        let k = choose|k: int| 0 <= k < start.len() && start[k] == before[i];
                        assert(m.board[start[k].from_sq() as int] != Some(piece));
                    }
                }
                assert(disjoint(before, added));
            }
        }
    }
    proof {
        assert forall|t: int| !sq_in(rest, t) by {
            if 0 <= t < 64 {
                crate::bitboard::lemma_bit_zero(t as u64);
            }
        }
    }
}

/// Adds the castling moves of the side to move.
fn gen_castles(position: &Position, list: &mut MoveList)
    requires
        position.wf(),
    ensures
        forall|mv: Move| #[trigger] final(list)@.contains(mv) ==> old(list)@.contains(mv) || castle_move(position@, mv),
        final(list)@.len() < 256 ==> forall|mv: Move|
            #[trigger] final(list)@.contains(mv) <== old(list)@.contains(mv) || castle_move(position@, mv),
        final(list)@.len() >= old(list)@.len(),
        old(list)@.len() <= 256 ==> final(list)@.len() <= 256,
        old(list)@.no_duplicates() && (forall|i: int|
            0 <= i < old(list)@.len() ==> (#[trigger] old(list)@[i]).kind_code() != 4 && old(list)@[i].kind_code() != 5)
            ==> final(list)@.no_duplicates(),
{
    let ghost m = position@;
    let ghost start = list@;
    proof {
        position.lemma_wf();
    }
    let us = position.side_to_move();
    let them = us.opposite();
    let rights = position.castling_rights();
    let white = us == Color::White;
    let king_sq: u8 = if white { 4 } else { 60 };
    let k_right = if white { CASTLE_WK } else { CASTLE_BK };
    let q_right = if white { CASTLE_WQ } else { CASTLE_BQ };
    let ghost home = king_home(us);
    let ghost nodup_ok = start.no_duplicates() && (forall|i: int| 0 <= i < start.len() ==> (#[trigger] start[i]).kind_code() != 4 && start[i].kind_code() != 5);
    if position.piece_at(king_sq) != Some(Piece { color: us, kind: PieceKind::King }) {
        return;
    }
    let ghost mut added: Seq<Move> = Seq::empty();
    proof { lemma_holds_init(start, home); }
    let k_ok = rights & k_right != 0 && position.piece_at(king_sq + 3) == Some(Piece { color: us, kind: PieceKind::Rook })
        && position.piece_at(king_sq + 1).is_none() && position.piece_at(king_sq + 2).is_none()
        && !is_square_attacked(position, king_sq, them) && !is_square_attacked(position, king_sq + 1, them)
        && !is_square_attacked(position, king_sq + 2, them);
    let mk = Move::new(king_sq, king_sq + 2, MoveKind::CastleKing);
    if k_ok {
        push_recorded(list, mk, Ghost(start), Ghost(added), Ghost(home));
        proof {
            lemma_push_contains(added, mk);
            added = added.push(mk);
        }
    }
    let q_ok = rights & q_right != 0 && position.piece_at(king_sq - 4) == Some(Piece { color: us, kind: PieceKind::Rook })
        && position.piece_at(king_sq - 1).is_none() && position.piece_at(king_sq - 2).is_none()
        && position.piece_at(king_sq - 3).is_none() && !is_square_attacked(position, king_sq, them)
        && !is_square_attacked(position, king_sq - 1, them) && !is_square_attacked(position, king_sq - 2, them);
    let mq = Move::new(king_sq, king_sq - 2, MoveKind::CastleQueen);
    if q_ok {
        proof {
            if added.contains(mq) {
                assert(mq == mk);
            }
        }
        push_recorded(list, mq, Ghost(start), Ghost(added), Ghost(home));
        proof {
            lemma_push_contains(added, mq);
            added = added.push(mq);
        }
    }
    proof {
        reveal(holds_moves);
        assert forall|mv: Move| #[trigger] added.contains(mv) <==> castle_move(m, mv) by {
            if castle_move(m, mv) {
                if mv.kind_code() == 4 {
                    Move::lemma_fields_determine(mv, mk);
                } else {
                    Move::lemma_fields_determine(mv, mq);
                }
            }
        }
        if nodup_ok {
            assert forall|i: int, j: int| 0 <= i < start.len() && 0 <= j < added.len() implies #[trigger] start[i] != #[trigger] added[j] by {
                assert(added.contains(added[j]));
                assert(castle_move(m, added[j]));
            }
            assert(disjoint(start, added));
        }
    }
}

/// Pseudo-legal moves of the side to move: every move in the list obeys piece
/// movement, and (while the list is not full) every such move is in it, once.
pub(crate) fn generate_pseudo(position: &Position) -> (list: MoveList)
    requires
        position.wf(),
    ensures
        forall|mv: Move| #[trigger] list@.contains(mv) ==> pseudo_legal(position@, mv),
        list@.len() < 256 ==> forall|mv: Move| #[trigger] list@.contains(mv) <== pseudo_legal(position@, mv),
        list@.no_duplicates(),
        list@.len() <= 256,
{
    let ghost m = position@;
    let ghost us = m.side;
    let mut list = MoveList::new();
    gen_pawns(position, &mut list);
    let ghost l1 = list@;
    proof {
        assert forall|i: int| 0 <= i < l1.len() implies m.board[#[trigger] l1[i].from_sq() as int] != Some(Piece { color: us, kind: PieceKind::Knight }) by {
            assert(l1.contains(l1[i]));
        }
    }
    gen_piece_moves(position, &mut list, PieceKind::Knight);
    let ghost l2 = list@;
    proof {
        assert forall|i: int| 0 <= i < l2.len() implies m.board[#[trigger] l2[i].from_sq() as int] != Some(Piece { color: us, kind: PieceKind::King }) by {
            assert(l2.contains(l2[i]));
        }
    }
    gen_piece_moves(position, &mut list, PieceKind::King);
    let ghost l3 = list@;
    proof {
        assert forall|i: int| 0 <= i < l3.len() implies m.board[#[trigger] l3[i].from_sq() as int] != Some(Piece { color: us, kind: PieceKind::Bishop }) by {
            assert(l3.contains(l3[i]));
            if l2.contains(l3[i]) {
            }
        }
    }
    gen_piece_moves(position, &mut list, PieceKind::Bishop);
    let ghost l4 = list@;
    proof {
        assert forall|i: int| 0 <= i < l4.len() implies m.board[#[trigger] l4[i].from_sq() as int] != Some(Piece { color: us, kind: PieceKind::Rook }) by {
            assert(l4.contains(l4[i]));
        }
    }
    gen_piece_moves(position, &mut list, PieceKind::Rook);
    let ghost l5 = list@;
    proof {
        assert forall|i: int| 0 <= i < l5.len() implies m.board[#[trigger] l5[i].from_sq() as int] != Some(Piece { color: us, kind: PieceKind::Queen }) by {
            assert(l5.contains(l5[i]));
        }
    }
    gen_piece_moves(position, &mut list, PieceKind::Queen);
    let ghost l6 = list@;
    proof {
        assert forall|i: int| 0 <= i < l6.len() implies (#[trigger] l6[i]).kind_code() != 4 && l6[i].kind_code() != 5 by {
            assert(l6.contains(l6[i]));
        }
    }
    gen_castles(position, &mut list);
    proof {
        assert forall|mv: Move| #[trigger] list@.contains(mv) implies pseudo_legal(m, mv) by {
            if castle_move(m, mv) {
                assert(mv.from_sq() == king_home(us));
            }
        }
        if list@.len() < 256 {
            assert forall|mv: Move| #[trigger] list@.contains(mv) <== pseudo_legal(m, mv) by {
                if pseudo_legal(m, mv) {
                    let p = m.board[mv.from_sq() as int].unwrap();
                    if p.kind == PieceKind::Pawn {
                        assert(pawn_of_side_move(m, mv));
                        assert(l1.contains(mv));
                    } else if p.kind == PieceKind::Knight {
                        assert(kind_move(m, PieceKind::Knight, mv));
                        assert(l2.contains(mv));
                    } else if p.kind == PieceKind::King {
                        if piece_move(m, p, mv.from_sq() as int, mv) {
                            assert(kind_move(m, PieceKind::King, mv));
                            assert(l3.contains(mv));
                        }
                    } else if p.kind == PieceKind::Bishop {
                        assert(kind_move(m, PieceKind::Bishop, mv));
                        assert(l4.contains(mv));
                    } else if p.kind == PieceKind::Rook {
                        assert(kind_move(m, PieceKind::Rook, mv));
                        assert(l5.contains(mv));
                    } else {
                        assert(kind_move(m, PieceKind::Queen, mv));
                        assert(l6.contains(mv));
                    }
                }
            }
        }
    }
    list
}

} // verus!
