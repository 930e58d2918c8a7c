//! Attack computation and strictly legal move generation.

mod attacks;
mod movelist;
mod generate;
mod legal;
mod see;

pub use legal::{lemma_empty_list, reference_legal_moves, lemma_generators_agree, generate_legal, keep_legal, fits, in_check_spec, king_square_spec, legal_move, lemma_king_square, lemma_no_king, lemma_pseudo_applicable};

pub use generate::{castle_move, is_move, is_promo_kind, pawn_move, piece_move, promo_rank, pseudo_legal, push_dir, right_bit, start_rank};

pub use movelist::MoveList;

pub use see::{attackers_to, exchange, exchange_fits, see, see_fits, see_ge, see_spec, see_value};

pub use attacks::{
    bishop_attacks, bishop_target, king_attacks, king_target, knight_attacks, knight_target, pawn_attacks, pawn_target,
    queen_attacks, ray_step, rook_attacks, rook_target, sgn_mul, slides_to, step, lemma_leaper_symmetric, lemma_slider_symmetric,
};

use vstd::prelude::*;

use crate::bitboard::{lemma_bit_and, lemma_bit_or, lemma_bit_zero, lemma_trailing_zeros, sq_in};
use crate::board::{occupancy_of, Color, Piece, PieceKind, Position, Square};

verus! {

/// A piece `p` standing on `from` attacks `to`, with `occ` as blockers.
pub open spec fn piece_attacks(p: Piece, from: int, to: int, occ: u64) -> bool {
    match p.kind {
        PieceKind::Pawn => pawn_target(p.color, from, to),
        PieceKind::Knight => knight_target(from, to),
        PieceKind::King => king_target(from, to),
        PieceKind::Bishop => bishop_target(from, occ, to),
        PieceKind::Rook => rook_target(from, occ, to),
        PieceKind::Queen => rook_target(from, occ, to) || bishop_target(from, occ, to),
    }
}

/// Some piece of color `by` attacks square `sq` on `board`.
pub open spec fn attacked_by(board: Seq<Option<Piece>>, sq: int, by: Color) -> bool {
    exists|from: int|
        0 <= from < 64 && (#[trigger] board[from] matches Some(p) && p.color == by && piece_attacks(p, from, sq, occupancy_of(board)))
}

/// Two bitboards intersect exactly when they share a square.
pub proof fn lemma_and_nonzero(a: u64, b: u64)
    ensures
        (a & b != 0) == exists|t: int| 0 <= t < 64 && #[trigger] sq_in(a, t) && sq_in(b, t),
{
    if a & b != 0 {
        lemma_trailing_zeros(a & b);
        let t = (a & b).trailing_zeros() as int;
        lemma_bit_and(a, b, t as u64);
        assert(sq_in(a, t) && sq_in(b, t));
    }
    if exists|t: int| 0 <= t < 64 && #[trigger] sq_in(a, t) && sq_in(b, t) {
        let t = choose|t: int| 0 <= t < 64 && #[trigger] sq_in(a, t) && sq_in(b, t);
        lemma_bit_and(a, b, t as u64);
        if a & b == 0 {
            lemma_bit_zero(t as u64);
        }
    }
}

/// A square is attacked by `by` exactly when the bitboard of its attackers
/// (as `attackers_to` gives it) meets the occupancy of `by`.
pub proof fn lemma_attacked_by_attackers(board: Seq<Option<Piece>>, sq: int, by: Color, attackers: u64, occ_by: u64)
    requires
        forall|t: int| 0 <= t < 64 ==> #[trigger] sq_in(attackers, t) == (board[t] matches Some(p) && piece_attacks(p, t, sq, occupancy_of(board))),
        forall|t: int| 0 <= t < 64 ==> #[trigger] sq_in(occ_by, t) == (board[t] matches Some(p) && p.color == by),
    ensures
        attacked_by(board, sq, by) == (attackers & occ_by != 0),
{
    lemma_and_nonzero(attackers, occ_by);
    if attacked_by(board, sq, by) {
        let from = choose|from: int|
            0 <= from < 64 && (#[trigger] board[from] matches Some(p) && p.color == by && piece_attacks(p, from, sq, occupancy_of(board)));
        assert(sq_in(attackers, from) && sq_in(occ_by, from));
    }
    if attackers & occ_by != 0 {
        let t = choose|t: int| 0 <= t < 64 && #[trigger] sq_in(attackers, t) && sq_in(occ_by, t);
        assert(board[t] matches Some(p) && p.color == by && piece_attacks(p, t, sq, occupancy_of(board)));
    }
}

/// Whether `by` attacks `square`, using the actual occupancy in `position`.
pub fn is_square_attacked(position: &Position, square: Square, by: Color) -> (r: bool)
    requires
        square < 64,
    ensures
        position.consistent() ==> r == attacked_by(position@.board, square as int, by),
{
    let occ = position.all_occupancy();
    let ghost board = position@.board;
    let ghost s = square as int;
    let ghost c = position.consistent();
    let pawns = pawn_attacks(by.opposite(), square);
    let pw = position.pieces(by, PieceKind::Pawn);
    let knights = knight_attacks(square);
    let kn = position.pieces(by, PieceKind::Knight);
    let kings = king_attacks(square);
    let kg = position.pieces(by, PieceKind::King);
    let diag = bishop_attacks(square, occ);
    let bb = position.pieces(by, PieceKind::Bishop);
    let qb = position.pieces(by, PieceKind::Queen);
    let bq = bb | qb;
    let orth = rook_attacks(square, occ);
    let rb = position.pieces(by, PieceKind::Rook);
    let rq = rb | qb;
    let r = (pawns & pw) != 0 || (knights & kn) != 0 || (kings & kg) != 0 || (diag & bq) != 0 || (orth & rq) != 0;
    proof {
        if c {
            lemma_and_nonzero(pawns, pw);
            lemma_and_nonzero(knights, kn);
            lemma_and_nonzero(kings, kg);
            lemma_and_nonzero(diag, bq);
            lemma_and_nonzero(orth, rq);
            let o = occupancy_of(board);
            assert(occ == o);
            assert forall|t: int| 0 <= t < 64 implies #[trigger] sq_in(bq, t) == (board[t] == Some(Piece { color: by, kind: PieceKind::Bishop }) || board[t] == Some(Piece { color: by, kind: PieceKind::Queen })) by {
                lemma_bit_or(bb, qb, t as u64);
                assert(sq_in(bq, t) == (sq_in(bb, t) || sq_in(qb, t)));
            }
            assert forall|t: int| 0 <= t < 64 implies #[trigger] sq_in(rq, t) == (board[t] == Some(Piece { color: by, kind: PieceKind::Rook }) || board[t] == Some(Piece { color: by, kind: PieceKind::Queen })) by {
                lemma_bit_or(rb, qb, t as u64);
                assert(sq_in(rq, t) == (sq_in(rb, t) || sq_in(qb, t)));
            }
            if attacked_by(board, s, by) {
                let from = choose|from: int|
                    0 <= from < 64 && (#[trigger] board[from] matches Some(p) && p.color == by && piece_attacks(p, from, s, o));
                let p = board[from].unwrap();
                lemma_leaper_symmetric(from, s, by);
                lemma_slider_symmetric(from, o, s);
                match p.kind {
                    PieceKind::Pawn => { assert(sq_in(pawns, from) && sq_in(pw, from)); },
                    PieceKind::Knight => { assert(sq_in(knights, from) && sq_in(kn, from)); },
                    PieceKind::King => { assert(sq_in(kings, from) && sq_in(kg, from)); },
                    PieceKind::Bishop => { assert(sq_in(diag, from) && sq_in(bq, from)); },
                    PieceKind::Rook => { assert(sq_in(orth, from) && sq_in(rq, from)); },
                    PieceKind::Queen => {
                        if rook_target(from, o, s) {
                            assert(sq_in(orth, from) && sq_in(rq, from));
                        } else {
                            assert(sq_in(diag, from) && sq_in(bq, from));
                        }
                    },
                }
            }
            if r {
                let t = if (pawns & pw) != 0 {
                    choose|t: int| 0 <= t < 64 && #[trigger] sq_in(pawns, t) && sq_in(pw, t)
                } else if (knights & kn) != 0 {
                    choose|t: int| 0 <= t < 64 && #[trigger] sq_in(knights, t) && sq_in(kn, t)
                } else if (kings & kg) != 0 {
                    choose|t: int| 0 <= t < 64 && #[trigger] sq_in(kings, t) && sq_in(kg, t)
                } else if (diag & bq) != 0 {
                    choose|t: int| 0 <= t < 64 && #[trigger] sq_in(diag, t) && sq_in(bq, t)
                } else {
                    choose|t: int| 0 <= t < 64 && #[trigger] sq_in(orth, t) && sq_in(rq, t)
                };
                lemma_leaper_symmetric(t, s, by);
                lemma_slider_symmetric(t, o, s);
                assert(board[t] matches Some(p) && p.color == by && piece_attacks(p, t, s, o));
            }
        }
    }
    r
}

} // verus!
