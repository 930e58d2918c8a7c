//! The recursive search: negamax with alpha-beta and PVS, quiescence,
//! null-move pruning, late-move reductions, futility pruning, check
//! extensions, move ordering, and the principal variation.

use std::sync::atomic::AtomicBool;
use std::sync::Arc;
use std::time::Instant;

use vstd::prelude::*;

use crate::board::{after_move, insufficient_material, occurrences, Color, PieceKind, Position, PositionModel, Undo};
use crate::eval::{evaluate, piece_value};
use crate::eval::params::mg_value_spec;
use crate::movegen::{fits, legal_move, lemma_pseudo_applicable, see_fits, see_ge, see_spec, MoveList};
use crate::moves::{group_move_bounds, Move, MoveKind};
use crate::search::clock::{as_nanos, elapsed, stop_requested};
use crate::search::{INF, SearchLine, lemma_legal_empty, lemma_legal_cons, lemma_legal_prefix, legal_line, score_from_tt, score_to_tt, MATE_SCORE, SCORE_LIMIT};
use crate::eval::evaluate_spec;
use crate::movegen::in_check_spec;
use crate::tt::{probe_model, Bound, TranspositionTable};

verus! {

broadcast use group_move_bounds;

pub const MAX_PLY: usize = 128;
pub const FUTILITY_MARGIN_PER_PLY: i32 = 95;

/// One search's working state; the transposition table is lent to it by
/// the engine for the duration of the search.
pub(crate) struct Searcher {
    pub(crate) tt: TranspositionTable,
    pub(crate) start: Instant,
    pub(crate) budget_ns: Option<u128>,
    pub(crate) node_limit: Option<u64>,
    pub(crate) stop: Option<Arc<AtomicBool>>,
    pub(crate) aborted: bool,
    pub(crate) nodes: u64,
    pub(crate) seldepth: usize,
    pub(crate) tt_hits: u64,
    pub(crate) killers: Vec<Move>,
    pub(crate) history: Vec<i32>,
    pub(crate) pv: Vec<Vec<Move>>,
}

/// The history-table slot of a move of `color`: by colour, origin and
/// destination.
pub open spec fn history_index(color: Color, mv: Move) -> int {
    color.idx() * 4096 + mv.from_sq() * 64 + mv.to_sq()
}

pub open spec fn min_int(a: int, b: int) -> int {
    if a < b { a } else { b }
}

/// A draw by the fifty-move rule, threefold repetition or insufficient
/// material.
pub open spec fn drawn(m: PositionModel) -> bool {
    m.halfmove >= 100 || occurrences(m.history, m.key) >= 3 || insufficient_material(m.board)
}

/// The side to move has no legal move.
pub open spec fn no_legal_move(m: PositionModel) -> bool {
    forall|mv: Move| !#[trigger] legal_move(m, mv)
}

/// What a root search reports for a position it need not search: a draw
/// scores zero, and a position without a legal move scores a mate against
/// the side to move when it is in check, else zero, with no moves.
pub open spec fn root_outcome(m: PositionModel, score: i32, pv: Seq<Move>) -> bool {
    &&& drawn(m) ==> score == 0
    &&& !drawn(m) && no_legal_move(m) ==> score == (if in_check_spec(m, m.side) { -MATE_SCORE } else { 0 }) && pv.len() == 0
}

/// The number of legal moves of `m`.
pub open spec fn legal_count(m: PositionModel) -> nat {
    Set::new(|mv: Move| legal_move(m, mv)).len()
}

/// The number of lines a search of `m` for `count` lines reports: one for a
/// drawn position or one without a legal move, else one per legal move, at
/// most `count`.
#[verifier::opaque]
pub open spec fn line_count(m: PositionModel, count: int) -> int {
    if drawn(m) || no_legal_move(m) {
        1
    } else if count < legal_count(m) {
        count
    } else {
        legal_count(m) as int
    }
}

/// A list holding exactly the legal moves of `m`, each once, has as many
/// moves as `m` has legal moves.
proof fn lemma_legal_count(m: PositionModel, moves: Seq<Move>)
    requires
        moves.no_duplicates(),
        forall|mv: Move| #[trigger] moves.contains(mv) <==> legal_move(m, mv),
    ensures
        legal_count(m) == moves.len(),
{
    moves.unique_seq_to_set();
    assert(moves.to_set() =~= Set::new(|mv: Move| legal_move(m, mv)));
}

/// Whether `mv` captures in `m`: en passant, or onto an occupied square.
pub open spec fn is_capture_on(m: PositionModel, mv: Move) -> bool {
    mv.kind_spec() == MoveKind::EnPassant || m.board[mv.to_sq() as int] is Some
}

/// The middlegame value of the piece on `sq`, or zero for an empty square.
pub open spec fn value_on(m: PositionModel, sq: int) -> int {
    match m.board[sq] {
        Some(p) => mg_value_spec(p.kind),
        None => 0,
    }
}

/// The value of what a capture takes: a pawn for en passant.
pub open spec fn victim_value(m: PositionModel, mv: Move) -> int {
    if mv.kind_spec() == MoveKind::EnPassant {
        mg_value_spec(PieceKind::Pawn)
    } else {
        value_on(m, mv.to_sq() as int)
    }
}

/// Whether a capture looks sound: by exchange evaluation near the root,
/// further down by the victim being worth at least the attacker.
pub open spec fn capture_looks_good(m: PositionModel, mv: Move, ply: int) -> bool {
    if ply < 2 {
        see_spec(m, mv) >= 0
    } else {
        victim_value(m, mv) >= value_on(m, mv.from_sq() as int)
    }
}

/// `a` (score `sa`, encoding `ra`) may come before `b` in an ordered list:
/// a higher score, or an equal score and an encoding no larger.
pub open spec fn key_before(sa: i32, ra: u16, sb: i32, rb: u16) -> bool {
    sa > sb || (sa == sb && ra <= rb)
}

/// The moves `ms` with scores `ss` are in order on positions `lo..hi`.
pub open spec fn in_order(ms: Seq<Move>, ss: Seq<i32>, lo: int, hi: int) -> bool {
    forall|a: int, b: int| lo <= a < b < hi ==> #[trigger] key_before(ss[a], ms[a]@, ss[b], ms[b]@)
}

/// Inserting `ms[i]` at `j`, after the ones before it and ahead of the ones
/// it goes before, keeps an ordered prefix ordered.
proof fn lemma_insert_sorted(ms: Seq<Move>, ss: Seq<i32>, am: Seq<Move>, asc: Seq<i32>, i: int, j: int)
    requires
        0 <= j <= i < ms.len(),
        ss.len() == ms.len(),
        am.len() == ms.len(),
        asc.len() == ms.len(),
        in_order(ms, ss, 0, i),
        am[j] == ms[i],
        asc[j] == ss[i],
        forall|k: int| 0 <= k < am.len() && k != j ==> #[trigger] am[k] == (if j < k <= i { ms[k - 1] } else { ms[k] }),
        forall|k: int| 0 <= k < asc.len() && k != j ==> #[trigger] asc[k] == (if j < k <= i { ss[k - 1] } else { ss[k] }),
        j > 0 ==> key_before(ss[j - 1], ms[j - 1]@, ss[i], ms[i]@),
        forall|k: int| j <= k < i ==> #[trigger] key_before(ss[i], ms[i]@, ss[k], ms[k]@),
    ensures
        in_order(am, asc, 0, i + 1),
{
    assert forall|a: int, b: int| 0 <= a < b < i + 1 implies #[trigger] key_before(asc[a], am[a]@, asc[b], am[b]@) by {
        let oa = if a == j { i } else if j < a <= i { a - 1 } else { a };
        let ob = if b == j { i } else if j < b <= i { b - 1 } else { b };
        assert(am[a] == ms[oa] && asc[a] == ss[oa]);
        assert(am[b] == ms[ob] && asc[b] == ss[ob]);
        if a == j {
            assert(key_before(ss[i], ms[i]@, ss[ob], ms[ob]@));
        } else if b == j {
            assert(key_before(ss[oa], ms[oa]@, ss[j - 1], ms[j - 1]@) || oa == j - 1);
            assert(key_before(ss[j - 1], ms[j - 1]@, ss[i], ms[i]@));
        } else {
            assert(oa < ob);
            assert(key_before(ss[oa], ms[oa]@, ss[ob], ms[ob]@));
        }
    }
}

/// No two of the lines start with the same move.
pub open spec fn distinct_firsts(lines: Seq<SearchLine>) -> bool {
    forall|a: int, b: int|
        0 <= a < lines.len() && 0 <= b < lines.len() && a != b && lines[a].pv@.len() > 0 && lines[b].pv@.len() > 0
            ==> #[trigger] lines[a].pv@[0] != #[trigger] lines[b].pv@[0]
}

/// Moving the element at `i` down to `j` and shifting the ones between up
/// by one keeps the elements of a list distinct.
proof fn lemma_shift_distinct(start: Seq<Move>, after: Seq<Move>, i: int, j: int)
    requires
        0 <= j <= i < start.len(),
        after.len() == start.len(),
        start.no_duplicates(),
        after[j] == start[i],
        forall|k: int| 0 <= k < after.len() && k != j ==> #[trigger] after[k] == (if j < k <= i { start[k - 1] } else { start[k] }),
    ensures
        after.no_duplicates(),
{
    assert forall|a: int, b: int| 0 <= a < after.len() && 0 <= b < after.len() && a != b implies after[a] != after[b] by {
        let pa = if a < j { a } else if a == j { i } else if a <= i { a - 1 } else { a };
        let pb = if b < j { b } else if b == j { i } else if b <= i { b - 1 } else { b };
        assert(after[a] == start[pa]);
        assert(after[b] == start[pb]);
        assert(pa != pb);
    }
}

/// A list whose moves are all legal in the position.
#[verifier::opaque]
pub open spec fn all_legal(m: PositionModel, l: Seq<Move>) -> bool {
    forall|mv: Move| #[trigger] l.contains(mv) ==> legal_move(m, mv)
}

pub(crate) proof fn lemma_listed_legal(m: PositionModel, l: Seq<Move>, mv: Move)
    requires
        all_legal(m, l),
        l.contains(mv),
    ensures
        legal_move(m, mv),
{
    reveal(all_legal);
}

/// Plays the `i`th move of a list of legal moves.
pub(crate) fn make_listed(position: &mut Position, moves: &MoveList, i: usize, Ghost(m): Ghost<PositionModel>) -> (r: (Move, Undo))
    requires
        old(position).wf(),
        old(position)@ == m,
        all_legal(m, moves@),
        i < moves@.len(),
    ensures
        r.0 == moves@[i as int],
        final(position).wf(),
        final(position)@ == after_move(m, r.0),
        r.1.restores(m, r.0),
{
    let mv = moves.get(i);
    proof {
        assert(moves@.contains(mv));
        lemma_listed_legal(m, moves@, mv);
        position.lemma_wf();
        lemma_pseudo_applicable(m, mv);
    }
    let undo = position.make_move_unchecked(mv);
    (mv, undo)
}

/// Takes back a move of a list of legal moves.
pub(crate) fn unmake_listed(position: &mut Position, moves: &MoveList, mv: Move, undo: Undo, Ghost(m): Ghost<PositionModel>)
    requires
        old(position).wf(),
        all_legal(m, moves@),
        moves@.contains(mv),
        crate::board::model_ok(m),
        old(position)@ == after_move(m, mv),
        undo.restores(m, mv),
    ensures
        final(position).wf(),
        final(position)@ == m,
{
    proof {
        lemma_listed_legal(m, moves@, mv);
        lemma_pseudo_applicable(m, mv);
    }
    position.unmake_move(mv, undo, Ghost(m));
}

fn copy_moves(v: &Vec<Move>) -> (r: Vec<Move>)
    ensures
        r@ == v@,
{
    let mut r: Vec<Move> = Vec::new();
    let mut i: usize = 0;
    while i < v.len()
        invariant
            i <= v@.len(),
            r@ == v@.take(i as int),
        decreases v@.len() - i,
    {
        r.push(v[i]);
        i = i + 1;
        proof {
            assert(r@ =~= v@.take(i as int));
        }
    }
    proof {
        assert(v@.take(v@.len() as int) =~= v@);
    }
    r
}

/// `a` comes before `b`: a higher score, or an equal score and a lower
/// first move.
fn line_before(a: &SearchLine, b: &SearchLine) -> (r: bool)
    requires
        a.pv@.len() >= 1,
        b.pv@.len() >= 1,
    ensures
        a.score > b.score ==> r,
        r ==> a.score >= b.score,
{
    a.score > b.score || (a.score == b.score && a.pv[0].raw() < b.pv[0].raw())
}

/// Sorts lines by descending score, ties by ascending first move.
fn sort_lines(lines: &mut Vec<SearchLine>, Ghost(m): Ghost<PositionModel>)
    requires
        forall|k: int| 0 <= k < old(lines)@.len() ==> legal_line(m, #[trigger] old(lines)@[k].pv@) && old(lines)@[k].pv@.len() >= 1,
        forall|k: int| 0 <= k < old(lines)@.len() ==> -SCORE_LIMIT <= #[trigger] old(lines)@[k].score <= SCORE_LIMIT,
        distinct_firsts(old(lines)@),
    ensures
        distinct_firsts(final(lines)@),
        final(lines)@.len() == old(lines)@.len(),
        forall|k: int| 0 <= k < final(lines)@.len() ==> legal_line(m, #[trigger] final(lines)@[k].pv@) && final(lines)@[k].pv@.len() >= 1,
        forall|k: int| 0 <= k < final(lines)@.len() ==> -SCORE_LIMIT <= #[trigger] final(lines)@[k].score <= SCORE_LIMIT,
        forall|a: int, b: int| 0 <= a < b < final(lines)@.len() ==> final(lines)@[a].score >= final(lines)@[b].score,
{
    let n = lines.len();
    let mut i: usize = 1;
    if n == 0 {
        return;
    }
    while i < n
        invariant
            1 <= i <= n,
            n == lines@.len(),
            forall|k: int| 0 <= k < lines@.len() ==> legal_line(m, #[trigger] lines@[k].pv@) && lines@[k].pv@.len() >= 1,
            forall|k: int| 0 <= k < lines@.len() ==> -SCORE_LIMIT <= #[trigger] lines@[k].score <= SCORE_LIMIT,
            forall|a: int, b: int| 0 <= a < b < i ==> lines@[a].score >= lines@[b].score,
            distinct_firsts(lines@),
        decreases n - i,
    {
        let ghost before = lines@;
        let x = lines.remove(i);
        proof {
            assert(x == before[i as int]);
        }
        let mut j: usize = i;
        while j > 0 && line_before(&x, &lines[j - 1])
            invariant
                j <= i < n,
                lines@.len() == n - 1,
                lines@ == before.remove(i as int),
                x == before[i as int],
                x.pv@.len() >= 1,
                forall|k: int| 0 <= k < lines@.len() ==> lines@[k].pv@.len() >= 1,
                forall|a: int, b: int| 0 <= a < b < i ==> lines@[a].score >= lines@[b].score,
                forall|k: int| j <= k < i ==> x.score >= #[trigger] lines@[k].score,
            decreases j,
        {
            j = j - 1;
        }
        lines.insert(j, x);
        proof {
            let l = lines@;
            assert(l == before.remove(i as int).insert(j as int, x));
            assert forall|k: int| 0 <= k < l.len() implies legal_line(m, #[trigger] l[k].pv@) && l[k].pv@.len() >= 1 by {
                if k < j {
                    assert(l[k] == before[k]);
                } else if k == j {
                } else if k <= i {
                    assert(l[k] == before[k - 1]);
                } else {
                    assert(l[k] == before[k]);
                }
            }
            assert forall|k: int| 0 <= k < l.len() implies -SCORE_LIMIT <= #[trigger] l[k].score <= SCORE_LIMIT by {
                if k < j {
                    assert(l[k] == before[k]);
                } else if k == j {
                } else if k <= i {
                    assert(l[k] == before[k - 1]);
                } else {
                    assert(l[k] == before[k]);
                }
            }
            assert forall|a: int, b: int| 0 <= a < b < i + 1 implies l[a].score >= l[b].score by {
                if j > 0 {
                    assert(x.score <= before[j - 1].score);
                }
            }
            assert forall|a: int, b: int|
                0 <= a < l.len() && 0 <= b < l.len() && a != b && l[a].pv@.len() > 0 && l[b].pv@.len() > 0
                    implies #[trigger] l[a].pv@[0] != #[trigger] l[b].pv@[0] by {
                let pa = if a < j { a } else if a == j { i as int } else if a <= i { a - 1 } else { a };
                let pb = if b < j { b } else if b == j { i as int } else if b <= i { b - 1 } else { b };
                assert(l[a] == before[pa]);
                assert(l[b] == before[pb]);
            }
        }
        i = i + 1;
    }
}

impl Searcher {
    /// Table sizes fixed, history scores in range, the table well formed.
    /// No time, node or stop limit: nothing but the depth ends the search.
    pub(crate) open spec fn unlimited(&self) -> bool {
        &&& self.budget_ns is None
        &&& self.node_limit is None
        &&& self.stop is None
    }

    pub(crate) closed spec fn inv(&self) -> bool {
        &&& self.tt.wf()
        &&& self.killers@.len() == 2 * MAX_PLY
        &&& self.history@.len() == 2 * 64 * 64
        &&& forall|i: int| 0 <= i < self.history@.len() ==> 0 <= #[trigger] self.history@[i] <= 30_000
        &&& self.pv@.len() == MAX_PLY
    }

    pub(crate) proof fn lemma_inv(&self)
        requires
            self.inv(),
        ensures
            self.tt.wf(),
    {
    }

    /// The ordering score of `mv` in `m`, with `good` the outcome of the
    /// exchange test of a capture.
    pub(crate) open spec fn ordering_score(&self, m: PositionModel, mv: Move, tt_move: Move, ply: int, good: bool) -> int {
        if mv == tt_move {
            2_000_000
        } else if is_capture_on(m, mv) {
            1_000_000 + victim_value(m, mv) * 16 - value_on(m, mv.from_sq() as int) + if good { 12_000int } else { -12_000int }
        } else if mv == self.killers@[ply * 2] {
            800_000
        } else if mv == self.killers@[ply * 2 + 1] {
            799_000
        } else {
            100_000 + self.history@[history_index(m.side, mv)]
        }
    }

    /// The scores `move_score` gives `mv`: its ordering score; near the root,
    /// where the exchange evaluation of a capture exceeds its bounds, with
    /// either outcome of the exchange test.
    pub(crate) open spec fn score_allowed(&self, m: PositionModel, mv: Move, tt_move: Move, ply: int, s: i32) -> bool {
        if ply < 2 && !see_fits(m, mv) {
            s == self.ordering_score(m, mv, tt_move, ply, true) || s == self.ordering_score(m, mv, tt_move, ply, false)
        } else {
            s == self.ordering_score(m, mv, tt_move, ply, capture_looks_good(m, mv, ply))
        }
    }

    /// `ss` are scores `move_score` gives the moves `s`, and the moves are in
    /// order of them.
    pub(crate) open spec fn scored_in_order(&self, m: PositionModel, s: Seq<Move>, tt_move: Move, ply: int, ss: Seq<i32>) -> bool {
        &&& ss.len() == s.len()
        &&& forall|k: int| 0 <= k < s.len() ==> self.score_allowed(m, s[k], tt_move, ply, #[trigger] ss[k])
        &&& in_order(s, ss, 0, s.len() as int)
    }

    /// The moves `s` come by descending ordering score, ties by ascending
    /// encoding.
    pub(crate) open spec fn sorted_moves(&self, m: PositionModel, s: Seq<Move>, tt_move: Move, ply: int) -> bool {
        exists|ss: Seq<i32>| #[trigger] self.scored_in_order(m, s, tt_move, ply, ss)
    }

    /// The principal variation recorded at `ply`.
    pub(crate) closed spec fn pv_line(&self, ply: int) -> Seq<Move> {
        self.pv@[ply]@
    }

    pub(crate) fn new(tt: TranspositionTable, start: Instant, budget_ns: Option<u128>, node_limit: Option<u64>, stop: Option<Arc<AtomicBool>>) -> (s: Self)
        requires
            tt.wf(),
        ensures
            s.inv(),
            s.tt == tt,
            !s.aborted,
            s.nodes == 0,
            s.budget_ns == budget_ns,
            s.node_limit == node_limit,
            s.stop == stop,
    {
        let mut killers: Vec<Move> = Vec::new();
        let mut i: usize = 0;
        while i < 2 * MAX_PLY
            invariant
                i <= 2 * MAX_PLY,
                killers@.len() == i,
            decreases 2 * MAX_PLY - i,
        {
            killers.push(Move::null());
            i = i + 1;
        }
        let mut history: Vec<i32> = Vec::new();
        let mut j: usize = 0;
        while j < 2 * 64 * 64
            invariant
                j <= 2 * 64 * 64,
                history@.len() == j,
                forall|k: int| 0 <= k < j ==> #[trigger] history@[k] == 0,
            decreases 2 * 64 * 64 - j,
        {
            history.push(0);
            j = j + 1;
        }
        let mut pv: Vec<Vec<Move>> = Vec::new();
        let mut k: usize = 0;
        while k < MAX_PLY
            invariant
                k <= MAX_PLY,
                pv@.len() == k,
            decreases MAX_PLY - k,
        {
            pv.push(Vec::new());
            k = k + 1;
        }
        Searcher {
            tt,
            start,
            budget_ns,
            node_limit,
            stop,
            aborted: false,
            nodes: 0,
            seldepth: 0,
            tt_hits: 0,
            killers,
            history,
            pv,
        }
    }

    /// Whether the search must stop: already aborted, out of nodes, or (at
    /// every 2048th node) stopped from outside or out of time.
    pub(crate) fn should_abort(&mut self) -> (r: bool)
        requires
            old(self).inv(),
        ensures
            final(self).unlimited() == old(self).unlimited(),
            old(self).unlimited() && !old(self).aborted ==> !final(self).aborted,
            final(self).inv(),
            r == final(self).aborted,
            old(self).aborted ==> final(self).aborted,
            final(self).pv == old(self).pv,
            final(self).tt == old(self).tt,
            final(self).nodes == old(self).nodes,
            final(self).budget_ns == old(self).budget_ns,
            old(self).nodes == 0 && old(self).budget_ns == Some(0u128) ==> r,
    {
        if self.aborted {
            return true;
        }
        proof {
            assert(0u64 & 2047u64 == 0u64) by (bit_vector);
        }
        match self.node_limit {
            Some(limit) => {
                if self.nodes >= limit {
                    self.aborted = true;
                    return true;
                }
            },
            None => {},
        }
        if self.nodes & 2047 == 0 {
            let late = match self.budget_ns {
                Some(budget) => {
                    let spent = elapsed(&self.start);
                    as_nanos(&spent) >= budget
                },
                None => false,
            };
            if stop_requested(&self.stop) || late {
                self.aborted = true;
                return true;
            }
        }
        false
    }

    /// A copy of the principal variation recorded at `ply`.
    fn pv_at(&self, ply: usize) -> (r: Vec<Move>)
        requires
            self.inv(),
            ply < MAX_PLY,
        ensures
            r@ == self.pv_line(ply as int),
    {
        copy_moves(&self.pv[ply])
    }

    /// Records `mv` followed by as much of `child` as fits as the
    /// principal variation at `ply`.
    fn set_pv(&mut self, ply: usize, mv: Move, child: &Vec<Move>)
        requires
            old(self).inv(),
            ply < MAX_PLY,
        ensures
            final(self).unlimited() == old(self).unlimited(),
            old(self).unlimited() && !old(self).aborted ==> !final(self).aborted,
            final(self).inv(),
            final(self).tt == old(self).tt,
            final(self).aborted == old(self).aborted,
            forall|q: int| 0 <= q < MAX_PLY && q != ply ==> #[trigger] final(self).pv@[q] == old(self).pv@[q],
            exists|n: int| 0 <= n <= child@.len() && #[trigger] final(self).pv_line(ply as int) == seq![mv] + child@.take(n),
    {
        let room = MAX_PLY - ply - 1;
        let n = if child.len() < room { child.len() } else { room };
        let mut row: Vec<Move> = Vec::new();
        row.push(mv);
        let mut i: usize = 0;
        while i < n
            invariant
                i <= n,
                n <= child@.len(),
                row@ == seq![mv] + child@.take(i as int),
            decreases n - i,
        {
            row.push(child[i]);
            i = i + 1;
            proof {
                assert(row@ =~= seq![mv] + child@.take(i as int));
            }
        }
        self.pv.set(ply, row);
        proof {
            assert(self.pv_line(ply as int) == seq![mv] + child@.take(n as int));
        }
    }

    /// Clears the principal variation at `ply`.
    fn clear_pv(&mut self, ply: usize)
        requires
            old(self).inv(),
            ply < MAX_PLY,
        ensures
            final(self).unlimited() == old(self).unlimited(),
            old(self).unlimited() && !old(self).aborted ==> !final(self).aborted,
            forall|m: PositionModel| legal_line(m, #[trigger] final(self).pv_line(ply as int)),
            final(self).inv(),
            final(self).tt == old(self).tt,
            final(self).aborted == old(self).aborted,
            final(self).nodes == old(self).nodes,
            forall|q: int| 0 <= q < MAX_PLY && q != ply ==> #[trigger] final(self).pv@[q] == old(self).pv@[q],
            final(self).pv_line(ply as int) == Seq::<Move>::empty(),
    {
        self.pv.set(ply, Vec::new());
        proof {
            assert forall|m: PositionModel| legal_line(m, #[trigger] self.pv_line(ply as int)) by {
                lemma_legal_empty(m);
            }
        }
    }

    /// A quiet move that caused a cutoff becomes the first killer of its
    /// ply, and its history score grows by the depth squared, capped.
    fn record_cutoff(&mut self, color: Color, mv: Move, ply: usize, depth: i32)
        requires
            old(self).inv(),
            ply < MAX_PLY,
            0 <= depth <= 64,
        ensures
            final(self).unlimited() == old(self).unlimited(),
            old(self).unlimited() && !old(self).aborted ==> !final(self).aborted,
            final(self).inv(),
            final(self).tt == old(self).tt,
            final(self).aborted == old(self).aborted,
            final(self).pv == old(self).pv,
            final(self).nodes == old(self).nodes,
            final(self).seldepth == old(self).seldepth,
            final(self).tt_hits == old(self).tt_hits,
            final(self).killers@ == (if old(self).killers@[ply * 2] != mv {
                old(self).killers@.update(ply * 2 + 1, old(self).killers@[ply * 2]).update(ply * 2, mv)
            } else {
                old(self).killers@
            }),
            final(self).history@ == old(self).history@.update(
                history_index(color, mv),
                min_int(old(self).history@[history_index(color, mv)] + depth * depth, 30_000) as i32,
            ),
    {
        if self.killers[ply * 2] != mv {
            let first = self.killers[ply * 2];
            self.killers.set(ply * 2 + 1, first);
            self.killers.set(ply * 2, mv);
        }
        let idx = color.index() * 4096 + (mv.from() as usize) * 64 + mv.to() as usize;
        proof {
            assert(0 <= depth * depth <= 4096) by (nonlinear_arith)
                requires
                    0 <= depth <= 64,
            ;
            assert(0 <= self.history@[idx as int] <= 30_000);
        }
        let h = self.history[idx] + depth * depth;
        let capped = if h < 30_000 { h } else { 30_000 };
        self.history.set(idx, capped);
    }

    /// The ordering score of a move: the table move first, then captures by
    /// victim and attacker (with exchange evaluation near the root), then
    /// killers, then history.
    fn move_score(&self, position: &Position, mv: Move, tt_move: Move, ply: usize) -> (r: i32)
        requires
            self.inv(),
            position.wf(),
            ply < MAX_PLY,
        ensures
            0 <= r <= 2_000_000,
            self.score_allowed(position@, mv, tt_move, ply as int, r),
    {
        if mv == tt_move {
            return 2_000_000;
        }
        let capture = mv.kind() == MoveKind::EnPassant || position.piece_at(mv.to()).is_some();
        if capture {
            let attacker = match position.piece_at(mv.from()) {
                Some(p) => piece_value(p.kind),
                None => 0,
            };
            let victim = if mv.kind() == MoveKind::EnPassant {
                piece_value(PieceKind::Pawn)
            } else {
                match position.piece_at(mv.to()) {
                    Some(p) => piece_value(p.kind),
                    None => 0,
                }
            };
            let see_good = if ply < 2 { see_ge(position, mv, 0) } else { victim >= attacker };
            return 1_000_000 + victim * 16 - attacker + if see_good { 12_000 } else { -12_000 };
        }
        if mv == self.killers[ply * 2] {
            return 800_000;
        }
        if mv == self.killers[ply * 2 + 1] {
            return 799_000;
        }
        let color = position.side_to_move().index();
        let idx = color * 4096 + (mv.from() as usize) * 64 + mv.to() as usize;
        100_000 + self.history[idx]
    }

    /// Sorts the moves by descending ordering score, ties by ascending
    /// encoding; the list keeps exactly its moves.
    fn order_moves(&self, position: &Position, moves: &mut MoveList, tt_move: Move, ply: usize)
        requires
            self.inv(),
            position.wf(),
            ply < MAX_PLY,
        ensures
            final(moves)@.len() == old(moves)@.len(),
            forall|mv: Move| #[trigger] final(moves)@.contains(mv) ==> old(moves)@.contains(mv),
            forall|mv: Move| #[trigger] old(moves)@.contains(mv) ==> final(moves)@.contains(mv),
            old(moves)@.no_duplicates() ==> final(moves)@.no_duplicates(),
            self.sorted_moves(position@, final(moves)@, tt_move, ply as int),
    {
        let n = moves.len();
        let ghost original = moves@;
        let ghost m = position@;
        let mut scores: Vec<i32> = Vec::new();
        let mut i: usize = 0;
        while i < n
            invariant
                i <= n,
                n == moves@.len(),
                moves@ == original,
                scores@.len() == i,
                self.inv(),
                position.wf(),
                position@ == m,
                ply < MAX_PLY,
                forall|k: int| 0 <= k < i ==> self.score_allowed(m, moves@[k], tt_move, ply as int, #[trigger] scores@[k]),
            decreases n - i,
        {
            let s = self.move_score(position, moves.get(i), tt_move, ply);
            scores.push(s);
            i = i + 1;
        }
        let mut i: usize = 1;
        if n == 0 {
            proof {
                assert(self.scored_in_order(m, moves@, tt_move, ply as int, scores@));
            }
            return;
        }
        while i < n
            invariant
                1 <= i <= n,
                n == moves@.len(),
                scores@.len() == n,
                forall|mv: Move| #[trigger] moves@.contains(mv) ==> original.contains(mv),
                forall|mv: Move| #[trigger] original.contains(mv) ==> moves@.contains(mv),
                original.no_duplicates() ==> moves@.no_duplicates(),
                forall|k: int| 0 <= k < n ==> self.score_allowed(m, moves@[k], tt_move, ply as int, #[trigger] scores@[k]),
                in_order(moves@, scores@, 0, i as int),
            decreases n - i,
        {
            let ghost start = moves@;
            let ghost sstart = scores@;
            let mv = moves.get(i);
            let score = scores[i];
            proof {
                assert(moves@.contains(mv));
            }
            let mut j: usize = i;
            while j > 0 && (score > scores[j - 1] || (score == scores[j - 1] && mv.raw() < moves.get(j - 1).raw()))
                invariant
                    j <= i < n,
                    n == moves@.len(),
                    start.len() == n,
                    sstart.len() == n,
                    scores@.len() == n,
                    mv == start[i as int],
                    score == sstart[i as int],
                    original.contains(mv),
                    forall|x: Move| #[trigger] moves@.contains(x) ==> original.contains(x),
                    forall|k: int| 0 <= k < n ==> #[trigger] moves@[k] == (if j < k <= i { start[k - 1] } else { start[k] }),
                    forall|k: int| 0 <= k < n ==> #[trigger] scores@[k] == (if j < k <= i { sstart[k - 1] } else { sstart[k] }),
                    forall|k: int| j <= k < i ==> #[trigger] key_before(score, mv@, sstart[k], start[k]@),
                decreases j,
            {
                let prev = moves.get(j - 1);
                proof {
                    assert(moves@.contains(prev));
                    assert(prev == start[j - 1] && scores@[j - 1] == sstart[j - 1]);
                    assert(key_before(score, mv@, sstart[j - 1], start[j - 1]@));
                }
                let ghost before = moves@;
                moves.set(j, prev);
                let ps = scores[j - 1];
                scores.set(j, ps);
                proof {
                    assert forall|x: Move| #[trigger] moves@.contains(x) implies original.contains(x) by {
                        let k = moves@.index_of(x);
                        if k != j as int {
                            assert(before[k] == x);
                            assert(before.contains(x));
                        }
                    }
                }
                j = j - 1;
            }
            proof {
                if j > 0 {
                    assert(moves@[j - 1] == start[j - 1] && scores@[j - 1] == sstart[j - 1]);
                    assert(key_before(sstart[j - 1], start[j - 1]@, score, mv@));
                }
            }
            let ghost before = moves@;
            moves.set(j, mv);
            scores.set(j, score);
            proof {
                assert forall|x: Move| #[trigger] moves@.contains(x) implies original.contains(x) by {
                    let k = moves@.index_of(x);
                    if k != j as int {
                        assert(before[k] == x);
                        assert(before.contains(x));
                    }
                }
                assert forall|x: Move| #[trigger] original.contains(x) implies moves@.contains(x) by {
                    assert(start.contains(x));
                    let k = start.index_of(x);
                    if k == i as int {
                        assert(moves@[j as int] == x);
                    } else if j <= k < i {
                        assert(moves@[k + 1] == x);
                    } else {
                        assert(moves@[k] == x);
                    }
                }
                assert forall|k: int| 0 <= k < n implies self.score_allowed(m, moves@[k], tt_move, ply as int, #[trigger] scores@[k]) by {
                    let o = if k == j { i as int } else if j < k <= i { k - 1 } else { k };
                    assert(moves@[k] == start[o] && scores@[k] == sstart[o]);
                    assert(self.score_allowed(m, start[o], tt_move, ply as int, sstart[o]));
                }
                lemma_insert_sorted(start, sstart, moves@, scores@, i as int, j as int);
                if original.no_duplicates() {
                    lemma_shift_distinct(start, moves@, i as int, j as int);
                }
            }
            i = i + 1;
        }
        proof {
            assert(self.scored_in_order(m, moves@, tt_move, ply as int, scores@));
        }
    }

    /// Counts one more node, saturating, and raises the selective depth to
    /// `ply` if it is deeper.
    fn count_node(&mut self, ply: usize)
        requires
            old(self).inv(),
        ensures
            final(self).unlimited() == old(self).unlimited(),
            old(self).unlimited() && !old(self).aborted ==> !final(self).aborted,
            final(self).inv(),
            final(self).pv == old(self).pv,
            final(self).tt == old(self).tt,
            final(self).aborted == old(self).aborted,
            final(self).nodes == (if old(self).nodes < u64::MAX { (old(self).nodes + 1) as u64 } else { u64::MAX }),
            final(self).seldepth == (if ply > old(self).seldepth { ply } else { old(self).seldepth }),
            final(self).tt_hits == old(self).tt_hits,
            final(self).killers == old(self).killers,
            final(self).history == old(self).history,
    {
        self.nodes = if self.nodes < u64::MAX { self.nodes + 1 } else { u64::MAX };
        if ply > self.seldepth {
            self.seldepth = ply;
        }
    }

    /// Quiescence: stand pat unless in check, then search captures and
    /// promotions, or every move when in check.
    #[verifier::rlimit(40)]
    fn quiescence(&mut self, position: &mut Position, alpha: i32, beta: i32, ply: usize) -> (r: i32)
        requires
            old(self).inv(),
            old(position).wf(),
            ply < MAX_PLY,
            -SCORE_LIMIT <= alpha < beta <= SCORE_LIMIT,
        ensures
            final(self).unlimited() == old(self).unlimited(),
            old(self).unlimited() && !old(self).aborted ==> !final(self).aborted,
            final(self).inv(),
            final(position).wf(),
            final(position)@ == old(position)@,
            -SCORE_LIMIT <= r <= SCORE_LIMIT,
            legal_line(old(position)@, final(self).pv_line(ply as int)),
            forall|q: int| 0 <= q < ply ==> #[trigger] final(self).pv@[q] == old(self).pv@[q],
            drawn(old(position)@) ==> r == 0,
            !final(self).aborted && ply < MAX_PLY - 1 && !drawn(old(position)@) && no_legal_move(old(position)@) && in_check_spec(
                old(position)@,
                old(position)@.side,
            ) ==> r == -MATE_SCORE + ply,
            !final(self).aborted && ply < MAX_PLY - 1 && !drawn(old(position)@) && !in_check_spec(old(position)@, old(position)@.side)
                ==> r >= evaluate_spec(old(position)@.board, old(position)@.side),
        decreases MAX_PLY - ply, 0int,
    {
        let mut alpha = alpha;
        proof {
            position.lemma_wf();
        }
        self.clear_pv(ply);
        self.count_node(ply);
        if self.should_abort() {
            return 0;
        }
        if ply >= MAX_PLY - 1 || position.is_draw() {
            return if position.is_draw() { 0 } else { evaluate(position) };
        }
        let in_check = position.in_check(position.side_to_move());
        let stand = evaluate(position);
        if !in_check {
            if stand >= beta {
                return stand;
            }
            if stand > alpha {
                alpha = stand;
            }
        }
        let ghost m = position@;
        proof {
            position.lemma_wf();
        }
        let mut moves = position.legal_moves_mut();
        if in_check && moves.is_empty() {
            return -MATE_SCORE + ply as i32;
        }
        proof {
            if moves@.len() > 0 {
                assert(moves@.contains(moves@[0]));
            }
        }
        let ghost listed = moves@;
        self.order_moves(position, &mut moves, Move::null(), ply);
        proof {
            reveal(all_legal);
            assert(all_legal(m, moves@));
        }
        let n = moves.len();
        let mut i: usize = 0;
        while i < n
            invariant_except_break
                alpha < beta,
            invariant
                self.unlimited() == old(self).unlimited(),
                old(self).unlimited() && !old(self).aborted ==> !self.aborted,
                i <= n,
                n == moves@.len(),
                ply < MAX_PLY - 1,
                self.inv(),
                position.wf(),
                position@ == m,
                m == old(position)@,
                crate::board::model_ok(m),
                all_legal(m, moves@),
                -SCORE_LIMIT <= alpha <= SCORE_LIMIT,
                -SCORE_LIMIT <= beta <= SCORE_LIMIT,
                -2_000_000 <= stand <= 2_000_000,
                stand == evaluate_spec(m.board, m.side),
                in_check == in_check_spec(m, m.side),
                !in_check ==> alpha >= stand,
                legal_line(m, self.pv_line(ply as int)),
                forall|q: int| 0 <= q < ply ==> #[trigger] self.pv@[q] == old(self).pv@[q],
            decreases n - i,
        {
            let mv = moves.get(i);
            let capture = mv.kind() == MoveKind::EnPassant || position.piece_at(mv.to()).is_some();
            let skip = (!in_check && !capture && !mv.is_promotion()) || (!in_check && !mv.is_promotion() && stand + 975 < alpha);
            if !skip {
                let (mv, undo) = make_listed(position, &moves, i, Ghost(m));
                let child_score = self.quiescence(position, -beta, -alpha, ply + 1);
                let score = -child_score;
                let child = self.pv_at(ply + 1);
                proof {
                    assert(moves@.contains(mv));
                }
                unmake_listed(position, &moves, mv, undo, Ghost(m));
                if self.aborted {
                    return 0;
                }
                if score > alpha {
                    alpha = score;
                    self.set_pv(ply, mv, &child);
                    proof {
                        let k = choose|k: int| 0 <= k <= child@.len() && #[trigger] self.pv_line(ply as int) == seq![mv] + child@.take(k);
                        lemma_legal_prefix(after_move(m, mv), child@, k);
                        lemma_listed_legal(m, moves@, mv);
                        lemma_legal_cons(m, mv, child@.take(k));
                    }
                    if alpha >= beta {
                        break;
                    }
                }
            }
            i = i + 1;
        }
        alpha
    }

    /// A transposition-table entry deep enough to settle the node (outside
    /// PV nodes), and the table's best move for ordering.
    fn probe_cutoff(&mut self, key: u64, depth: i32, alpha: i32, beta: i32, ply: usize, pv_node: bool) -> (r: (Option<i32>, Move))
        requires
            old(self).inv(),
            ply < MAX_PLY,
        ensures
            final(self).unlimited() == old(self).unlimited(),
            old(self).unlimited() && !old(self).aborted ==> !final(self).aborted,
            final(self).inv(),
            final(self).pv == old(self).pv,
            final(self).aborted == old(self).aborted,
            final(self).tt == old(self).tt,
            r.0 matches Some(s) ==> -SCORE_LIMIT <= s <= SCORE_LIMIT,
            probe_model(old(self).tt@, old(self).tt.slot(key), key) is None ==> r.0 is None,
    {
        match self.tt.probe(key) {
            Some(entry) => {
                self.tt_hits = if self.tt_hits < u64::MAX { self.tt_hits + 1 } else { u64::MAX };
                let score = score_from_tt(entry.score, ply);
                if entry.depth as i32 >= depth && !pv_node {
                    match entry.bound {
                        Bound::Exact => {
                            return (Some(score), entry.best);
                        },
                        Bound::Lower => {
                            if score >= beta {
                                return (Some(score), entry.best);
                            }
                        },
                        Bound::Upper => {
                            if score <= alpha {
                                return (Some(score), entry.best);
                            }
                        },
                    }
                }
                (None, entry.best)
            },
            None => (None, Move::null()),
        }
    }

    /// Null-move pruning: let the opponent move twice at reduced depth; a
    /// fail high that a verification search (without another null move)
    /// confirms settles the node.
    fn null_move(&mut self, position: &mut Position, depth: i32, beta: i32, ply: usize) -> (r: Option<i32>)
        requires
            old(self).inv(),
            old(position).wf(),
            ply < MAX_PLY - 1,
            3 <= depth <= 64,
            -SCORE_LIMIT < beta <= SCORE_LIMIT,
            legal_line(old(position)@, old(self).pv_line(ply as int)),
        ensures
            final(self).unlimited() == old(self).unlimited(),
            old(self).unlimited() && !old(self).aborted ==> !final(self).aborted,
            final(self).inv(),
            final(position).wf(),
            final(position)@ == old(position)@,
            r matches Some(s) ==> -SCORE_LIMIT <= s <= SCORE_LIMIT,
            r matches Some(s) ==> (final(self).aborted && s == 0) || s >= beta,
            r is None ==> !final(self).aborted,
            legal_line(old(position)@, final(self).pv_line(ply as int)),
            forall|q: int| 0 <= q < ply ==> #[trigger] final(self).pv@[q] == old(self).pv@[q],
        decreases MAX_PLY - ply, 2int,
    {
        let ghost m = position@;
        proof {
            position.lemma_wf();
        }
        let undo = position.make_null_move();
        let reduction = 2 + depth / 6;
        let child = self.negamax(position, depth - 1 - reduction, -beta, -beta + 1, ply + 1, false, false);
        let score = -child;
        position.unmake_null_move(undo, Ghost(m));
        if self.aborted {
            return Some(0);
        }
        if score >= beta {
            let verified = self.negamax(position, depth - 1 - reduction, beta - 1, beta, ply, false, false);
            if self.aborted {
                return Some(0);
            }
            if verified >= beta {
                return Some(verified);
            }
        }
        None
    }

    /// Negamax alpha-beta with PVS, transposition-table cutoffs, guarded
    /// null-move pruning with verification, futility pruning, late-move
    /// reductions, and check extensions. `depth` is the remaining depth.
    fn negamax(&mut self, position: &mut Position, depth: i32, alpha: i32, beta: i32, ply: usize, pv_node: bool, allow_null: bool) -> (r: i32)
        requires
            old(self).inv(),
            old(position).wf(),
            ply < MAX_PLY,
            0 <= depth <= 63,
            -SCORE_LIMIT <= alpha < beta <= SCORE_LIMIT,
        ensures
            final(self).unlimited() == old(self).unlimited(),
            old(self).unlimited() && !old(self).aborted ==> !final(self).aborted,
            final(self).inv(),
            final(position).wf(),
            final(position)@ == old(position)@,
            -SCORE_LIMIT <= r <= SCORE_LIMIT,
            legal_line(old(position)@, final(self).pv_line(ply as int)),
            forall|q: int| 0 <= q < ply ==> #[trigger] final(self).pv@[q] == old(self).pv@[q],
            ply > 0 && ply < MAX_PLY - 1 && drawn(old(position)@) ==> r == 0,
            !final(self).aborted && ply < MAX_PLY - 1 && !(ply > 0 && drawn(old(position)@)) && no_legal_move(old(position)@)
                && probe_model(old(self).tt@, old(self).tt.slot(old(position)@.key), old(position)@.key) is None ==> (if in_check_spec(
                old(position)@,
                old(position)@.side,
            ) {
                r == -MATE_SCORE + ply
            } else {
                depth >= 1 ==> (r == 0 || r >= beta)
            }),
        decreases MAX_PLY - ply, if allow_null { 3int } else { 1int },
    {
        let mut depth = depth;
        let mut alpha = alpha;
        proof {
            position.lemma_wf();
        }
        self.clear_pv(ply);
        self.count_node(ply);
        if self.should_abort() {
            return 0;
        }
        if ply >= MAX_PLY - 1 {
            return evaluate(position);
        }
        if ply > 0 && position.is_draw() {
            return 0;
        }
        let in_check = position.in_check(position.side_to_move());
        if in_check {
            depth = depth + 1;
        }
        if depth <= 0 {
            return self.quiescence(position, alpha, beta, ply);
        }
        let key = position.key();
        let original_alpha = alpha;
        let (cut, tt_move) = self.probe_cutoff(key, depth, alpha, beta, ply, pv_node);
        match cut {
            Some(score) => {
                return score;
            },
            None => {},
        }
        let ghost m = position@;
        proof {
            position.lemma_wf();
        }
        if allow_null && !pv_node && !in_check && depth >= 3 && position.has_non_pawn_material(position.side_to_move()) {
            match self.null_move(position, depth, beta, ply) {
                Some(score) => {
                    return score;
                },
                None => {},
            }
        }
        let static_eval = evaluate(position);
        let mut moves = position.legal_moves_mut();
        if moves.is_empty() {
            return if in_check { -MATE_SCORE + ply as i32 } else { 0 };
        }
        proof {
            assert(moves@.contains(moves@[0]));
        }
        let ghost listed_len = moves@.len();
        self.order_moves(position, &mut moves, tt_move, ply);
        proof {
            reveal(all_legal);
            assert(all_legal(m, moves@));
        }
        let mut best = Move::null();
        let n = moves.len();
        let mut index: usize = 0;
        while index < n
            invariant_except_break
                alpha < beta,
            invariant
                self.unlimited() == old(self).unlimited(),
                old(self).unlimited() && !old(self).aborted ==> !self.aborted,
                index <= n,
                n == moves@.len(),
                n <= 256,
                ply < MAX_PLY - 1,
                1 <= depth <= 64,
                self.inv(),
                position.wf(),
                position@ == m,
                m == old(position)@,
                crate::board::model_ok(m),
                all_legal(m, moves@),
                -SCORE_LIMIT <= alpha <= SCORE_LIMIT,
                -SCORE_LIMIT <= beta <= SCORE_LIMIT,
                -2_000_000 <= static_eval <= 2_000_000,
                legal_line(m, self.pv_line(ply as int)),
                forall|q: int| 0 <= q < ply ==> #[trigger] self.pv@[q] == old(self).pv@[q],
            decreases n - index,
        {
            let mv = moves.get(index);
            let capture = mv.kind() == MoveKind::EnPassant || position.piece_at(mv.to()).is_some();
            let quiet = !capture && !mv.is_promotion();
            let futile = !pv_node && !in_check && depth <= 2 && quiet && static_eval + FUTILITY_MARGIN_PER_PLY * depth <= alpha;
            if !futile {
                let reduce = quiet && !in_check && depth >= 3 && index >= 4 && mv != self.killers[ply * 2] && mv != self.killers[ply * 2 + 1];
                let (mv, undo) = make_listed(position, &moves, index, Ghost(m));
                let ghost after = position@;
                let child_depth = depth - 1;
                let mut score: i32;
                if index == 0 {
                    score = -self.negamax(position, child_depth, -beta, -alpha, ply + 1, pv_node, true);
                } else {
                    if reduce {
                        let reduction = 1 + (index / 12) as i32;
                        let reduced = if child_depth - reduction > 0 { child_depth - reduction } else { 0 };
                        score = -self.negamax(position, reduced, -alpha - 1, -alpha, ply + 1, false, true);
                    } else {
                        score = -self.negamax(position, child_depth, -alpha - 1, -alpha, ply + 1, false, true);
                    }
                    if score > alpha && !self.aborted {
                        score = -self.negamax(position, child_depth, -beta, -alpha, ply + 1, pv_node, true);
                    }
                }
                let child = self.pv_at(ply + 1);
                proof {
                    assert(moves@.contains(mv));
                }
                unmake_listed(position, &moves, mv, undo, Ghost(m));
                if self.aborted {
                    return 0;
                }
                if score > alpha {
                    alpha = score;
                    best = mv;
                    self.set_pv(ply, mv, &child);
                    proof {
                        let k = choose|k: int| 0 <= k <= child@.len() && #[trigger] self.pv_line(ply as int) == seq![mv] + child@.take(k);
                        lemma_legal_prefix(after, child@, k);
                        lemma_listed_legal(m, moves@, mv);
                        lemma_legal_cons(m, mv, child@.take(k));
                    }
                    if alpha >= beta {
                        if quiet {
                            let side = position.side_to_move();
                            self.record_cutoff(side, mv, ply, depth);
                        }
                        break;
                    }
                }
            }
            index = index + 1;
        }
        let bound = if alpha <= original_alpha {
            Bound::Upper
        } else if alpha >= beta {
            Bound::Lower
        } else {
            Bound::Exact
        };
        let stored = score_to_tt(alpha, ply);
        self.tt.store(key, depth as i16, stored, bound, best);
        alpha
    }

    /// Searches the root with PVS inside the window; `None` when the
    /// search was stopped. The line's moves replay legally from the root.
    pub(crate) fn root_single(&mut self, position: &mut Position, depth: i32, alpha: i32, beta: i32) -> (r: Option<SearchLine>)
        requires
            old(self).inv(),
            old(position).wf(),
            1 <= depth <= 64,
            -SCORE_LIMIT <= alpha < beta <= SCORE_LIMIT,
        ensures
            final(self).unlimited() == old(self).unlimited(),
            old(self).unlimited() && !old(self).aborted ==> !final(self).aborted,
            !final(self).aborted ==> r is Some,
            final(self).inv(),
            final(position).wf(),
            final(position)@ == old(position)@,
            r matches Some(line) ==> legal_line(old(position)@, line.pv@) && -SCORE_LIMIT <= line.score <= SCORE_LIMIT,
            r matches Some(line) ==> root_outcome(old(position)@, line.score, line.pv@),
    {
        let mut alpha = alpha;
        self.clear_pv(0);
        let ghost m = position@;
        proof {
            position.lemma_wf();
        }
        if position.is_draw() {
            return Some(Self::root_single_draw(position, depth));
        }
        let mut moves = position.legal_moves_mut();
        if moves.is_empty() {
            let score = if position.in_check(position.side_to_move()) { -MATE_SCORE } else { 0 };
            proof {
                position.lemma_wf();
                lemma_legal_empty(m);
            }
            return Some(SearchLine { rank: 1, score, depth: depth as u8, pv: Vec::new() });
        }
        proof {
            assert(moves@.contains(moves@[0]));
            assert(!no_legal_move(m));
        }
        let key = position.key();
        let tt_move = match self.tt.probe(key) {
            Some(e) => e.best,
            None => Move::null(),
        };
        self.order_moves(position, &mut moves, tt_move, 0);
        proof {
            reveal(all_legal);
            assert(all_legal(m, moves@));
        }
        let original_alpha = alpha;
        let mut best = Move::null();
        let mut best_pv: Vec<Move> = Vec::new();
        proof {
            lemma_legal_empty(m);
        }
        let n = moves.len();
        let mut index: usize = 0;
        while index < n
            invariant_except_break
                alpha < beta,
            invariant
                self.unlimited() == old(self).unlimited(),
                old(self).unlimited() && !old(self).aborted ==> !self.aborted,
                index <= n,
                n == moves@.len(),
                n >= 1,
                1 <= depth <= 64,
                self.inv(),
                position.wf(),
                position@ == m,
                m == old(position)@,
                crate::board::model_ok(m),
                all_legal(m, moves@),
                -SCORE_LIMIT <= alpha <= SCORE_LIMIT,
                -SCORE_LIMIT <= beta <= SCORE_LIMIT,
                legal_line(m, best_pv@),
            decreases n - index,
        {
            if self.should_abort() {
                return None;
            }
            let (mv, undo) = make_listed(position, &moves, index, Ghost(m));
            let ghost after = position@;
            let mut score: i32;
            if index == 0 {
                score = -self.negamax(position, depth - 1, -beta, -alpha, 1, true, true);
            } else {
                score = -self.negamax(position, depth - 1, -alpha - 1, -alpha, 1, false, true);
                if score > alpha && score < beta && !self.aborted {
                    score = -self.negamax(position, depth - 1, -beta, -alpha, 1, true, true);
                }
            }
            let child = self.pv_at(1);
            proof {
                assert(moves@.contains(mv));
            }
            unmake_listed(position, &moves, mv, undo, Ghost(m));
            if self.aborted {
                return None;
            }
            if score > alpha {
                alpha = score;
                best = mv;
                let mut line: Vec<Move> = Vec::new();
                line.push(mv);
                let mut k: usize = 0;
                while k < child.len()
                    invariant
                        k <= child@.len(),
                        line@ == seq![mv] + child@.take(k as int),
                    decreases child@.len() - k,
                {
                    line.push(child[k]);
                    k = k + 1;
                    proof {
                        assert(line@ =~= seq![mv] + child@.take(k as int));
                    }
                }
                proof {
                    assert(child@.take(child@.len() as int) =~= child@);
                    lemma_listed_legal(m, moves@, mv);
                    lemma_legal_cons(m, mv, child@);
                }
                best_pv = line;
                if alpha >= beta {
                    break;
                }
            }
            index = index + 1;
        }
        if best.is_null() {
            // A fail-low window still reports a legal line, for the
            // aspiration loop to widen around.
            let mv = moves.get(0);
            best = mv;
            best_pv = Vec::new();
            best_pv.push(mv);
            proof {
                assert(moves@.contains(mv));
                lemma_listed_legal(m, moves@, mv);
                lemma_legal_empty(after_move(m, mv));
                lemma_legal_cons(m, mv, Seq::empty());
                assert(best_pv@ =~= seq![mv] + Seq::<Move>::empty());
            }
        }
        let bound = if alpha <= original_alpha {
            Bound::Upper
        } else if alpha >= beta {
            Bound::Lower
        } else {
            Bound::Exact
        };
        let stored = score_to_tt(alpha, 0);
        self.tt.store(key, depth as i16, stored, bound, best);
        Some(SearchLine { rank: 1, score: alpha, depth: depth as u8, pv: best_pv })
    }

    /// Full-window search of every root move; the lines come sorted by
    /// descending score (ties by the first move's encoding) and cut to
    /// `count`. `None` when the search was stopped.
    pub(crate) fn root_multi(&mut self, position: &mut Position, depth: i32, count: usize) -> (r: Option<Vec<SearchLine>>)
        requires
            old(self).inv(),
            old(position).wf(),
            1 <= depth <= 64,
            1 <= count,
        ensures
            final(self).unlimited() == old(self).unlimited(),
            old(self).unlimited() && !old(self).aborted ==> !final(self).aborted,
            !final(self).aborted ==> r is Some,
            final(self).inv(),
            final(position).wf(),
            final(position)@ == old(position)@,
            r matches Some(lines) ==> fits(old(position)@) ==> lines@.len() == line_count(old(position)@, count as int),
            r matches Some(lines) ==> root_outcome(old(position)@, lines@[0].score, lines@[0].pv@),
            r matches Some(lines) ==> {
                &&& 1 <= lines@.len() <= count
                &&& forall|k: int| 0 <= k < lines@.len() ==> legal_line(old(position)@, #[trigger] lines@[k].pv@)
                &&& forall|k: int| 0 <= k < lines@.len() ==> -SCORE_LIMIT <= #[trigger] lines@[k].score <= SCORE_LIMIT
                &&& forall|a: int, b: int| 0 <= a < b < lines@.len() ==> lines@[a].score >= lines@[b].score
                &&& distinct_firsts(lines@)
            },
    {
        let ghost m = position@;
        proof {
            position.lemma_wf();
            reveal(line_count);
        }
        if position.is_draw() {
            let line = Self::root_single_draw(position, depth);
            let mut lines: Vec<SearchLine> = Vec::new();
            lines.push(line);
            return Some(lines);
        }
        let mut moves = position.legal_moves_mut();
        if moves.is_empty() {
            let score = if position.in_check(position.side_to_move()) { -MATE_SCORE } else { 0 };
            proof {
                position.lemma_wf();
                lemma_legal_empty(m);
                if fits(m) {
                    assert forall|mv: Move| !#[trigger] legal_move(m, mv) by {
                        if legal_move(m, mv) {
                            assert(moves@.contains(mv));
                        }
                    }
                }
            }
            let mut lines: Vec<SearchLine> = Vec::new();
            lines.push(SearchLine { rank: 1, score, depth: depth as u8, pv: Vec::new() });
            return Some(lines);
        }
        proof {
            assert(moves@.contains(moves@[0]));
            if fits(m) {
                lemma_legal_count(m, moves@);
            }
        }
        let ghost listed_count = moves@.len();
        let tt_move = match self.tt.probe(position.key()) {
            Some(e) => e.best,
            None => Move::null(),
        };
        self.order_moves(position, &mut moves, tt_move, 0);
        proof {
            reveal(all_legal);
            assert(all_legal(m, moves@));
        }
        let n = moves.len();
        let mut lines: Vec<SearchLine> = Vec::new();
        let mut index: usize = 0;
        while index < n
            invariant
                self.unlimited() == old(self).unlimited(),
                old(self).unlimited() && !old(self).aborted ==> !self.aborted,
                index <= n,
                n == moves@.len(),
                n >= 1,
                1 <= depth <= 64,
                self.inv(),
                position.wf(),
                position@ == m,
                m == old(position)@,
                crate::board::model_ok(m),
                all_legal(m, moves@),
                lines@.len() == index,
                forall|k: int| 0 <= k < lines@.len() ==> legal_line(m, #[trigger] lines@[k].pv@) && lines@[k].pv@.len() >= 1,
                forall|k: int| 0 <= k < lines@.len() ==> -SCORE_LIMIT <= #[trigger] lines@[k].score <= SCORE_LIMIT,
                moves@.no_duplicates(),
                forall|k: int| 0 <= k < lines@.len() ==> (#[trigger] lines@[k]).pv@[0] == moves@[k],
            decreases n - index,
        {
            if self.should_abort() {
                return None;
            }
            let (mv, undo) = make_listed(position, &moves, index, Ghost(m));
            let child_score = self.negamax(position, depth - 1, -INF, INF, 1, true, true);
            let score = -child_score;
            let child = self.pv_at(1);
            proof {
                assert(moves@.contains(mv));
            }
            unmake_listed(position, &moves, mv, undo, Ghost(m));
            if self.aborted {
                return None;
            }
            let mut pv: Vec<Move> = Vec::new();
            pv.push(mv);
            let mut k: usize = 0;
            while k < child.len()
                invariant
                    k <= child@.len(),
                    pv@ == seq![mv] + child@.take(k as int),
                decreases child@.len() - k,
            {
                pv.push(child[k]);
                k = k + 1;
                proof {
                    assert(pv@ =~= seq![mv] + child@.take(k as int));
                }
            }
            proof {
                assert(child@.take(child@.len() as int) =~= child@);
                lemma_listed_legal(m, moves@, mv);
                lemma_legal_cons(m, mv, child@);
            }
            lines.push(SearchLine { rank: 0, score, depth: depth as u8, pv });
            index = index + 1;
        }
        proof {
            assert forall|a: int, b: int|
                0 <= a < lines@.len() && 0 <= b < lines@.len() && a != b && lines@[a].pv@.len() > 0 && lines@[b].pv@.len() > 0
                    implies #[trigger] lines@[a].pv@[0] != #[trigger] lines@[b].pv@[0] by {
                assert(moves@[a] != moves@[b]);
            }
        }
        sort_lines(&mut lines, Ghost(m));
        assert(lines@.len() == listed_count);
        let keep = if count < lines.len() { count } else { lines.len() };
        let ghost sorted = lines@;
        lines.truncate(keep);
        proof {
            assert forall|a: int, b: int|
                0 <= a < lines@.len() && 0 <= b < lines@.len() && a != b && lines@[a].pv@.len() > 0 && lines@[b].pv@.len() > 0
                    implies #[trigger] lines@[a].pv@[0] != #[trigger] lines@[b].pv@[0] by {
                assert(lines@[a] == sorted[a]);
                assert(lines@[b] == sorted[b]);
            }
        }
        Some(lines)
    }

    /// The line reported for a drawn root: score zero, and the first legal
    /// move if there is one.
    fn root_single_draw(position: &Position, depth: i32) -> (line: SearchLine)
        requires
            position.wf(),
            1 <= depth <= 64,
        ensures
            legal_line(position@, line.pv@),
            line.score == 0,
    {
        let ghost m = position@;
        let legal = position.legal_moves();
        let mut pv: Vec<Move> = Vec::new();
        if legal.len() > 0 {
            let first = legal.get(0);
            pv.push(first);
            proof {
                assert(legal@.contains(first));
                lemma_legal_empty(after_move(m, first));
                lemma_legal_cons(m, first, Seq::empty());
                assert(pv@ =~= seq![first] + Seq::<Move>::empty());
            }
        } else {
            proof {
                lemma_legal_empty(m);
            }
        }
        SearchLine { rank: 1, score: 0, depth: depth as u8, pv }
    }
}

} // verus!
