//! Single-threaded iterative-deepening PVS search.
//!
//! Search state is owned by `Engine`, not global, so each search gets its
//! own history and principal-variation tables while reusing one
//! transposition table.

mod clock;
pub(crate) mod searcher;

use std::sync::atomic::AtomicBool;
use std::sync::Arc;
use std::time::Duration;

use vstd::prelude::*;

use crate::board::{after_move, Position, PositionModel};
use crate::movegen::fits;
use crate::movegen::legal_move;
use crate::moves::Move;
use crate::text::{ascii_chars, lemma_signed_decimal_ascii, push_signed, signed_decimal, string_from_ascii};
use crate::tt::{slot_count, TranspositionTable};

pub use clock::{duration_of_millis, nanos_of};
pub(crate) use clock::{as_millis, as_nanos, elapsed, from_millis, now};
pub use searcher::{distinct_firsts, drawn, legal_count, line_count, no_legal_move, root_outcome, MAX_PLY};
use searcher::Searcher;

verus! {

pub const MATE_SCORE: i32 = 30_000;
pub const MATE_THRESHOLD: i32 = 29_000;
pub const INF: i32 = 31_000;
pub const ASPIRATION: i32 = 40;
/// The largest magnitude a search score is kept within.
pub const SCORE_LIMIT: i32 = 1_000_000_000;

/// A sequence of moves, each legal in the position the previous ones lead to.
#[verifier::opaque]
pub open spec fn legal_line(m: PositionModel, line: Seq<Move>) -> bool
    decreases line.len(),
{
    line.len() == 0 || (legal_move(m, line[0]) && legal_line(after_move(m, line[0]), line.drop_first()))
}

/// A prefix of a legal line is legal.
pub proof fn lemma_legal_prefix(m: PositionModel, line: Seq<Move>, n: int)
    requires
        legal_line(m, line),
        0 <= n <= line.len(),
    ensures
        legal_line(m, line.take(n)),
    decreases line.len(),
{
    reveal(legal_line);
    if n > 0 {
        assert(line.take(n)[0] == line[0]);
        assert(line.take(n).drop_first() =~= line.drop_first().take(n - 1));
        lemma_legal_prefix(after_move(m, line[0]), line.drop_first(), n - 1);
    }
}

/// A legal move followed by a legal line from where it leads.
pub proof fn lemma_legal_cons(m: PositionModel, mv: Move, rest: Seq<Move>)
    requires
        legal_move(m, mv),
        legal_line(after_move(m, mv), rest),
    ensures
        legal_line(m, seq![mv] + rest),
{
    reveal(legal_line);
    assert((seq![mv] + rest)[0] == mv);
    assert((seq![mv] + rest).drop_first() =~= rest);
}

/// The empty line is legal anywhere.
pub proof fn lemma_legal_empty(m: PositionModel)
    ensures
        legal_line(m, Seq::empty()),
{
    reveal(legal_line);
}

/// One principal variation: its rank among the lines, its score from the
/// side to move, the depth it was searched to, and its moves.
#[derive(Clone, Debug)]
pub struct SearchLine {
    pub rank: usize,
    pub score: i32,
    pub depth: u8,
    pub pv: Vec<Move>,
}

/// Mate scores are stored relative to the node, so that a mate found at one
/// ply reads back as the same distance at another.
pub open spec fn score_to_tt_spec(score: int, ply: int) -> int {
    if score > MATE_THRESHOLD { score + ply } else if score < -MATE_THRESHOLD { score - ply } else { score }
}

pub open spec fn score_from_tt_spec(score: int, ply: int) -> int {
    if score > MATE_THRESHOLD { score - ply } else if score < -MATE_THRESHOLD { score + ply } else { score }
}

pub fn score_to_tt(score: i32, ply: usize) -> (r: i32)
    requires
        -SCORE_LIMIT <= score <= SCORE_LIMIT,
        ply < 128,
    ensures
        r == score_to_tt_spec(score as int, ply as int),
{
    if score > MATE_THRESHOLD {
        score + ply as i32
    } else if score < -MATE_THRESHOLD {
        score - ply as i32
    } else {
        score
    }
}

/// A stored score read back at `ply`, kept within the score limit.
pub fn score_from_tt(score: i32, ply: usize) -> (r: i32)
    requires
        ply < 128,
    ensures
        -SCORE_LIMIT <= score_from_tt_spec(score as int, ply as int) <= SCORE_LIMIT ==> r == score_from_tt_spec(score as int, ply as int),
        -SCORE_LIMIT <= r <= SCORE_LIMIT,
{
    let s = if score > MATE_THRESHOLD {
        score - ply as i32
    } else if score < -MATE_THRESHOLD {
        score + ply as i32
    } else {
        score
    };
    if s > SCORE_LIMIT {
        SCORE_LIMIT
    } else if s < -SCORE_LIMIT {
        -SCORE_LIMIT
    } else {
        s
    }
}

/// Storing a score and reading it back at the same ply gives it back.
pub proof fn lemma_tt_score_round_trip(score: int, ply: int)
    requires
        0 <= ply < 128,
    ensures
        score_from_tt_spec(score_to_tt_spec(score, ply), ply) == score,
{
}

/// Integer division by two that rounds toward zero.
pub open spec fn half_toward_zero(x: int) -> int {
    if x >= 0 { x / 2 } else { -((-x) / 2) }
}

/// The UCI text of a score: `mate N` (moves to mate, negative when being
/// mated) or `cp N` (centipawns).
pub open spec fn score_text(score: int) -> Seq<u8> {
    if score >= MATE_THRESHOLD {
        seq![109u8, 97, 116, 101, 32] + signed_decimal(half_toward_zero(MATE_SCORE - score + 1))
    } else if score <= -MATE_THRESHOLD {
        seq![109u8, 97, 116, 101, 32, 45] + signed_decimal(half_toward_zero(MATE_SCORE + score + 1))
    } else {
        seq![99u8, 112, 32] + signed_decimal(score)
    }
}

fn half_toward_zero_exec(x: i64) -> (r: i64)
    requires
        x > i64::MIN,
    ensures
        r == half_toward_zero(x as int),
        r > i64::MIN,
{
    if x >= 0 { x / 2 } else { -((-x) / 2) }
}

/// Formats a score for UCI: `mate N` from the winning side's view of the
/// moves left, `mate -N` when being mated, otherwise `cp N`.
pub fn format_score(score: i32) -> (s: String)
    ensures
        s@ == ascii_chars(score_text(score as int)),
{
    let mut out: Vec<u8> = Vec::new();
    let wide = score as i64;
    let ghost n: int;
    if score >= MATE_THRESHOLD {
        out.push(109);
        out.push(97);
        out.push(116);
        out.push(101);
        out.push(32);
        let h = half_toward_zero_exec(MATE_SCORE as i64 - wide + 1);
        proof { n = h as int; }
        push_signed(&mut out, h);
    } else if score <= -MATE_THRESHOLD {
        out.push(109);
        out.push(97);
        out.push(116);
        out.push(101);
        out.push(32);
        out.push(45);
        let h = half_toward_zero_exec(MATE_SCORE as i64 + wide + 1);
        proof { n = h as int; }
        push_signed(&mut out, h);
    } else {
        out.push(99);
        out.push(112);
        out.push(32);
        proof { n = wide as int; }
        push_signed(&mut out, wide);
    }
    proof {
        lemma_signed_decimal_ascii(n);
        assert(out@ =~= score_text(score as int));
        assert forall|k: int| 0 <= k < out@.len() implies #[trigger] out@[k] < 128 by {
            let head_len = out@.len() - signed_decimal(n).len();
            if k >= head_len {
                assert(out@[k] == signed_decimal(n)[k - head_len]);
            }
        }
    }
    string_from_ascii(out)
}

/// `Duration::clone`: `Duration` is `Copy`, so the clone is the same
/// duration.
pub assume_specification[ <Duration as Clone>::clone ](d: &Duration) -> (r: Duration)
    ensures
        r == *d,
;

/// What a search with no time to spend reports: no completed depth, and
/// at most one line, a single legal move with score zero, present whenever
/// the position has a legal move that fits the move list.
pub open spec fn zero_time_result(m: PositionModel, r: SearchResult) -> bool {
    &&& r.depth == 0
    &&& r.lines@.len() <= 1
    &&& r.lines@.len() == 1 ==> r.lines@[0].score == 0 && r.lines@[0].depth == 0 && r.lines@[0].pv@.len() == 1
    &&& fits(m) && !no_legal_move(m) ==> r.lines@.len() == 1
}

/// What bounds a search: a depth, a time budget, a node budget, and the
/// number of principal variations (0 for the engine's default).
#[derive(Clone, Debug)]
pub struct SearchLimits {
    pub depth: Option<u8>,
    pub movetime: Option<Duration>,
    pub nodes: Option<u64>,
    pub multipv: usize,
}

impl Default for SearchLimits {
    fn default() -> (r: Self)
        ensures
            r.depth == Some(8u8),
            r.movetime is None,
            r.nodes is None,
            r.multipv == 1,
    {
        SearchLimits { depth: Some(8), movetime: None, nodes: None, multipv: 1 }
    }
}

/// The outcome of a search: the lines of the deepest completed iteration
/// and statistics.
#[derive(Clone, Debug)]
pub struct SearchResult {
    pub lines: Vec<SearchLine>,
    pub depth: u8,
    pub seldepth: u8,
    pub nodes: u64,
    pub elapsed: Duration,
    pub nps: u64,
    pub hashfull: u16,
    pub aborted: bool,
    pub tt_hits: u64,
}

impl SearchResult {
    /// The first move of the best line, if any.
    pub fn best_move(&self) -> (r: Option<Move>)
        ensures
            r == (if self.lines@.len() > 0 && self.lines@[0].pv@.len() > 0 { Some(self.lines@[0].pv@[0]) } else { None }),
    {
        if self.lines.len() > 0 && self.lines[0].pv.len() > 0 {
            Some(self.lines[0].pv[0])
        } else {
            None
        }
    }
}

/// `value` limited to `lo..=hi`.
pub open spec fn clamp_spec(value: int, lo: int, hi: int) -> int {
    if value < lo { lo } else if value > hi { hi } else { value }
}

pub fn clamp_usize(value: usize, lo: usize, hi: usize) -> (r: usize)
    requires
        lo <= hi,
    ensures
        r == clamp_spec(value as int, lo as int, hi as int),
{
    if value < lo {
        lo
    } else if value > hi {
        hi
    } else {
        value
    }
}

fn clamp_i64(value: i64, lo: i64, hi: i64) -> (r: i64)
    requires
        lo <= hi,
    ensures
        r == clamp_spec(value as int, lo as int, hi as int),
{
    if value < lo {
        lo
    } else if value > hi {
        hi
    } else {
        value
    }
}

/// The search engine: a transposition table that persists across searches,
/// its size, and the default number of lines.
pub struct Engine {
    tt: TranspositionTable,
    hash_mb: usize,
    default_multipv: usize,
}

impl Engine {
    /// Table well formed, sizes in range.
    pub closed spec fn wf(&self) -> bool {
        &&& self.tt.wf()
        &&& 1 <= self.hash_mb <= 4096
        &&& 1 <= self.default_multipv <= 5
    }

    pub closed spec fn hash_mb_spec(&self) -> usize {
        self.hash_mb
    }

    pub closed spec fn default_multipv_spec(&self) -> usize {
        self.default_multipv
    }

    pub closed spec fn table(&self) -> TranspositionTable {
        self.tt
    }

    /// An engine with a table of `hash_mb` megabytes, clamped to 1..=4096.
    pub fn new(hash_mb: usize) -> (e: Self)
        ensures
            e.wf(),
            e.hash_mb_spec() == clamp_spec(hash_mb as int, 1, 4096),
            e.default_multipv_spec() == 1,
            e.table()@.entries.len() == slot_count(e.hash_mb_spec()),
    {
        let mb = clamp_usize(hash_mb, 1, 4096);
        Engine { tt: TranspositionTable::new(mb), hash_mb: mb, default_multipv: 1 }
    }

    /// Resizes (and so empties) the table, clamped to 1..=4096 megabytes.
    pub fn set_hash_mb(&mut self, mb: usize)
        requires
            old(self).wf(),
        ensures
            final(self).wf(),
            final(self).hash_mb_spec() == clamp_spec(mb as int, 1, 4096),
            final(self).default_multipv_spec() == old(self).default_multipv_spec(),
            final(self).table()@.entries.len() == slot_count(final(self).hash_mb_spec()),
    {
        self.hash_mb = clamp_usize(mb, 1, 4096);
        self.tt.resize(self.hash_mb);
    }

    pub fn hash_mb(&self) -> (r: usize)
        ensures
            r == self.hash_mb_spec(),
    {
        self.hash_mb
    }

    /// The number of lines searched when the limits ask for 0, clamped to 1..=5.
    pub fn set_default_multipv(&mut self, multipv: usize)
        requires
            old(self).wf(),
        ensures
            final(self).wf(),
            final(self).default_multipv_spec() == clamp_spec(multipv as int, 1, 5),
            final(self).hash_mb_spec() == old(self).hash_mb_spec(),
            final(self).table() == old(self).table(),
    {
        self.default_multipv = clamp_usize(multipv, 1, 5);
    }

    /// Empties the table.
    pub fn clear_hash(&mut self)
        requires
            old(self).wf(),
        ensures
            final(self).wf(),
            final(self).hash_mb_spec() == old(self).hash_mb_spec(),
            final(self).default_multipv_spec() == old(self).default_multipv_spec(),
            final(self).table()@.entries.len() == old(self).table()@.entries.len(),
            forall|i: int| 0 <= i < final(self).table()@.entries.len() ==> crate::tt::is_empty_entry(#[trigger] final(self).table()@.entries[i]),
    {
        self.tt.clear();
    }

    /// Iterative deepening up to the depth limit (64 at most) until a limit
    /// or a stop request ends it; a single line uses aspiration windows
    /// around the previous score. Only completed iterations are reported;
    /// if none completed, the first legal move is the line. The position is
    /// left as it was, and every reported line replays legally from it.
    pub fn search(&mut self, position: &mut Position, limits: SearchLimits, stop: Option<Arc<AtomicBool>>) -> (r: SearchResult)
        requires
            old(self).wf(),
            old(position).wf(),
        ensures
            final(self).wf(),
            final(position).wf(),
            final(position)@ == old(position)@,
            forall|k: int| 0 <= k < r.lines@.len() ==> legal_line(old(position)@, #[trigger] r.lines@[k].pv@),
            forall|k: int| 0 <= k < r.lines@.len() ==> #[trigger] r.lines@[k].rank == k + 1,
            forall|a: int, b: int| 0 <= a < b < r.lines@.len() ==> r.lines@[a].score >= r.lines@[b].score,
            distinct_firsts(r.lines@),
            limits.movetime is None && limits.nodes is None && stop is None ==> !r.aborted && r.depth == (match limits.depth {
                Some(d) => if d < 64 { d } else { 64u8 },
                None => 64u8,
            }),
            r.lines@.len() <= clamp_spec(
                (if limits.multipv == 0 { old(self).default_multipv_spec() } else { limits.multipv }) as int,
                1,
                5,
            ),
            r.lines@.len() == 0 ==> (fits(old(position)@) ==> forall|mv: Move| !#[trigger] legal_move(old(position)@, mv)),
            limits.movetime is None && limits.nodes is None && stop is None && fits(old(position)@) && limits.depth != Some(0u8)
                ==> r.lines@.len() == (if clamp_spec(
                (if limits.multipv == 0 { old(self).default_multipv_spec() } else { limits.multipv }) as int,
                1,
                5,
            ) == 1 { 1 } else { line_count(
                old(position)@,
                clamp_spec((if limits.multipv == 0 { old(self).default_multipv_spec() } else { limits.multipv }) as int, 1, 5),
            ) }),
            limits.movetime matches Some(d) && nanos_of(d) <= 2_000_000 ==> zero_time_result(old(position)@, r),
            limits.movetime is None && limits.nodes is None && stop is None && limits.depth != Some(0u8) ==> r.lines@.len() >= 1
                && root_outcome(old(position)@, r.lines@[0].score, r.lines@[0].pv@),
            final(self).hash_mb_spec() == old(self).hash_mb_spec(),
            final(self).default_multipv_spec() == old(self).default_multipv_spec(),
    {
        let ghost m = position@;
        proof {
            position.lemma_wf();
        }
        let requested = if limits.multipv == 0 { self.default_multipv } else { limits.multipv };
        let multipv = clamp_usize(requested, 1, 5);
        let max_depth: u8 = match limits.depth {
            Some(d) => if d < 64 { d } else { 64 },
            None => 64,
        };
        self.tt.new_search();
        let start = now();
        // Two milliseconds protect the requested hard wall on ordinary clocks.
        let budget: Option<u128> = match &limits.movetime {
            Some(d) => {
                let ns = as_nanos(d);
                Some(if ns > 2_000_000 { ns - 2_000_000 } else { 0 })
            },
            None => None,
        };
        let ghost zero = limits.movetime matches Some(d) && nanos_of(d) <= 2_000_000;
        let ghost expected: int = if multipv == 1 { 1 } else { line_count(m, multipv as int) };
        assert(zero ==> budget == Some(0u128));
        let mut table = TranspositionTable::placeholder();
        std::mem::swap(&mut table, &mut self.tt);
        let ghost stop_given = stop;
        let mut searcher = Searcher::new(table, start, budget, limits.nodes, stop);
        let mut completed: Vec<SearchLine> = Vec::new();
        let mut completed_depth: u8 = 0;
        let mut previous: i32 = 0;
        let mut depth: u8 = 1;
        while depth <= max_depth
            invariant
                1 <= depth <= 65,
                max_depth <= 64,
                1 <= multipv <= 5,
                searcher.inv(),
                position.wf(),
                position@ == m,
                crate::board::model_ok(m),
                -SCORE_LIMIT <= previous <= SCORE_LIMIT,
                completed@.len() <= multipv,
                forall|k: int| 0 <= k < completed@.len() ==> legal_line(m, #[trigger] completed@[k].pv@),
                forall|k: int| 0 <= k < completed@.len() ==> #[trigger] completed@[k].rank == k + 1,
                forall|a: int, b: int| 0 <= a < b < completed@.len() ==> completed@[a].score >= completed@[b].score,
                distinct_firsts(completed@),
                depth <= max_depth + 1,
                searcher.unlimited() == (limits.movetime is None && limits.nodes is None && stop_given is None),
                searcher.unlimited() ==> !searcher.aborted && completed_depth + 1 == depth,
                searcher.unlimited() && fits(m) && completed_depth >= 1 ==> completed@.len() == expected,
                expected == (if multipv == 1 { 1 } else { line_count(m, multipv as int) }),
                zero ==> completed_depth == 0 && completed@.len() == 0 && searcher.nodes == 0 && searcher.budget_ns == Some(0u128),
                completed_depth < depth,
                completed_depth >= 1 ==> completed@.len() >= 1 && root_outcome(m, completed@[0].score, completed@[0].pv@),
            ensures
                completed_depth >= 1 ==> completed@.len() >= 1 && root_outcome(m, completed@[0].score, completed@[0].pv@),
                searcher.unlimited() ==> !searcher.aborted && completed_depth == max_depth,
                searcher.unlimited() && fits(m) && completed_depth >= 1 ==> completed@.len() == expected,
                zero ==> completed_depth == 0 && completed@.len() == 0,
            decreases 65 - depth,
        {
            if searcher.should_abort() {
                break;
            }
            match iteration(&mut searcher, position, depth, multipv, completed_depth == 0, previous, Ghost(m)) {
                Some(ranked) => {
                    if ranked.len() > 0 {
                        previous = ranked[0].score;
                    }
                    completed = ranked;
                    completed_depth = depth;
                },
                None => {
                    break;
                },
            }
            depth = depth + 1;
        }
        // With no completed iteration (a zero budget, say), the first legal
        // move is still reported.
        if completed.len() == 0 {
            completed = fallback_line(position);
        }
        let spent = elapsed(&start);
        let nodes = searcher.nodes;
        let seldepth = (#[verifier::truncate] (searcher.seldepth as u8));
        let aborted = searcher.aborted;
        let tt_hits = searcher.tt_hits;
        proof {
            searcher.lemma_inv();
        }
        self.tt = searcher.tt;
        let hashfull = self.tt.hashfull();
        let ns = as_nanos(&spent);
        let nps: u64 = if ns == 0 {
            0
        } else {
            (#[verifier::truncate] ((((nodes as u128) * 1_000_000_000) / ns) as u64))
        };
        SearchResult { lines: completed, depth: completed_depth, seldepth, nodes, elapsed: spent, nps, hashfull, aborted, tt_hits }
    }
}

impl Default for Engine {
    fn default() -> (e: Self)
        ensures
            e.wf(),
            e.hash_mb_spec() == 16,
            e.default_multipv_spec() == 1,
    {
        Engine::new(16)
    }
}

/// Numbers the lines from 1 and stamps them with the iteration depth.
/// One iteration of the deepening at `depth`: the lines found, ranked, or
/// `None` when the search was stopped.
fn iteration(
    searcher: &mut Searcher,
    position: &mut Position,
    depth: u8,
    multipv: usize,
    first: bool,
    previous: i32,
    Ghost(m): Ghost<PositionModel>,
) -> (r: Option<Vec<SearchLine>>)
    requires
        old(searcher).inv(),
        old(position).wf(),
        old(position)@ == m,
        1 <= depth <= 64,
        1 <= multipv <= 5,
        -SCORE_LIMIT <= previous <= SCORE_LIMIT,
    ensures
        final(searcher).inv(),
        final(position).wf(),
        final(position)@ == m,
        final(searcher).unlimited() == old(searcher).unlimited(),
        old(searcher).unlimited() && !old(searcher).aborted ==> !final(searcher).aborted && r is Some,
        r matches Some(lines) ==> {
            &&& 1 <= lines@.len() <= multipv
            &&& forall|k: int| 0 <= k < lines@.len() ==> legal_line(m, #[trigger] lines@[k].pv@)
            &&& forall|k: int| 0 <= k < lines@.len() ==> #[trigger] lines@[k].rank == k + 1
            &&& forall|a: int, b: int| 0 <= a < b < lines@.len() ==> lines@[a].score >= lines@[b].score
            &&& forall|k: int| 0 <= k < lines@.len() ==> -SCORE_LIMIT <= #[trigger] lines@[k].score <= SCORE_LIMIT
            &&& distinct_firsts(lines@)
            &&& fits(m) ==> lines@.len() == (if multipv == 1 { 1 } else { line_count(m, multipv as int) })
            &&& root_outcome(m, lines@[0].score, lines@[0].pv@)
        },
{
    let found: Option<Vec<SearchLine>> = if multipv == 1 {
        match aspiration(searcher, position, depth as i32, first, previous) {
            Some(line) => {
                let mut v: Vec<SearchLine> = Vec::new();
                v.push(line);
                Some(v)
            },
            None => None,
        }
    } else {
        searcher.root_multi(position, depth as i32, multipv)
    };
    if searcher.aborted {
        return None;
    }
    match found {
        Some(lines) => {
            let ranked = rank_lines(lines, depth, Ghost(m));
            Some(ranked)
        },
        None => None,
    }
}

/// The line reported when no iteration completed: the first legal move,
/// unsearched, with score zero; none when there is no legal move.
fn fallback_line(position: &Position) -> (r: Vec<SearchLine>)
    requires
        position.wf(),
    ensures
        r@.len() <= 1,
        r@.len() == 1 ==> r@[0].score == 0 && r@[0].depth == 0 && r@[0].rank == 1 && r@[0].pv@.len() == 1,
        forall|k: int| 0 <= k < r@.len() ==> legal_line(position@, #[trigger] r@[k].pv@),
        r@.len() == 0 ==> (fits(position@) ==> forall|mv: Move| !#[trigger] legal_move(position@, mv)),
{
    let ghost m = position@;
    let mut completed: Vec<SearchLine> = Vec::new();
    let legal = position.legal_moves();
    proof {
        position.lemma_wf();
        crate::movegen::lemma_empty_list(m, legal@);
    }
    if legal.len() > 0 {
        let mv = legal.get(0);
        let mut pv: Vec<Move> = Vec::new();
        pv.push(mv);
        proof {
            assert(legal@.contains(mv));
            lemma_legal_empty(after_move(m, mv));
            lemma_legal_cons(m, mv, Seq::empty());
            assert(pv@ =~= seq![mv] + Seq::<Move>::empty());
        }
        completed.push(SearchLine { rank: 1, score: 0, depth: 0, pv });
    }
    completed
}

fn rank_lines(lines: Vec<SearchLine>, depth: u8, Ghost(m): Ghost<PositionModel>) -> (r: Vec<SearchLine>)
    requires
        lines@.len() <= 5,
        forall|k: int| 0 <= k < lines@.len() ==> legal_line(m, #[trigger] lines@[k].pv@),
    ensures
        r@.len() == lines@.len(),
        forall|k: int| 0 <= k < r@.len() ==> legal_line(m, #[trigger] r@[k].pv@),
        forall|k: int| 0 <= k < r@.len() ==> #[trigger] r@[k].rank == k + 1,
        forall|k: int| 0 <= k < r@.len() ==> #[trigger] r@[k].score == lines@[k].score,
        forall|k: int| 0 <= k < r@.len() ==> #[trigger] r@[k].pv == lines@[k].pv,
{
    let mut rest = lines;
    let ghost original = rest@;
    let mut out: Vec<SearchLine> = Vec::new();
    while rest.len() > 0
        invariant
            out@.len() + rest@.len() == original.len(),
            original.len() <= 5,
            rest@ == original.subrange(out@.len() as int, original.len() as int),
            forall|k: int| 0 <= k < original.len() ==> legal_line(m, #[trigger] original[k].pv@),
            forall|k: int| 0 <= k < out@.len() ==> legal_line(m, #[trigger] out@[k].pv@),
            forall|k: int| 0 <= k < out@.len() ==> #[trigger] out@[k].rank == k + 1,
            forall|k: int| 0 <= k < out@.len() ==> #[trigger] out@[k].score == original[k].score,
            forall|k: int| 0 <= k < out@.len() ==> #[trigger] out@[k].pv == original[k].pv,
        decreases rest@.len(),
    {
        let line = rest.remove(0);
        let k = out.len();
        proof {
            assert(line == original[k as int]);
        }
        out.push(SearchLine { rank: k + 1, score: line.score, depth, pv: line.pv });
        proof {
            assert(rest@ =~= original.subrange(out@.len() as int, original.len() as int));
        }
    }
    out
}

/// One iteration with a single line: a window around the previous score
/// (or the full window for the first iteration) that doubles on a fail
/// low or high until the score lands inside it.
fn aspiration(searcher: &mut Searcher, position: &mut Position, depth: i32, first: bool, previous: i32) -> (r: Option<SearchLine>)
    requires
        old(searcher).inv(),
        old(position).wf(),
        1 <= depth <= 64,
        -SCORE_LIMIT <= previous <= SCORE_LIMIT,
    ensures
        final(searcher).inv(),
        final(position).wf(),
        final(position)@ == old(position)@,
        r matches Some(line) ==> legal_line(old(position)@, line.pv@) && -SCORE_LIMIT <= line.score <= SCORE_LIMIT,
        r matches Some(line) ==> root_outcome(old(position)@, line.score, line.pv@),
        final(searcher).unlimited() == old(searcher).unlimited(),
        old(searcher).unlimited() && !old(searcher).aborted ==> !final(searcher).aborted,
        !final(searcher).aborted ==> r is Some,
{
    let inf = INF as i64;
    let prev: i64 = if first { 0 } else { previous as i64 };
    let mut window: i64 = if first { inf } else { ASPIRATION as i64 };
    let mut alpha: i64 = if first { -inf } else { clamp_i64(prev - window, -(SCORE_LIMIT as i64), SCORE_LIMIT as i64) };
    let mut beta: i64 = if first { inf } else { clamp_i64(prev + window, -(SCORE_LIMIT as i64), SCORE_LIMIT as i64) };
    let ghost m = position@;
    loop
        invariant
            searcher.unlimited() == old(searcher).unlimited(),
            old(searcher).unlimited() && !old(searcher).aborted ==> !searcher.aborted,
            searcher.inv(),
            position.wf(),
            position@ == m,
            m == old(position)@,
            1 <= depth <= 64,
            -SCORE_LIMIT <= alpha < beta <= SCORE_LIMIT,
            40 <= window <= 0x4000_0000,
            -SCORE_LIMIT <= prev <= SCORE_LIMIT,
            inf == INF,
            alpha <= prev <= beta,
            alpha >= prev - window,
            beta <= prev + window,
        decreases (if alpha + INF > 0 { alpha + INF } else { 0 }) + (if INF - beta > 0 { INF - beta } else { 0 }),
    {
        let line = searcher.root_single(position, depth, alpha as i32, beta as i32);
        if searcher.aborted {
            return None;
        }
        let line = match line {
            Some(v) => v,
            None => {
                return None;
            },
        };
        let score = line.score as i64;
        if score <= alpha && alpha > -inf + 1 {
            window = if window < 0x2000_0000 { window * 2 } else { 0x4000_0000 };
            let widened = prev - window;
            alpha = if widened > -inf { widened } else { -inf };
            continue;
        }
        if score >= beta && beta < inf - 1 {
            window = if window < 0x2000_0000 { window * 2 } else { 0x4000_0000 };
            let widened = prev + window;
            beta = if widened < inf { widened } else { inf };
            continue;
        }
        return Some(line);
    }
}

} // verus!
