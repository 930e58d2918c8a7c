//! Perft: counting the legal move sequences of a given length, to validate
//! legal move generation against known totals.

use vstd::prelude::*;

use crate::board::{after_move, Position, PositionModel, Undo};
use crate::movegen::{fits, legal_move, MoveList};
use crate::moves::Move;
use crate::search::searcher::{all_legal, make_listed, unmake_listed};
use crate::search::{legal_line, lemma_legal_cons, lemma_legal_empty};

verus! {

/// The legal lines of `depth` moves from `m`.
pub open spec fn lines(m: PositionModel, depth: nat) -> Set<Seq<Move>> {
    Set::new(|line: Seq<Move>| line.len() == depth && legal_line(m, line))
}

/// The legal lines of `depth` moves from `m` that start with a move of `firsts`.
pub open spec fn lines_starting(m: PositionModel, depth: nat, firsts: Seq<Move>) -> Set<Seq<Move>> {
    Set::new(|line: Seq<Move>| line.len() == depth && depth > 0 && legal_line(m, line) && firsts.contains(line[0]))
}

/// `mv` put in front of each line of `s`.
pub open spec fn prefixed(mv: Move, s: Set<Seq<Move>>) -> Set<Seq<Move>> {
    s.map(|line: Seq<Move>| seq![mv] + line)
}

/// The number of legal lines of `depth - 1` moves after each move of `firsts`, summed.
pub open spec fn child_sum(m: PositionModel, depth: nat, firsts: Seq<Move>) -> nat
    decreases firsts.len(),
{
    if firsts.len() == 0 {
        0
    } else {
        child_sum(m, depth, firsts.drop_last()) + lines(after_move(m, firsts.last()), (depth - 1) as nat).len()
    }
}

/// Every position reached within `depth` legal moves has few enough
/// pseudo-legal moves for a move list to hold them all.
#[verifier::opaque]
pub open spec fn fits_within(m: PositionModel, depth: nat) -> bool
    decreases depth,
{
    depth == 0 || (fits(m) && forall|mv: Move|
        #[trigger] legal_move(m, mv) ==> fits_within(after_move(m, mv), (depth - 1) as nat))
}

#[verifier::rlimit(60)]
proof fn lemma_fits_child(m: PositionModel, depth: nat, mv: Move)
    requires
        depth > 0,
        fits_within(m, depth),
        legal_move(m, mv),
    ensures
        fits_within(after_move(m, mv), (depth - 1) as nat),
{
    reveal(fits_within);
}

/// A count that stops at `u64::MAX`.
pub open spec fn saturate(n: int) -> int {
    if n > u64::MAX { u64::MAX as int } else { n }
}

/// From any position there is exactly one line of no moves.
pub proof fn lemma_lines_zero(m: PositionModel)
    ensures
        lines(m, 0) == Set::<Seq<Move>>::empty().insert(Seq::empty()),
        lines(m, 0).finite(),
        lines(m, 0).len() == 1,
{
    lemma_legal_empty(m);
    assert(lines(m, 0) =~= Set::<Seq<Move>>::empty().insert(Seq::empty())) by {
        assert forall|line: Seq<Move>| #[trigger] lines(m, 0).contains(line) implies line == Seq::<Move>::empty() by {
            assert(line =~= Seq::<Move>::empty());
        }
    }
}

/// The lines of `depth` moves that start with the legal move `mv` are
/// `mv` followed by the lines of `depth - 1` moves from where it leads,
/// and there are as many of them.
pub proof fn lemma_first_move(m: PositionModel, depth: nat, mv: Move)
    requires
        depth > 0,
        legal_move(m, mv),
        lines(after_move(m, mv), (depth - 1) as nat).finite(),
    ensures
        lines_starting(m, depth, seq![mv]) == prefixed(mv, lines(after_move(m, mv), (depth - 1) as nat)),
        lines_starting(m, depth, seq![mv]).finite(),
        lines_starting(m, depth, seq![mv]).len() == lines(after_move(m, mv), (depth - 1) as nat).len(),
{
    let rest = lines(after_move(m, mv), (depth - 1) as nat);
    let f = |line: Seq<Move>| seq![mv] + line;
    let left = lines_starting(m, depth, seq![mv]);
    assert(left =~= prefixed(mv, rest)) by {
        reveal(legal_line);
        assert forall|line: Seq<Move>| #[trigger] left.contains(line) implies prefixed(mv, rest).contains(line) by {
            assert(seq![mv].contains(line[0]));
            assert(line[0] == mv) by {
                let i = choose|i: int| 0 <= i < 1 && seq![mv][i] == line[0];
            }
            let tail = line.drop_first();
            assert(f(tail) =~= line);
            assert(rest.contains(tail));
        }
        assert forall|line: Seq<Move>| #[trigger] prefixed(mv, rest).contains(line) implies left.contains(line) by {
            let tail = choose|tail: Seq<Move>| rest.contains(tail) && f(tail) == line;
            lemma_legal_cons(m, mv, tail);
            assert(line[0] == mv);
            assert(seq![mv][0] == mv);
        }
    }
    assert(vstd::relations::injective_on(f, rest)) by {
        assert forall|a: Seq<Move>, b: Seq<Move>| rest.contains(a) && rest.contains(b) && #[trigger] f(a) == #[trigger] f(b) implies a == b by {
            assert(f(a).drop_first() =~= a);
            assert(f(b).drop_first() =~= b);
        }
    }
    vstd::set_lib::lemma_map_size(rest, prefixed(mv, rest), f);
}

/// The lines starting with the moves of a duplicate-free list of legal
/// moves number the sum, over those moves, of the lines after each.
pub proof fn lemma_lines_split(m: PositionModel, depth: nat, firsts: Seq<Move>)
    requires
        depth > 0,
        firsts.no_duplicates(),
        forall|j: int| 0 <= j < firsts.len() ==> legal_move(m, #[trigger] firsts[j]),
        forall|j: int| 0 <= j < firsts.len() ==> (#[trigger] lines(after_move(m, firsts[j]), (depth - 1) as nat)).finite(),
    ensures
        lines_starting(m, depth, firsts).finite(),
        lines_starting(m, depth, firsts).len() == child_sum(m, depth, firsts),
    decreases firsts.len(),
{
    if firsts.len() == 0 {
        assert(lines_starting(m, depth, firsts) =~= Set::empty());
    } else {
        let front = firsts.drop_last();
        let mv = firsts.last();
        assert(front.no_duplicates()) by {
            assert forall|a: int, b: int| 0 <= a < front.len() && 0 <= b < front.len() && a != b implies front[a] != front[b] by {
                assert(firsts[a] != firsts[b]);
            }
        }
        assert forall|j: int| 0 <= j < front.len() implies legal_move(m, #[trigger] front[j]) by {
            assert(front[j] == firsts[j]);
        }
        assert forall|j: int| 0 <= j < front.len() implies (#[trigger] lines(after_move(m, front[j]), (depth - 1) as nat)).finite() by {
            assert(front[j] == firsts[j]);
        }
        lemma_lines_split(m, depth, front);
        assert(legal_move(m, firsts[firsts.len() - 1]));
        assert(lines(after_move(m, firsts[firsts.len() - 1]), (depth - 1) as nat).finite());
        lemma_first_move(m, depth, mv);
        let a = lines_starting(m, depth, front);
        let b = lines_starting(m, depth, seq![mv]);
        assert forall|x: Move| #[trigger] firsts.contains(x) <==> (front.contains(x) || x == mv) by {
            if firsts.contains(x) {
                let i = choose|i: int| 0 <= i < firsts.len() && firsts[i] == x;
                if i < front.len() {
                    assert(front[i] == x);
                }
            }
            if front.contains(x) {
                let i = choose|i: int| 0 <= i < front.len() && front[i] == x;
                assert(firsts[i] == x);
            }
            if x == mv {
                assert(firsts[firsts.len() - 1] == x);
            }
        }
        assert(!front.contains(mv)) by {
            if front.contains(mv) {
                let i = choose|i: int| 0 <= i < front.len() && front[i] == mv;
                assert(firsts[i] == firsts[firsts.len() - 1]);
            }
        }
        assert forall|x: Move| #[trigger] seq![mv].contains(x) <==> x == mv by {
            if seq![mv].contains(x) {
                let i = choose|i: int| 0 <= i < 1 && seq![mv][i] == x;
            }
            if x == mv {
                assert(seq![mv][0] == x);
            }
        }
        assert(lines_starting(m, depth, firsts) =~= a + b);
        assert(a.disjoint(b));
        vstd::set_lib::lemma_set_disjoint_lens(a, b);
    }
}

/// With every legal move among `firsts`, the lines starting with them are
/// all the lines.
pub proof fn lemma_lines_complete(m: PositionModel, depth: nat, firsts: Seq<Move>)
    requires
        depth > 0,
        forall|mv: Move| legal_move(m, mv) ==> #[trigger] firsts.contains(mv),
    ensures
        lines_starting(m, depth, firsts) == lines(m, depth),
{
    assert(lines_starting(m, depth, firsts) =~= lines(m, depth)) by {
        reveal(legal_line);
        assert forall|line: Seq<Move>| #[trigger] lines(m, depth).contains(line) implies lines_starting(m, depth, firsts).contains(line) by {
            assert(legal_move(m, line[0]));
        }
    }
}

/// After one move, each position has exactly one line of no moves, so the
/// sum over a list of moves is its length.
proof fn lemma_child_sum_one(m: PositionModel, firsts: Seq<Move>)
    ensures
        child_sum(m, 1, firsts) == firsts.len(),
    decreases firsts.len(),
{
    if firsts.len() > 0 {
        lemma_child_sum_one(m, firsts.drop_last());
        lemma_lines_zero(after_move(m, firsts.last()));
    }
}

/// Perft splits over the first move: with the legal moves of a position
/// whose moves fit listed once each, the number of legal lines of `depth`
/// moves is the sum, over the first moves, of the lines of `depth - 1`
/// moves after each. At depth one it is the number of legal moves.
pub proof fn lemma_perft_splits(m: PositionModel, depth: nat, firsts: Seq<Move>)
    requires
        depth > 0,
        fits(m),
        firsts.no_duplicates(),
        forall|mv: Move| #[trigger] firsts.contains(mv) <==> legal_move(m, mv),
        forall|j: int| 0 <= j < firsts.len() ==> (#[trigger] lines(after_move(m, firsts[j]), (depth - 1) as nat)).finite(),
    ensures
        lines(m, depth).finite(),
        lines(m, depth).len() == child_sum(m, depth, firsts),
        depth == 1 ==> lines(m, depth).len() == firsts.len(),
{
    assert forall|j: int| 0 <= j < firsts.len() implies legal_move(m, #[trigger] firsts[j]) by {
        assert(firsts.contains(firsts[j]));
    }
    lemma_lines_split(m, depth, firsts);
    lemma_lines_complete(m, depth, firsts);
    if depth == 1 {
        lemma_child_sum_one(m, firsts);
    }
}

/// One position's lines of one move are its legal moves.
proof fn lemma_depth_one(m: PositionModel, l: Seq<Move>)
    requires
        all_legal(m, l),
        l.no_duplicates(),
        fits(m) ==> forall|mv: Move| #[trigger] l.contains(mv) <== legal_move(m, mv),
        fits_within(m, 1),
    ensures
        lines(m, 1).finite(),
        lines(m, 1).len() == l.len(),
{
    reveal(fits_within);
    reveal(all_legal);
    assert forall|j: int| 0 <= j < l.len() implies (#[trigger] lines(after_move(m, l[j]), 0)).finite() by {
        lemma_lines_zero(after_move(m, l[j]));
    }
    lemma_perft_splits(m, 1, l);
}

/// What the perft loop knows after the first `i` moves of `l`.
spec fn counted(m: PositionModel, depth: nat, l: Seq<Move>, i: int, nodes: u64) -> bool {
    fits_within(m, depth) ==> (forall|j: int|
        0 <= j < i ==> (#[trigger] lines(after_move(m, l[j]), (depth - 1) as nat)).finite()) && nodes == saturate(
        child_sum(m, depth, l.take(i)) as int,
    )
}

proof fn lemma_perft_step(m: PositionModel, depth: nat, l: Seq<Move>, i: int, before: u64, c: u64, after: u64)
    requires
        depth >= 2,
        all_legal(m, l),
        0 <= i < l.len(),
        counted(m, depth, l, i, before),
        fits_within(after_move(m, l[i]), (depth - 1) as nat) ==> lines(after_move(m, l[i]), (depth - 1) as nat).finite() && c
            == saturate(lines(after_move(m, l[i]), (depth - 1) as nat).len() as int),
        after == saturate(before + c),
    ensures
        counted(m, depth, l, i + 1, after),
{
    if fits_within(m, depth) {
        reveal(all_legal);
        assert(l.contains(l[i]));
        lemma_fits_child(m, depth, l[i]);
        let t = l.take(i + 1);
        assert(t.drop_last() =~= l.take(i));
        assert(t.last() == l[i]);
        assert forall|j: int| 0 <= j < i + 1 implies (#[trigger] lines(after_move(m, l[j]), (depth - 1) as nat)).finite() by {
        }
    }
}

proof fn lemma_perft_done(m: PositionModel, depth: nat, l: Seq<Move>, nodes: u64)
    requires
        depth >= 2,
        all_legal(m, l),
        l.no_duplicates(),
        fits(m) ==> forall|mv: Move| #[trigger] l.contains(mv) <== legal_move(m, mv),
        counted(m, depth, l, l.len() as int, nodes),
    ensures
        fits_within(m, depth) ==> lines(m, depth).finite() && nodes == saturate(lines(m, depth).len() as int),
{
    if fits_within(m, depth) {
        reveal(fits_within);
        reveal(all_legal);
        assert(l.take(l.len() as int) =~= l);
        lemma_perft_splits(m, depth, l);
    }
}

/// The number of legal move sequences of `depth` moves from the position,
/// stopping at `u64::MAX`; the position is left as it was.
pub fn perft(position: &mut Position, depth: u8) -> (nodes: u64)
    requires
        old(position).wf(),
    ensures
        final(position).wf(),
        final(position)@ == old(position)@,
        fits_within(old(position)@, depth as nat) ==> lines(old(position)@, depth as nat).finite() && nodes == saturate(
            lines(old(position)@, depth as nat).len() as int,
        ),
    decreases depth,
{
    let ghost m = position@;
    if depth == 0 {
        proof {
            lemma_lines_zero(m);
        }
        return 1;
    }
    let moves = position.legal_moves_mut();
    proof {
        position.lemma_wf();
        reveal(all_legal);
    }
    if depth == 1 {
        proof {
            if fits_within(m, 1) {
                lemma_depth_one(m, moves@);
            }
        }
        return moves.len() as u64;
    }
    let n = moves.len();
    let mut nodes: u64 = 0;
    let mut i: usize = 0;
    proof {
        assert(moves@.take(0) =~= Seq::<Move>::empty());
    }
    while i < n
        invariant
            position.wf(),
            position@ == m,
            crate::board::model_ok(m),
            all_legal(m, moves@),
            n == moves@.len(),
            i <= n,
            depth >= 2,
            counted(m, depth as nat, moves@, i as int, nodes),
        decreases n - i,
    {
        let (mv, undo) = make_listed(position, &moves, i, Ghost(m));
        let c = perft(position, depth - 1);
        unmake_listed_at(position, &moves, i, mv, undo, Ghost(m));
        let ghost before = nodes;
        nodes = nodes.saturating_add(c);
        proof {
            lemma_perft_step(m, depth as nat, moves@, i as int, before, c, nodes);
        }
        i = i + 1;
    }
    proof {
        lemma_perft_done(m, depth as nat, moves@, nodes);
    }
    nodes
}

/// Takes back the `i`th move of a list of legal moves.
fn unmake_listed_at(position: &mut Position, moves: &MoveList, i: usize, mv: Move, undo: Undo, Ghost(m): Ghost<PositionModel>)
    requires
        old(position).wf(),
        all_legal(m, moves@),
        i < moves@.len(),
        mv == moves@[i as int],
        crate::board::model_ok(m),
        old(position)@ == after_move(m, mv),
        undo.restores(m, mv),
    ensures
        final(position).wf(),
        final(position)@ == m,
{
    proof {
        assert(moves@.contains(mv));
    }
    unmake_listed(position, moves, mv, undo, Ghost(m));
}

/// The counts of a divide, added up.
pub open spec fn count_sum(r: Seq<(Move, u64)>) -> int
    decreases r.len(),
{
    if r.len() == 0 {
        0
    } else {
        count_sum(r.drop_last()) + r.last().1
    }
}

/// Each child's share is at most the sum over the children.
proof fn lemma_child_sum_bound(m: PositionModel, depth: nat, firsts: Seq<Move>, k: int)
    requires
        0 <= k < firsts.len(),
    ensures
        lines(after_move(m, firsts[k]), (depth - 1) as nat).len() <= child_sum(m, depth, firsts),
    decreases firsts.len(),
{
    if k < firsts.len() - 1 {
        lemma_child_sum_bound(m, depth, firsts.drop_last(), k);
        assert(firsts.drop_last()[k] == firsts[k]);
    }
}

/// Counts equal to the children's line counts add up to their sum.
proof fn lemma_count_sum(m: PositionModel, depth: nat, firsts: Seq<Move>, r: Seq<(Move, u64)>)
    requires
        r.len() == firsts.len(),
        forall|k: int| 0 <= k < r.len() ==> (#[trigger] r[k]).1 == lines(after_move(m, firsts[k]), (depth - 1) as nat).len(),
    ensures
        count_sum(r) == child_sum(m, depth, firsts),
    decreases r.len(),
{
    if r.len() > 0 {
        let r2 = r.drop_last();
        let f2 = firsts.drop_last();
        assert forall|k: int| 0 <= k < r2.len() implies (#[trigger] r2[k]).1 == lines(after_move(m, f2[k]), (depth - 1) as nat).len() by {
            assert(r2[k] == r[k] && f2[k] == firsts[k]);
        }
        lemma_count_sum(m, depth, f2, r2);
        assert(r[r.len() - 1].1 == lines(after_move(m, firsts[firsts.len() - 1]), (depth - 1) as nat).len());
    }
}


/// The perft count after each legal move of the position, in the order of
/// the move list; the position is left as it was.
pub fn divide(position: &mut Position, depth: u8) -> (result: Vec<(Move, u64)>)
    requires
        old(position).wf(),
    ensures
        final(position).wf(),
        final(position)@ == old(position)@,
        result@.len() <= 256,
        forall|k: int| 0 <= k < result@.len() ==> legal_move(old(position)@, #[trigger] result@[k].0),
        forall|a: int, b: int| 0 <= a < b < result@.len() ==> #[trigger] result@[a].0 != #[trigger] result@[b].0,
        fits(old(position)@) ==> forall|mv: Move|
            legal_move(old(position)@, mv) ==> exists|k: int| 0 <= k < result@.len() && #[trigger] result@[k].0 == mv,
        depth >= 1 && fits_within(old(position)@, depth as nat) && lines(old(position)@, depth as nat).len() <= u64::MAX
            ==> lines(old(position)@, depth as nat).finite() && count_sum(result@) == lines(old(position)@, depth as nat).len(),
        forall|k: int| 0 <= k < result@.len() ==> (#[trigger] result@[k]).1 == (if depth == 0 {
            1
        } else if fits_within(after_move(old(position)@, result@[k].0), (depth - 1) as nat) {
            saturate(lines(after_move(old(position)@, result@[k].0), (depth - 1) as nat).len() as int)
        } else {
            result@[k].1 as int
        }),
{
    let ghost m = position@;
    let moves = position.legal_moves_mut();
    proof {
        position.lemma_wf();
        reveal(all_legal);
    }
    let n = moves.len();
    let mut result: Vec<(Move, u64)> = Vec::new();
    let mut i: usize = 0;
    while i < n
        invariant
            position.wf(),
            position@ == m,
            crate::board::model_ok(m),
            all_legal(m, moves@),
            n == moves@.len(),
            i <= n,
            result@.len() == i,
            forall|k: int| 0 <= k < i ==> (#[trigger] result@[k]).0 == moves@[k],
            forall|k: int| 0 <= k < i ==> (#[trigger] result@[k]).1 == (if depth == 0 {
                1
            } else if fits_within(after_move(m, moves@[k]), (depth - 1) as nat) {
                saturate(lines(after_move(m, moves@[k]), (depth - 1) as nat).len() as int)
            } else {
                result@[k].1 as int
            }),
            forall|k: int| 0 <= k < i ==> depth > 0 && fits_within(after_move(m, moves@[k]), (depth - 1) as nat) ==> (#[trigger] lines(
                after_move(m, moves@[k]),
                (depth - 1) as nat,
            )).finite(),
        decreases n - i,
    {
        let (mv, undo) = make_listed(position, &moves, i, Ghost(m));
        let nodes = if depth == 0 {
            1
        } else {
            perft(position, depth - 1)
        };
        unmake_listed(position, &moves, mv, undo, Ghost(m));
        proof {
            assert(moves@.contains(mv));
        }
        result.push((mv, nodes));
        i = i + 1;
    }
    proof {
        assert forall|k: int| 0 <= k < result@.len() implies legal_move(m, #[trigger] result@[k].0) by {
            assert(moves@.contains(moves@[k]));
        }
        assert forall|a: int, b: int| 0 <= a < b < result@.len() implies #[trigger] result@[a].0 != #[trigger] result@[b].0 by {
            assert(moves@[a] != moves@[b]);
        }
        if fits(m) {
            assert forall|mv: Move| legal_move(m, mv) implies exists|k: int| 0 <= k < result@.len() && #[trigger] result@[k].0 == mv by {
                assert(moves@.contains(mv));
                let k = choose|k: int| 0 <= k < moves@.len() && moves@[k] == mv;
                assert(result@[k].0 == mv);
            }
        }
        if depth >= 1 && fits_within(m, depth as nat) && lines(m, depth as nat).len() <= u64::MAX {
            reveal(fits_within);
            assert(fits(m));
            assert forall|k: int| 0 <= k < n implies legal_move(m, #[trigger] moves@[k]) by {
                assert(moves@.contains(moves@[k]));
            }
            assert forall|k: int| 0 <= k < n implies #[trigger] fits_within(after_move(m, moves@[k]), (depth - 1) as nat) by {
                lemma_fits_child(m, depth as nat, moves@[k]);
            }
            assert forall|k: int| 0 <= k < moves@.len() implies (#[trigger] lines(after_move(m, moves@[k]), (depth - 1) as nat)).finite() by {
                assert(fits_within(after_move(m, moves@[k]), (depth - 1) as nat));
            }
            lemma_perft_splits(m, depth as nat, moves@);
            assert forall|k: int| 0 <= k < result@.len() implies (#[trigger] result@[k]).1 == lines(after_move(m, moves@[k]), (depth - 1) as nat).len() by {
                lemma_child_sum_bound(m, depth as nat, moves@, k);
                assert(fits_within(after_move(m, moves@[k]), (depth - 1) as nat));
            }
            lemma_count_sum(m, depth as nat, moves@, result@);
        }
    }
    result
}

} // verus!
