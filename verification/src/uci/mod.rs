//! The UCI command layer: parsing `position`, `go` and `setoption`
//! commands into the engine's positions, limits and settings. It holds no
//! chess logic of its own: it drives `Position` and `Engine`.

pub mod session;
pub mod words;

use vstd::prelude::*;
use vstd::string::{StringExecFns, StringSliceAdditionalSpecFns};

use crate::board::fen::fen_fields;
use crate::board::{after_move, fen_accepted, fen_message, fen_model, start_model, Color, Position, PositionModel};
use crate::movegen::{fits, legal_move};
use crate::moves::{names_move, parse_uci_move, uci_syntax_error, Move};
use crate::search::{clamp_spec, clamp_usize, duration_of_millis, from_millis, Engine, SearchLimits};
use crate::text::views;
use crate::uci::words::{join_text, joined, lower_chars, parse_uint, same_chars, same_text, uint_value};
use vstd::utf8::encode_utf8;

verus! {

/// `r` is an error with exactly the text `msg`.
pub open spec fn fails_with<T>(r: Result<T, String>, msg: Seq<char>) -> bool {
    r matches Err(e) && e@ == msg
}

/// The position a `position` command starts from, with the index of the
/// word that follows its description.
pub open spec fn position_start(ws: Seq<Seq<char>>) -> Option<(PositionModel, int)> {
    if ws.len() > 0 && ws[0] == "startpos"@ {
        Some((start_model(), 1))
    } else if ws.len() >= 7 && ws[0] == "fen"@ && fen_accepted(joined(ws, 1, 7)) {
        Some((fen_model(fen_fields(joined(ws, 1, 7)).unwrap()), 7))
    } else {
        None
    }
}

/// The move texts of a `position` command: the words after `moves`.
pub open spec fn moves_after(ws: Seq<Seq<char>>, k: int) -> Seq<Seq<char>> {
    if k < ws.len() {
        ws.subrange(k + 1, ws.len() as int)
    } else {
        Seq::empty()
    }
}

/// The position reached from `m` by playing `line`.
#[verifier::opaque]
pub open spec fn played(m: PositionModel, line: Seq<Move>) -> PositionModel
    decreases line.len(),
{
    if line.len() == 0 {
        m
    } else {
        after_move(played(m, line.drop_last()), line.last())
    }
}

/// `line` is a line of legal moves from `m`, each named by the text at its
/// place in `texts`.
#[verifier::opaque]
pub open spec fn replays(m: PositionModel, texts: Seq<Seq<char>>, line: Seq<Move>) -> bool
    decreases line.len(),
{
    line.len() == texts.len() && (line.len() == 0 || (replays(m, texts.drop_last(), line.drop_last()) && legal_move(
        played(m, line.drop_last()),
        line.last(),
    ) && names_move(encode_utf8(texts.last()), line.last())))
}

/// Every text, in turn, is well-formed UCI notation naming a legal move of
/// a position whose moves fit a move list.
#[verifier::opaque]
pub open spec fn replay_ok(m: PositionModel, texts: Seq<Seq<char>>) -> bool
    decreases texts.len(),
{
    texts.len() == 0 || (fits(m) && uci_syntax_error(encode_utf8(texts[0])) is None && (exists|mv: Move|
        legal_move(m, mv) && #[trigger] names_move(encode_utf8(texts[0]), mv)) && forall|mv: Move|
        legal_move(m, mv) && #[trigger] names_move(encode_utf8(texts[0]), mv) ==> replay_ok(
            after_move(m, mv),
            texts.drop_first(),
        ))
}

proof fn lemma_replay_ok_first(m: PositionModel, texts: Seq<Seq<char>>, text: &str)
    requires
        replay_ok(m, texts),
        texts.len() > 0,
        texts[0] == text@,
    ensures
        fits(m),
        uci_syntax_error(text.spec_bytes()) is None,
        exists|mv: Move| legal_move(m, mv) && #[trigger] names_move(text.spec_bytes(), mv),
{
    reveal(replay_ok);
}

proof fn lemma_replay_ok_next(m: PositionModel, texts: Seq<Seq<char>>, mv: Move)
    requires
        replay_ok(m, texts),
        texts.len() > 0,
        legal_move(m, mv),
        names_move(encode_utf8(texts[0]), mv),
    ensures
        replay_ok(after_move(m, mv), texts.drop_first()),
{
    reveal(replay_ok);
}

proof fn lemma_replays_push(m: PositionModel, texts: Seq<Seq<char>>, j: int, line: Seq<Move>, mv: Move)
    requires
        0 <= j < texts.len(),
        replays(m, texts.take(j), line),
        legal_move(played(m, line), mv),
        names_move(encode_utf8(texts[j]), mv),
    ensures
        replays(m, texts.take(j + 1), line.push(mv)),
        played(m, line.push(mv)) == after_move(played(m, line), mv),
{
    reveal(replays);
    reveal(played);
    assert(texts.take(j + 1).drop_last() =~= texts.take(j));
    assert(line.push(mv).drop_last() =~= line);
}

proof fn lemma_replays_empty(m: PositionModel, texts: Seq<Seq<char>>)
    ensures
        replays(m, texts.take(0), Seq::empty()),
        played(m, Seq::empty()) == m,
{
    reveal(replays);
    reveal(played);
}

/// One step of playing the move texts of a `position` command.
proof fn lemma_play_step(m0: PositionModel, texts: Seq<Seq<char>>, j: int, line: Seq<Move>, before: PositionModel, mv: Move)
    requires
        0 <= j < texts.len(),
        replays(m0, texts.take(j), line),
        before == played(m0, line),
        legal_move(before, mv),
        names_move(encode_utf8(texts[j]), mv),
        replay_ok(m0, texts) ==> replay_ok(before, texts.subrange(j, texts.len() as int)),
    ensures
        replays(m0, texts.take(j + 1), line.push(mv)),
        after_move(before, mv) == played(m0, line.push(mv)),
        replay_ok(m0, texts) ==> replay_ok(after_move(before, mv), texts.subrange(j + 1, texts.len() as int)),
{
    lemma_replays_push(m0, texts, j, line, mv);
    let rest = texts.subrange(j, texts.len() as int);
    assert(rest[0] == texts[j]);
    if replay_ok(m0, texts) {
        lemma_replay_ok_next(before, rest, mv);
        assert(rest.drop_first() =~= texts.subrange(j + 1, texts.len() as int));
    }
}

/// Parses one UCI move text and plays it.
fn play_text(position: &mut Position, text: &str) -> (r: Result<Move, String>)
    requires
        old(position).wf(),
    ensures
        final(position).wf(),
        r matches Ok(mv) ==> legal_move(old(position)@, mv) && names_move(text.spec_bytes(), mv) && final(position)@
            == after_move(old(position)@, mv),
        fits(old(position)@) && uci_syntax_error(text.spec_bytes()) is None && (exists|mv: Move|
            legal_move(old(position)@, mv) && #[trigger] names_move(text.spec_bytes(), mv)) ==> r is Ok,
{
    let mv = match parse_uci_move(position, text) {
        Ok(mv) => mv,
        Err(e) => return Err(e.message()),
    };
    match position.try_make_move(mv) {
        Ok(_) => Ok(mv),
        Err(e) => Err(e.message()),
    }
}

/// `pm` is where the moves of a `position` command lead from its start.
pub open spec fn described(ws: Seq<Seq<char>>, pm: PositionModel) -> bool {
    match position_start(ws) {
        Some((m, k)) => (k >= ws.len() || ws[k] == "moves"@) && exists|line: Seq<Move>|
            replays(m, moves_after(ws, k), line) && pm == played(m, line),
        None => false,
    }
}

/// The errors a `position` command's description can get.
pub open spec fn header_error(ws: Seq<Seq<char>>, msg: Seq<char>) -> bool {
    &&& ws.len() == 0 ==> msg == "position needs `startpos` or `fen`"@
    &&& ws.len() > 0 && ws[0] != "startpos"@ && ws[0] != "fen"@ ==> msg == "position needs `startpos` or `fen`"@
    &&& ws.len() > 0 && ws[0] != "startpos"@ && ws[0] == "fen"@ && ws.len() < 7 ==> msg
        == "position fen needs exactly six FEN fields"@
    &&& ws.len() >= 7 && ws[0] != "startpos"@ && ws[0] == "fen"@ && !fen_accepted(joined(ws, 1, 7)) ==> msg
        == "invalid FEN: "@ + fen_message(joined(ws, 1, 7))
}

/// A position or an error message, as values.
pub open spec fn result_view(r: Result<Position, String>) -> Result<PositionModel, Seq<char>> {
    match r {
        Ok(p) => Ok(p@),
        Err(e) => Err(e@),
    }
}

/// What a `position` command with the words `ws` gives: the errors it
/// reports, and the position its moves lead to.
#[verifier::opaque]
pub open spec fn position_outcome(ws: Seq<Seq<char>>, r: Result<PositionModel, Seq<char>>) -> bool {
    &&& ws.len() == 0 ==> r == Err::<PositionModel, Seq<char>>("position needs `startpos` or `fen`"@)
    &&& ws.len() > 0 && ws[0] != "startpos"@ && ws[0] != "fen"@ ==> r == Err::<PositionModel, Seq<char>>(
        "position needs `startpos` or `fen`"@,
    )
    &&& ws.len() > 0 && ws[0] != "startpos"@ && ws[0] == "fen"@ && ws.len() < 7 ==> r == Err::<PositionModel, Seq<char>>(
        "position fen needs exactly six FEN fields"@,
    )
    &&& ws.len() >= 7 && ws[0] != "startpos"@ && ws[0] == "fen"@ && !fen_accepted(joined(ws, 1, 7)) ==> r
        == Err::<PositionModel, Seq<char>>("invalid FEN: "@ + fen_message(joined(ws, 1, 7)))
    &&& (position_start(ws) matches Some((m, k)) && k < ws.len() && ws[k] != "moves"@) ==> r == Err::<PositionModel, Seq<char>>(
        "expected `moves` after position"@,
    )
    &&& r matches Ok(pm) ==> described(ws, pm)
    &&& (position_start(ws) matches Some((m, k)) && (k >= ws.len() || ws[k] == "moves"@) && replay_ok(m, moves_after(ws, k)))
        ==> r is Ok
}

/// The position a `position` command describes, before its moves.
fn position_header(words: &[&str]) -> (r: Result<(Position, usize), String>)
    ensures
        r matches Ok((p, k)) ==> p.wf() && position_start(views(words@)) == Some((p@, k as int)),
        r matches Err(e) ==> position_start(views(words@)) is None && header_error(views(words@), e@),
{
    if words.len() == 0 {
        return Err(String::from_str("position needs `startpos` or `fen`"));
    }
    if same_text(words[0], "startpos", false) {
        return Ok((Position::default(), 1));
    }
    if !same_text(words[0], "fen", false) {
        return Err(String::from_str("position needs `startpos` or `fen`"));
    }
    if words.len() < 7 {
        return Err(String::from_str("position fen needs exactly six FEN fields"));
    }
    let text = join_text(words, 1, 7);
    match Position::from_fen(text.as_str()) {
        Ok(p) => Ok((p, 7)),
        Err(e) => Err(e.message()),
    }
}

/// Plays the UCI move texts `words[first ..]` in turn.
fn play_moves(position: &mut Position, words: &[&str], first: usize) -> (r: Result<(), String>)
    requires
        old(position).wf(),
        first <= words@.len(),
    ensures
        final(position).wf(),
        r is Ok ==> exists|line: Seq<Move>|
            replays(old(position)@, views(words@).subrange(first as int, words@.len() as int), line) && final(position)@ == played(
                old(position)@,
                line,
            ),
        replay_ok(old(position)@, views(words@).subrange(first as int, words@.len() as int)) ==> r is Ok,
{
    let ghost m0 = position@;
    let ghost texts = views(words@).subrange(first as int, words@.len() as int);
    let ghost mut line: Seq<Move> = Seq::empty();
    let mut i: usize = first;
    proof {
        lemma_replays_empty(m0, texts);
        assert(texts.subrange(0, texts.len() as int) =~= texts);
    }
    while i < words.len()
        invariant
            position.wf(),
            first <= i <= words@.len(),
            m0 == old(position)@,
            texts == views(words@).subrange(first as int, words@.len() as int),
            replays(m0, texts.take(i - first), line),
            position@ == played(m0, line),
            replay_ok(m0, texts) ==> replay_ok(position@, texts.subrange(i - first, texts.len() as int)),
        decreases words@.len() - i,
    {
        let ghost j = i - first;
        let ghost before = position@;
        proof {
            let rest = texts.subrange(j, texts.len() as int);
            assert(rest[0] == words@[i as int]@);
            if replay_ok(m0, texts) {
                lemma_replay_ok_first(before, rest, words[i as int]);
            }
        }
        let mv = match play_text(position, words[i]) {
            Ok(mv) => mv,
            Err(e) => return Err(e),
        };
        proof {
            assert(texts[j] == words@[i as int]@);
            lemma_play_step(m0, texts, j, line, before, mv);
            line = line.push(mv);
        }
        i = i + 1;
    }
    proof {
        assert(texts.take(i - first) =~= texts);
    }
    Ok(())
}

/// Parses the arguments of a UCI `position` command: `startpos` or `fen`
/// and six FEN fields, then optionally `moves` and UCI move texts, each
/// played in turn.
pub fn parse_position(words: &[&str]) -> (r: Result<Position, String>)
    ensures
        r matches Ok(p) ==> p.wf(),
        position_outcome(views(words@), result_view(r)),
{
    let ghost ws = views(words@);
    let (mut position, move_start) = match position_header(words) {
        Ok(v) => v,
        Err(e) => {
            proof {
                lemma_outcome_header(ws, e@);
            }
            return Err(e);
        },
    };
    let ghost m0 = position@;
    if move_start < words.len() && !same_text(words[move_start], "moves", false) {
        proof {
            lemma_outcome_keyword(ws, m0, move_start as int);
        }
        return Err(String::from_str("expected `moves` after position"));
    }
    if move_start < words.len() {
        proof {
            assert(ws.subrange(move_start + 1, words@.len() as int) =~= moves_after(ws, move_start as int));
        }
        match play_moves(&mut position, words, move_start + 1) {
            Ok(()) => {},
            Err(e) => {
                proof {
                    lemma_outcome_moves_fail(ws, m0, move_start as int, e@);
                }
                return Err(e);
            },
        }
    } else {
        proof {
            lemma_replays_empty(position@, Seq::empty());
            assert(Seq::<Seq<char>>::empty().take(0) =~= Seq::<Seq<char>>::empty());
            assert(moves_after(ws, move_start as int) =~= Seq::<Seq<char>>::empty());
        }
    }
    proof {
        lemma_outcome_played(ws, m0, move_start as int, position@);
    }
    Ok(position)
}

proof fn lemma_outcome_header(ws: Seq<Seq<char>>, msg: Seq<char>)
    requires
        position_start(ws) is None,
        header_error(ws, msg),
    ensures
        position_outcome(ws, Err(msg)),
{
    reveal(position_outcome);
}

proof fn lemma_outcome_keyword(ws: Seq<Seq<char>>, m: PositionModel, k: int)
    requires
        position_start(ws) == Some((m, k)),
        k < ws.len(),
        ws[k] != "moves"@,
    ensures
        position_outcome(ws, Err("expected `moves` after position"@)),
{
    reveal(position_outcome);
}

proof fn lemma_outcome_moves_fail(ws: Seq<Seq<char>>, m: PositionModel, k: int, msg: Seq<char>)
    requires
        position_start(ws) == Some((m, k)),
        k < ws.len(),
        ws[k] == "moves"@,
        !replay_ok(m, moves_after(ws, k)),
    ensures
        position_outcome(ws, Err(msg)),
{
    reveal(position_outcome);
}

proof fn lemma_outcome_played(ws: Seq<Seq<char>>, m: PositionModel, k: int, pm: PositionModel)
    requires
        position_start(ws) == Some((m, k)),
        k >= ws.len() || ws[k] == "moves"@,
        exists|line: Seq<Move>| replays(m, moves_after(ws, k), line) && pm == played(m, line),
    ensures
        position_outcome(ws, Ok(pm)),
{
    reveal(position_outcome);
}

/// What a `go` command gathers before the limits are decided: its depth,
/// move time and node limits, and both sides' clocks and increments, in
/// milliseconds.
#[derive(Clone, Copy, Debug)]
pub struct GoFields {
    pub depth: Option<u8>,
    pub movetime: Option<u64>,
    pub nodes: Option<u64>,
    pub wtime: Option<u64>,
    pub btime: Option<u64>,
    pub winc: u64,
    pub binc: u64,
}

pub open spec fn go_start() -> GoFields {
    GoFields { depth: None, movetime: None, nodes: None, wtime: None, btime: None, winc: 0, binc: 0 }
}

/// Which `go` token takes a value: 1 `depth`, 2 `movetime`, 3 `nodes`,
/// 4 `wtime`, 5 `btime`, 6 `winc`, 7 `binc`; 0 for any other word.
pub open spec fn go_key(w: Seq<char>) -> int {
    if w == "depth"@ {
        1
    } else if w == "movetime"@ {
        2
    } else if w == "nodes"@ {
        3
    } else if w == "wtime"@ {
        4
    } else if w == "btime"@ {
        5
    } else if w == "winc"@ {
        6
    } else if w == "binc"@ {
        7
    } else {
        0
    }
}

/// The largest value of the number type each `go` token takes.
pub open spec fn go_max(k: int) -> int {
    if k == 1 {
        255
    } else {
        u64::MAX as int
    }
}

/// The error for a `go` token whose value is not a number.
pub open spec fn go_msg(k: int) -> Seq<char> {
    if k == 1 {
        "go depth must be an integer"@
    } else if k == 2 {
        "go movetime must be milliseconds"@
    } else if k == 3 {
        "go nodes must be an integer"@
    } else if k == 4 {
        "go wtime must be milliseconds"@
    } else if k == 5 {
        "go btime must be milliseconds"@
    } else if k == 6 {
        "go winc must be milliseconds"@
    } else {
        "go binc must be milliseconds"@
    }
}

/// `f` with the value `v` of the token `k` recorded.
pub open spec fn go_set(f: GoFields, k: int, v: int) -> GoFields {
    GoFields {
        depth: if k == 1 { Some(v as u8) } else { f.depth },
        movetime: if k == 2 { Some(v as u64) } else { f.movetime },
        nodes: if k == 3 { Some(v as u64) } else { f.nodes },
        wtime: if k == 4 { Some(v as u64) } else { f.wtime },
        btime: if k == 5 { Some(v as u64) } else { f.btime },
        winc: if k == 6 { v as u64 } else { f.winc },
        binc: if k == 7 { v as u64 } else { f.binc },
    }
}

/// Reads the `go` tokens from `i` on into `f`, or the error for the first
/// token that cannot be read.
pub open spec fn go_scan(ws: Seq<Seq<char>>, i: int, f: GoFields) -> Result<GoFields, Seq<char>>
    decreases ws.len() - i,
{
    if i < 0 || i >= ws.len() {
        Ok(f)
    } else if go_key(ws[i]) != 0 {
        if i + 1 >= ws.len() {
            Err("go "@ + ws[i] + " needs a value"@)
        } else {
            match uint_value(encode_utf8(ws[i + 1]), go_max(go_key(ws[i]))) {
                Some(v) => go_scan(ws, i + 2, go_set(f, go_key(ws[i]), v)),
                None => Err(go_msg(go_key(ws[i]))),
            }
        }
    } else if ws[i] == "infinite"@ || ws[i] == "ponder"@ {
        go_scan(ws, i + 1, f)
    } else {
        Err("unsupported go token `"@ + ws[i] + "`"@)
    }
}

/// `a * b` for `u64`, stopping at `u64::MAX`.
pub open spec fn sat_mul(a: int, b: int) -> int {
    if a * b > u64::MAX {
        u64::MAX as int
    } else {
        a * b
    }
}

/// The time given to a move from the side's remaining clock and increment:
/// a thirtieth of the clock plus three quarters of the increment, kept five
/// milliseconds under the clock, and at least one.
pub open spec fn clock_budget(remain: int, inc: int) -> int {
    let soft = remain / 30 + sat_mul(inc, 3) / 4;
    let cap = if remain >= 5 { remain - 5 } else { 0 };
    let m = if soft < cap { soft } else { cap };
    if m < 1 { 1 } else { m }
}

/// The move time a `go` command asks for, in milliseconds: its `movetime`,
/// or the budget from the side to move's clock.
pub open spec fn go_movetime(f: GoFields, side: Color) -> Option<int> {
    if f.movetime is Some {
        Some(f.movetime.unwrap() as int)
    } else {
        let remain = if side == Color::White { f.wtime } else { f.btime };
        let inc = if side == Color::White { f.winc } else { f.binc };
        match remain {
            Some(r) => Some(clock_budget(r as int, inc as int)),
            None => None,
        }
    }
}

/// The limits a `go` command gathering `f` sets: with no depth, time or
/// node limit at all, a depth of 64.
pub open spec fn go_limits(l: SearchLimits, f: GoFields, side: Color, multipv: usize) -> bool {
    &&& l.nodes == f.nodes
    &&& l.multipv == multipv
    &&& l.depth == (if f.depth is None && go_movetime(f, side) is None && f.nodes is None {
        Some(64u8)
    } else {
        f.depth
    })
    &&& match go_movetime(f, side) {
        Some(ms) => l.movetime == Some(duration_of_millis(ms as u64)),
        None => l.movetime is None,
    }
}

fn go_key_of(w: &str) -> (k: u8)
    ensures
        k == go_key(w@),
{
    if same_text(w, "depth", false) {
        1
    } else if same_text(w, "movetime", false) {
        2
    } else if same_text(w, "nodes", false) {
        3
    } else if same_text(w, "wtime", false) {
        4
    } else if same_text(w, "btime", false) {
        5
    } else if same_text(w, "winc", false) {
        6
    } else if same_text(w, "binc", false) {
        7
    } else {
        0
    }
}

fn go_message(k: u8) -> (r: String)
    ensures
        r@ == go_msg(k as int),
{
    if k == 1 {
        String::from_str("go depth must be an integer")
    } else if k == 2 {
        String::from_str("go movetime must be milliseconds")
    } else if k == 3 {
        String::from_str("go nodes must be an integer")
    } else if k == 4 {
        String::from_str("go wtime must be milliseconds")
    } else if k == 5 {
        String::from_str("go btime must be milliseconds")
    } else if k == 6 {
        String::from_str("go winc must be milliseconds")
    } else {
        String::from_str("go binc must be milliseconds")
    }
}

fn go_record(f: GoFields, k: u8, v: u64) -> (r: GoFields)
    requires
        k == 1 ==> v <= 255,
    ensures
        r == go_set(f, k as int, v as int),
{
    GoFields {
        depth: if k == 1 { Some(v as u8) } else { f.depth },
        movetime: if k == 2 { Some(v) } else { f.movetime },
        nodes: if k == 3 { Some(v) } else { f.nodes },
        wtime: if k == 4 { Some(v) } else { f.wtime },
        btime: if k == 5 { Some(v) } else { f.btime },
        winc: if k == 6 { v } else { f.winc },
        binc: if k == 7 { v } else { f.binc },
    }
}

fn saturating_mul3(a: u64) -> (r: u64)
    ensures
        r == sat_mul(a as int, 3),
{
    if a > u64::MAX / 3 {
        u64::MAX
    } else {
        a * 3
    }
}

/// The move time from a remaining clock and increment.
pub fn budget_ms(remain: u64, inc: u64) -> (r: u64)
    ensures
        r == clock_budget(remain as int, inc as int),
{
    let soft = remain / 30 + saturating_mul3(inc) / 4;
    let cap = if remain >= 5 { remain - 5 } else { 0 };
    let m = if soft < cap { soft } else { cap };
    if m < 1 { 1 } else { m }
}

/// Parses the arguments of a UCI `go` command into search limits for the
/// side to move, with `multipv` principal variations. Without `movetime`,
/// the side's clock sets the time; with no limit at all, the depth is 64.
pub fn parse_go(words: &[&str], side: Color, multipv: usize) -> (r: Result<SearchLimits, String>)
    ensures
        go_scan(views(words@), 0, go_start()) matches Err(msg) ==> fails_with(r, msg),
        go_scan(views(words@), 0, go_start()) matches Ok(f) ==> (r matches Ok(l) && go_limits(l, f, side, multipv)),
{
    let mut f = GoFields { depth: None, movetime: None, nodes: None, wtime: None, btime: None, winc: 0, binc: 0 };
    let mut i: usize = 0;
    while i < words.len()
        invariant
            i <= words@.len(),
            go_scan(views(words@), 0, go_start()) == go_scan(views(words@), i as int, f),
        decreases words@.len() - i,
    {
        let k = go_key_of(words[i]);
        if k != 0 {
            if i + 1 >= words.len() {
                let mut m = String::from_str("go ");
                m.append(words[i]);
                m.append(" needs a value");
                return Err(m);
            }
            let max: u64 = if k == 1 { 255 } else { u64::MAX };
            match parse_uint(words[i + 1].as_bytes(), max) {
                Some(v) => {
                    f = go_record(f, k, v);
                    i = i + 2;
                },
                None => return Err(go_message(k)),
            }
        } else if same_text(words[i], "infinite", false) || same_text(words[i], "ponder", false) {
            i = i + 1;
        } else {
            let mut m = String::from_str("unsupported go token `");
            m.append(words[i]);
            m.append("`");
            return Err(m);
        }
    }
    let movetime: Option<u64> = match f.movetime {
        Some(ms) => Some(ms),
        None => {
            let white = match side {
                Color::White => true,
                Color::Black => false,
            };
            let remain = if white { f.wtime } else { f.btime };
            let inc = if white { f.winc } else { f.binc };
            match remain {
                Some(t) => Some(budget_ms(t, inc)),
                None => None,
            }
        },
    };
    let depth = if f.depth.is_none() && movetime.is_none() && f.nodes.is_none() {
        Some(64u8)
    } else {
        f.depth
    };
    let movetime = match movetime {
        Some(ms) => Some(from_millis(ms)),
        None => None,
    };
    Ok(SearchLimits { depth, movetime, nodes: f.nodes, multipv })
}

/// The first word from `k` on that reads `value` in any case.
pub open spec fn find_value(ws: Seq<Seq<char>>, k: int) -> Option<int>
    decreases ws.len() - k,
{
    if k < 0 || k >= ws.len() {
        None
    } else if same_chars(ws[k], "value"@, true) {
        Some(k)
    } else {
        find_value(ws, k + 1)
    }
}

/// Which option a name sets, in any case: 1 `Hash`, 2 `MultiPV`,
/// 3 `Threads`; 0 for any other name.
pub open spec fn option_kind(name: Seq<char>) -> int {
    if same_chars(name, "hash"@, true) {
        1
    } else if same_chars(name, "multipv"@, true) {
        2
    } else if same_chars(name, "threads"@, true) {
        3
    } else {
        0
    }
}

/// The words of a well-formed `setoption` command give the option's name,
/// the words before `value`, and the value after it.
pub open spec fn option_parts(ws: Seq<Seq<char>>) -> Result<(Seq<char>, Seq<char>), Seq<char>> {
    if !(ws.len() >= 4 && same_chars(ws[0], "name"@, true)) {
        Err("setoption syntax is `setoption name <Name> value <Value>`"@)
    } else {
        match find_value(ws, 0) {
            None => Err("setoption requires `value`"@),
            Some(k) => if k + 1 >= ws.len() {
                Err("setoption value is missing"@)
            } else {
                Ok((joined(ws, 1, k), ws[k + 1]))
            },
        }
    }
}

/// The error a `setoption` command gets, if any; `running` tells whether
/// a search has the engine.
pub open spec fn option_error(ws: Seq<Seq<char>>, running: bool) -> Option<Seq<char>> {
    match option_parts(ws) {
        Err(msg) => Some(msg),
        Ok((name, value)) => {
            let kind = option_kind(name);
            let number = uint_value(encode_utf8(value), usize::MAX as int);
            if kind == 1 {
                if number is None {
                    Some("Hash must be an integer"@)
                } else if running {
                    Some("cannot change Hash during search"@)
                } else {
                    None
                }
            } else if kind == 2 {
                if number is None {
                    Some("MultiPV must be an integer"@)
                } else {
                    None
                }
            } else if kind == 3 {
                if value != "1"@ {
                    Some("this correctness-first build is single-threaded; Threads is fixed at 1"@)
                } else {
                    None
                }
            } else {
                Some("unknown option `"@ + name + "`"@)
            }
        },
    }
}

/// What a well-formed `setoption` command does: `e0`, `m0` are the
/// engine and the MultiPV count before it, `e1`, `m1` after.
pub open spec fn option_applied(ws: Seq<Seq<char>>, e0: Option<Engine>, e1: Option<Engine>, m0: usize, m1: usize) -> bool {
    option_parts(ws) matches Ok((name, value)) && {
        let kind = option_kind(name);
        let n = uint_value(encode_utf8(value), usize::MAX as int).unwrap();
        &&& kind == 1 ==> m1 == m0 && (e1 matches Some(e) && e0 matches Some(x) && e.hash_mb_spec() == clamp_spec(n, 1, 4096)
            && e.default_multipv_spec() == x.default_multipv_spec())
        &&& kind == 2 ==> m1 == clamp_spec(n, 1, 5) && (e0 is None ==> e1 is None) && (e0 matches Some(x) ==> e1 matches Some(e)
            && e.default_multipv_spec() == clamp_spec(n, 1, 5) && e.hash_mb_spec() == x.hash_mb_spec() && e.table() == x.table())
        &&& kind == 3 ==> m1 == m0 && e1 == e0
    }
}

/// Applies a UCI `setoption name <Name> value <Value>` command: `Hash` in
/// MiB (from 1 to 4096; only while no search holds the engine), `MultiPV`
/// (from 1 to 5; kept in `multipv` and set as the engine's default), or
/// `Threads` (only 1). On an error nothing changes.
pub fn set_option(words: &[&str], engine: &mut Option<Engine>, multipv: &mut usize) -> (r: Result<(), String>)
    requires
        (*old(engine)) matches Some(e) ==> e.wf(),
    ensures
        (*final(engine)) matches Some(e) ==> e.wf(),
        option_error(views(words@), (*old(engine)) is None) matches Some(msg) ==> fails_with(r, msg) && *final(engine) == *old(engine)
            && *final(multipv) == *old(multipv),
        option_error(views(words@), (*old(engine)) is None) is None ==> r is Ok && option_applied(
            views(words@),
            *old(engine),
            *final(engine),
            *old(multipv),
            *final(multipv),
        ),
{
    if words.len() < 4 || !same_text(words[0], "name", true) {
        return Err(String::from_str("setoption syntax is `setoption name <Name> value <Value>`"));
    }
    let mut k: usize = 0;
    while k < words.len() && !same_text(words[k], "value", true)
        invariant
            k <= words@.len(),
            find_value(views(words@), 0) == find_value(views(words@), k as int),
        decreases words@.len() - k,
    {
        k = k + 1;
    }
    if k >= words.len() {
        return Err(String::from_str("setoption requires `value`"));
    }
    if k + 1 >= words.len() {
        return Err(String::from_str("setoption value is missing"));
    }
    proof {
        if k == 0 {
            reveal_strlit("name");
            reveal_strlit("value");
            assert(lower_chars("name"@).len() != lower_chars("value"@).len());
        }
    }
    let name = join_text(words, 1, k);
    let value = words[k + 1];
    let folded = name.as_str();
    if same_text(folded, "hash", true) {
        let mb = match parse_uint(value.as_bytes(), usize::MAX as u64) {
            Some(v) => v as usize,
            None => return Err(String::from_str("Hash must be an integer")),
        };
        match engine {
            Some(e) => {
                e.set_hash_mb(clamp_usize(mb, 1, 4096));
            },
            None => return Err(String::from_str("cannot change Hash during search")),
        }
    } else if same_text(folded, "multipv", true) {
        let n = match parse_uint(value.as_bytes(), usize::MAX as u64) {
            Some(v) => v as usize,
            None => return Err(String::from_str("MultiPV must be an integer")),
        };
        *multipv = clamp_usize(n, 1, 5);
        match engine {
            Some(e) => {
                e.set_default_multipv(*multipv);
            },
            None => {},
        }
    } else if same_text(folded, "threads", true) {
        if !same_text(value, "1", false) {
            return Err(String::from_str("this correctness-first build is single-threaded; Threads is fixed at 1"));
        }
    } else {
        let mut m = String::from_str("unknown option `");
        m.append(name.as_str());
        m.append("`");
        return Err(m);
    }
    Ok(())
}

} // verus!
