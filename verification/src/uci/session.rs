//! A UCI session: the state kept between commands, and what each command
//! line or finished search leads to. The caller reads the lines, writes the
//! answers, and runs the searches this asks for.

use vstd::prelude::*;
use vstd::string::StringExecFns;

use crate::board::{start_model, Position};
use crate::moves::Move;
use crate::search::{as_millis, format_score, nanos_of, score_text, Engine, SearchLimits, SearchLine, SearchResult};
use crate::text::{ascii_chars, decimal, decimal_string};
use crate::tt::is_empty_entry;
use crate::text::{split_words, views, words_of};
use crate::uci::words::same_text;
use crate::uci::{go_limits, go_scan, go_start, option_applied, option_error, parse_go, parse_position, position_outcome, set_option};

verus! {

/// What the caller must do for the session.
pub enum UciAction {
    /// Write this line.
    Say(String),
    /// Search this position with these limits, with the engine lent for
    /// the search; hand both back to `search_finished` when it ends.
    Search(Engine, Position, SearchLimits),
    /// Ask the running search to stop.
    Stop,
    /// Stop any running search, wait for it, and end the session.
    Quit,
}

/// The state between commands: the position, the engine (away while it
/// searches), the MultiPV count, and whether a search is running.
pub struct UciSession {
    pub position: Position,
    pub engine: Option<Engine>,
    pub multipv: usize,
    pub searching: bool,
}

/// `actions` writes exactly `lines`, in order, and does nothing else.
pub open spec fn says(actions: Seq<UciAction>, lines: Seq<Seq<char>>) -> bool {
    &&& actions.len() == lines.len()
    &&& forall|k: int| 0 <= k < lines.len() ==> (#[trigger] actions[k] matches UciAction::Say(s) && s@ == lines[k])
}

/// The answer to `uci`: the engine's name and author, its options, and
/// `uciok`.
pub open spec fn uci_identity() -> Seq<Seq<char>> {
    seq![
        "id name Correctness First Rust Chess"@,
        "id author TheronRadley contributors"@,
        "option name Hash type spin default 16 min 1 max 4096"@,
        "option name MultiPV type spin default 1 min 1 max 5"@,
        "option name Threads type spin default 1 min 1 max 1"@,
        "uciok"@,
    ]
}

/// An error reported to the GUI.
pub open spec fn error_line(msg: Seq<char>) -> Seq<char> {
    "info string error: "@ + msg
}

/// The moves of a line in UCI notation, separated by spaces.
pub open spec fn pv_text(pv: Seq<Move>) -> Seq<char>
    decreases pv.len(),
{
    if pv.len() == 0 {
        Seq::empty()
    } else if pv.len() == 1 {
        pv[0].uci_chars()
    } else {
        pv_text(pv.drop_last()) + seq![' '] + pv.last().uci_chars()
    }
}

/// The `info` line reporting one principal variation, with `ms` the
/// milliseconds the search took.
pub open spec fn info_line(r: SearchResult, line: SearchLine, ms: nat) -> Seq<char> {
    "info depth "@ + ascii_chars(decimal(line.depth as nat)) + " seldepth "@ + ascii_chars(decimal(r.seldepth as nat))
        + " multipv "@ + ascii_chars(decimal(line.rank as nat)) + " score "@ + ascii_chars(score_text(line.score as int))
        + " nodes "@ + ascii_chars(decimal(r.nodes as nat)) + " nps "@ + ascii_chars(decimal(r.nps as nat)) + " hashfull "@
        + ascii_chars(decimal(r.hashfull as nat)) + " time "@ + ascii_chars(decimal(ms)) + " pv "@ + pv_text(line.pv@)
}

/// The first actions write the `info` lines of all the result's
/// principal variations, in order, with `ms` the search's time.
pub open spec fn reports_lines(actions: Seq<UciAction>, r: SearchResult, ms: nat) -> bool {
    forall|k: int| 0 <= k < r.lines@.len() ==> (#[trigger] actions[k] matches UciAction::Say(s) && s@ == info_line(
        r,
        r.lines@[k],
        ms,
    ))
}

/// The `bestmove` line: the first move of the best line, or `0000`.
pub open spec fn bestmove_line(r: SearchResult) -> Seq<char> {
    "bestmove "@ + (if r.lines@.len() > 0 && r.lines@[0].pv@.len() > 0 {
        r.lines@[0].pv@[0].uci_chars()
    } else {
        "0000"@
    })
}


/// What a `go` command with the words `ws` does to a session that is not
/// searching: report the first error, or lend the engine to a search of
/// the current position with the limits the words set.
pub open spec fn go_started(ws: Seq<Seq<char>>, before: UciSession, after: UciSession, actions: Seq<UciAction>) -> bool {
    match go_scan(ws, 0, go_start()) {
        Err(m) => says(actions, seq![error_line(m)]) && after == before,
        Ok(f) => match before.engine {
            None => says(actions, seq![error_line("engine unavailable"@)]) && after == before,
            Some(e0) => {
                &&& actions.len() == 2
                &&& actions[0] matches UciAction::Say(s) && s@ == "info string searching"@
                &&& actions[1] matches UciAction::Search(e, p, l) && e == e0 && p.wf() && p@ == before.position@ && go_limits(
                    l,
                    f,
                    before.position@.side,
                    before.multipv,
                )
                &&& after.engine is None
                &&& after.searching
                &&& after.position == before.position
                &&& after.multipv == before.multipv
            },
        },
    }
}

/// `ucinewgame`: the engine's table is emptied; nothing else changes.
pub open spec fn table_cleared(before: UciSession, after: UciSession) -> bool {
    &&& after.position == before.position
    &&& after.multipv == before.multipv
    &&& after.searching == before.searching
    &&& before.engine is None ==> after.engine is None
    &&& before.engine matches Some(e0) ==> after.engine matches Some(e) && e.hash_mb_spec() == e0.hash_mb_spec()
        && e.default_multipv_spec() == e0.default_multipv_spec() && e.table()@.entries.len() == e0.table()@.entries.len()
        && forall|i: int| 0 <= i < e.table()@.entries.len() ==> is_empty_entry(#[trigger] e.table()@.entries[i])
}

/// `setoption` with the words `ws`: an error is reported and nothing
/// changes, or the option is applied.
pub open spec fn option_done(ws: Seq<Seq<char>>, before: UciSession, after: UciSession, actions: Seq<UciAction>) -> bool {
    match option_error(ws, before.engine is None) {
        Some(m) => says(actions, seq![error_line(m)]) && after == before,
        None => {
            &&& says(actions, seq![])
            &&& after.position == before.position
            &&& after.searching == before.searching
            &&& option_applied(ws, before.engine, after.engine, before.multipv, after.multipv)
        },
    }
}

/// `position` with the words `ws`: the position becomes the one they
/// describe, or an error is reported and nothing changes.
pub open spec fn position_done(ws: Seq<Seq<char>>, before: UciSession, after: UciSession, actions: Seq<UciAction>) -> bool {
    &&& after.engine == before.engine
    &&& after.multipv == before.multipv
    &&& after.searching == before.searching
    &&& (says(actions, seq![]) && position_outcome(ws, Ok(after.position@))) || (exists|m: Seq<char>|
        says(actions, seq![error_line(m)]) && #[trigger] position_outcome(ws, Err(m)) && after.position == before.position)
}

/// `stop`: a running search is asked to stop.
pub open spec fn stop_done(before: UciSession, after: UciSession, actions: Seq<UciAction>) -> bool {
    &&& actions.len() == (if before.searching { 1int } else { 0 })
    &&& before.searching ==> actions[0] is Stop
    &&& after == before
}

/// What one command line, split into the words `ws`, does.
pub open spec fn line_handled(ws: Seq<Seq<char>>, before: UciSession, after: UciSession, actions: Seq<UciAction>) -> bool {
    if ws.len() == 0 {
        says(actions, seq![]) && after == before
    } else if ws[0] == "uci"@ {
        says(actions, uci_identity()) && after == before
    } else if ws[0] == "isready"@ {
        says(actions, seq!["readyok"@]) && after == before
    } else if ws[0] == "ucinewgame"@ {
        says(actions, seq![]) && table_cleared(before, after)
    } else if ws[0] == "setoption"@ {
        option_done(ws.drop_first(), before, after, actions)
    } else if ws[0] == "position"@ {
        position_done(ws.drop_first(), before, after, actions)
    } else if ws[0] == "go"@ {
        if before.searching {
            says(actions, seq![error_line("search already running; send stop first"@)]) && after == before
        } else {
            go_started(ws.drop_first(), before, after, actions)
        }
    } else if ws[0] == "stop"@ {
        stop_done(before, after, actions)
    } else if ws[0] == "quit"@ {
        actions.len() == 1 && actions[0] is Quit && after == before
    } else if ws[0] == "debug"@ {
        says(actions, seq!["info string debug diagnostics are reported in final search info"@]) && after == before
    } else {
        says(actions, seq![error_line("unsupported command `"@ + ws[0] + "`"@)]) && after == before
    }
}

fn tail<'a>(words: &Vec<&'a str>) -> (r: Vec<&'a str>)
    requires
        words@.len() > 0,
    ensures
        r@ == words@.drop_first(),
{
    let mut r: Vec<&'a str> = Vec::new();
    let mut i: usize = 1;
    while i < words.len()
        invariant
            1 <= i <= words@.len(),
            r@ == words@.subrange(1, i as int),
        decreases words@.len() - i,
    {
        r.push(words[i]);
        i = i + 1;
        proof {
            assert(r@ =~= words@.subrange(1, i as int));
        }
    }
    proof {
        assert(r@ =~= words@.drop_first());
    }
    r
}

/// Adds a line to write.
fn say(actions: &mut Vec<UciAction>, text: &str)
    ensures
        final(actions)@.drop_last() == old(actions)@,
        final(actions)@.len() == old(actions)@.len() + 1,
        final(actions)@.last() matches UciAction::Say(s) && s@ == text@,
{
    actions.push(UciAction::Say(String::from_str(text)));
    proof {
        assert(final(actions)@.drop_last() =~= old(actions)@);
    }
}

/// Adds an error line to write.
fn report(actions: &mut Vec<UciAction>, msg: String)
    ensures
        final(actions)@.drop_last() == old(actions)@,
        final(actions)@.len() == old(actions)@.len() + 1,
        final(actions)@.last() matches UciAction::Say(s) && s@ == error_line(msg@),
{
    let mut s = String::from_str("info string error: ");
    s.append(msg.as_str());
    actions.push(UciAction::Say(s));
    proof {
        assert(final(actions)@.drop_last() =~= old(actions)@);
    }
}

/// Appends the moves of a line in UCI notation, separated by spaces.
fn append_pv(s: &mut String, pv: &Vec<Move>)
    ensures
        final(s)@ == old(s)@ + pv_text(pv@),
{
    let ghost start = s@;
    let mut k: usize = 0;
    while k < pv.len()
        invariant
            k <= pv@.len(),
            s@ == start + pv_text(pv@.take(k as int)),
        decreases pv@.len() - k,
    {
        if k > 0 {
            s.append(" ");
        }
        let text = pv[k].to_uci();
        s.append(text.as_str());
        proof {
            reveal_strlit(" ");
            let t = pv@.take(k + 1);
            assert(t.drop_last() =~= pv@.take(k as int));
            assert(t.last() == pv@[k as int]);
            if k == 0 {
                assert(pv_text(t) == t[0].uci_chars());
            }
            assert(s@ =~= start + pv_text(t));
        }
        k = k + 1;
    }
    proof {
        assert(pv@.take(k as int) =~= pv@);
    }
}

/// The `info` line for one principal variation of a finished search.
fn info_text(result: &SearchResult, line: &SearchLine, ms: u128) -> (s: String)
    ensures
        s@ == info_line(*result, *line, ms as nat),
{
    let mut s = String::from_str("info depth ");
    s.append(decimal_string(line.depth as u128).as_str());
    s.append(" seldepth ");
    s.append(decimal_string(result.seldepth as u128).as_str());
    s.append(" multipv ");
    s.append(decimal_string(line.rank as u128).as_str());
    s.append(" score ");
    s.append(format_score(line.score).as_str());
    s.append(" nodes ");
    s.append(decimal_string(result.nodes as u128).as_str());
    s.append(" nps ");
    s.append(decimal_string(result.nps as u128).as_str());
    s.append(" hashfull ");
    s.append(decimal_string(result.hashfull as u128).as_str());
    s.append(" time ");
    s.append(decimal_string(ms).as_str());
    s.append(" pv ");
    append_pv(&mut s, &line.pv);
    s
}

impl UciSession {
    pub open spec fn wf(&self) -> bool {
        &&& self.position.wf()
        &&& self.engine matches Some(e) ==> e.wf()
    }

    /// A new session: the start position, an engine with the default
    /// 16 MiB table, one principal variation, and no search running.
    pub fn new() -> (s: Self)
        ensures
            s.wf(),
            s.position@ == start_model(),
            s.engine matches Some(e) && e.hash_mb_spec() == 16 && e.default_multipv_spec() == 1,
            s.multipv == 1,
            !s.searching,
    {
        UciSession { position: Position::default(), engine: Some(Engine::default()), multipv: 1, searching: false }
    }

    /// Handles one command line.
    pub fn handle_line(&mut self, line: &str) -> (actions: Vec<UciAction>)
        requires
            old(self).wf(),
        ensures
            final(self).wf(),
            line_handled(words_of(line@), *old(self), *final(self), actions@),
    {
        let words = split_words(line);
        let ghost ws = words_of(line@);
        let mut actions: Vec<UciAction> = Vec::new();
        if words.len() == 0 {
            return actions;
        }
        let rest = tail(&words);
        let cmd = words[0];
        proof {
            assert(views(words@)[0] == ws[0]);
            assert(views(rest@) =~= ws.drop_first());
        }
        if same_text(cmd, "uci", false) {
            say(&mut actions, "id name Correctness First Rust Chess");
            say(&mut actions, "id author TheronRadley contributors");
            say(&mut actions, "option name Hash type spin default 16 min 1 max 4096");
            say(&mut actions, "option name MultiPV type spin default 1 min 1 max 5");
            say(&mut actions, "option name Threads type spin default 1 min 1 max 1");
            say(&mut actions, "uciok");
            proof {
                assert(says(actions@, uci_identity()));
            }
        } else if same_text(cmd, "isready", false) {
            say(&mut actions, "readyok");
        } else if same_text(cmd, "ucinewgame", false) {
            match &mut self.engine {
                Some(e) => e.clear_hash(),
                None => {},
            }
        } else if same_text(cmd, "setoption", false) {
            match set_option(rest.as_slice(), &mut self.engine, &mut self.multipv) {
                Ok(()) => {},
                Err(e) => report(&mut actions, e),
            }
        } else if same_text(cmd, "position", false) {
            match parse_position(rest.as_slice()) {
                Ok(p) => {
                    self.position = p;
                },
                Err(e) => {
                    let ghost m = e@;
                    report(&mut actions, e);
                    proof {
                        assert(says(actions@, seq![error_line(m)]));
                    }
                },
            }
        } else if same_text(cmd, "go", false) {
            if self.searching {
                report(&mut actions, String::from_str("search already running; send stop first"));
            } else {
                self.start_search(rest.as_slice(), &mut actions);
            }
        } else if same_text(cmd, "stop", false) {
            if self.searching {
                actions.push(UciAction::Stop);
            }
        } else if same_text(cmd, "quit", false) {
            actions.push(UciAction::Quit);
        } else if same_text(cmd, "debug", false) {
            say(&mut actions, "info string debug diagnostics are reported in final search info");
        } else {
            let mut m = String::from_str("unsupported command `");
            m.append(cmd);
            m.append("`");
            report(&mut actions, m);
        }
        actions
    }

    /// Starts a search for `go` with the words `rest`, lending it the engine.
    fn start_search(&mut self, rest: &[&str], actions: &mut Vec<UciAction>)
        requires
            old(self).wf(),
            !old(self).searching,
            old(actions)@.len() == 0,
        ensures
            final(self).wf(),
            go_started(views(rest@), *old(self), *final(self), final(actions)@),
    {
        match parse_go(rest, self.position.side_to_move(), self.multipv) {
            Err(e) => {
                report(actions, e);
            },
            Ok(limits) => {
                match self.engine.take() {
                    Some(engine) => {
                        self.searching = true;
                        say(actions, "info string searching");
                        let position = self.position.duplicate();
                        actions.push(UciAction::Search(engine, position, limits));
                    },
                    None => {
                        report(actions, String::from_str("engine unavailable"));
                    },
                }
            },
        }
    }

    /// Takes back the engine from a finished search and reports its lines
    /// and best move.
    pub fn search_finished(&mut self, engine: Engine, result: &SearchResult) -> (actions: Vec<UciAction>)
        requires
            old(self).wf(),
            engine.wf(),
        ensures
            final(self).wf(),
            final(self).engine == Some(engine),
            !final(self).searching,
            final(self).position == old(self).position,
            final(self).multipv == old(self).multipv,
            actions@.len() == result.lines@.len() + 1,
            reports_lines(actions@, *result, (nanos_of(result.elapsed) / 1_000_000) as nat),
            actions@.last() matches UciAction::Say(s) && s@ == bestmove_line(*result),
    {
        self.engine = Some(engine);
        self.searching = false;
        let ms = as_millis(&result.elapsed);
        let mut actions: Vec<UciAction> = Vec::new();
        let mut k: usize = 0;
        while k < result.lines.len()
            invariant
                k <= result.lines@.len(),
                actions@.len() == k,
                forall|j: int| 0 <= j < k ==> (#[trigger] actions@[j] matches UciAction::Say(s) && s@ == info_line(
                    *result,
                    result.lines@[j],
                    ms as nat,
                )),
            decreases result.lines@.len() - k,
        {
            let text = info_text(result, &result.lines[k], ms);
            actions.push(UciAction::Say(text));
            k = k + 1;
        }
        let best = match result.best_move() {
            Some(mv) => mv.to_uci(),
            None => String::from_str("0000"),
        };
        let mut s = String::from_str("bestmove ");
        s.append(best.as_str());
        let ghost before = actions@;
        actions.push(UciAction::Say(s));
        proof {
            assert forall|j: int| 0 <= j < result.lines@.len() implies (#[trigger] actions@[j] matches UciAction::Say(t) && t@
                == info_line(*result, result.lines@[j], ms as nat)) by {
                assert(actions@[j] == before[j]);
            }
            assert(reports_lines(actions@, *result, ms as nat));
        }
        actions
    }
}

} // verus!
