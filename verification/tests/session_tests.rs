use chess_engine::uci::session::{UciAction, UciSession};

fn said(actions: &[UciAction]) -> Vec<String> {
    actions
        .iter()
        .map(|a| match a {
            UciAction::Say(s) => s.clone(),
            UciAction::Search(..) => "<search>".to_string(),
            UciAction::Stop => "<stop>".to_string(),
            UciAction::Quit => "<quit>".to_string(),
        })
        .collect()
}

#[test]
fn handshake_and_readiness() {
    let mut s = UciSession::new();
    let out = said(&s.handle_line("uci"));
    assert_eq!(out.len(), 6);
    assert_eq!(out[0], "id name Correctness First Rust Chess");
    assert_eq!(out[5], "uciok");
    assert_eq!(said(&s.handle_line("  isready \t")), vec!["readyok"]);
    assert!(s.handle_line("").is_empty());
    assert!(s.handle_line("   ").is_empty());
    assert_eq!(said(&s.handle_line("debug on")), vec!["info string debug diagnostics are reported in final search info"]);
    assert_eq!(said(&s.handle_line("register later")), vec!["info string error: unsupported command `register`"]);
}

#[test]
fn position_go_and_bestmove() {
    let mut s = UciSession::new();
    assert!(s.handle_line("position startpos moves e2e4 e7e5").is_empty());
    assert_eq!(s.position.to_fen(), "rnbqkbnr/pppp1ppp/8/4p3/4P3/8/PPPP1PPP/RNBQKBNR w KQkq e6 0 2");
    let mut actions = s.handle_line("go depth 1");
    assert_eq!(actions.len(), 2);
    assert!(s.searching);
    assert!(s.engine.is_none());
    assert_eq!(said(&s.handle_line("go depth 1")), vec!["info string error: search already running; send stop first"]);
    assert_eq!(said(&s.handle_line("stop")), vec!["<stop>"]);
    let search = actions.pop().unwrap();
    let (mut engine, mut position, limits) = match search {
        UciAction::Search(e, p, l) => (e, p, l),
        _ => panic!("expected a search"),
    };
    assert_eq!(limits.depth, Some(1));
    let result = engine.search(&mut position, limits, None);
    let out = said(&s.search_finished(engine, &result));
    assert!(!s.searching);
    assert!(s.engine.is_some());
    assert_eq!(out.len(), result.lines.len() + 1);
    assert!(out[0].starts_with("info depth 1 seldepth "));
    assert!(out[0].contains(" multipv 1 score cp "));
    assert!(out.last().unwrap().starts_with("bestmove "));
    assert_eq!(out.last().unwrap().len(), "bestmove e2e4".len());
    assert!(s.handle_line("stop").is_empty());
    assert_eq!(said(&s.handle_line("quit")), vec!["<quit>"]);
}

#[test]
fn mate_is_reported_with_its_line() {
    let mut s = UciSession::new();
    assert!(s.handle_line("position fen 7k/5K2/6Q1/8/8/8/8/8 w - - 0 1").is_empty());
    let mut actions = s.handle_line("go depth 3");
    let (mut engine, mut position, limits) = match actions.pop().unwrap() {
        UciAction::Search(e, p, l) => (e, p, l),
        _ => panic!("expected a search"),
    };
    let result = engine.search(&mut position, limits, None);
    let out = said(&s.search_finished(engine, &result));
    assert!(out[0].starts_with("info depth 3 "));
    assert!(out[0].contains(" score mate 1 "));
    assert!(out[0].ends_with(" pv g6h5"));
    assert_eq!(out[1], "bestmove g6h5");
}

#[test]
fn bad_commands_are_reported_without_change() {
    let mut s = UciSession::new();
    let before = s.position.to_fen();
    let out = said(&s.handle_line("position fen nonsense"));
    assert_eq!(out.len(), 1);
    assert!(out[0].starts_with("info string error: "));
    assert_eq!(s.position.to_fen(), before);
    assert_eq!(said(&s.handle_line("go depth x")), vec!["info string error: go depth must be an integer"]);
    assert!(!s.searching);
    assert_eq!(said(&s.handle_line("setoption name Threads value 4")).len(), 1);
    assert!(s.handle_line("setoption name MultiPV value 3").is_empty());
    assert_eq!(s.multipv, 3);
    assert!(s.handle_line("ucinewgame").is_empty());
    assert!(s.handle_line("setoption name Hash value 2").is_empty());
    assert_eq!(s.engine.as_ref().unwrap().hash_mb(), 2);
}
