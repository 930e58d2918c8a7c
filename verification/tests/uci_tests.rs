use chess_engine::uci::{parse_go, parse_position, set_option};
use chess_engine::{Color, Engine, Position};

fn failure(r: Result<Position, String>) -> String {
    match r {
        Ok(p) => panic!("unexpected position {}", p.to_fen()),
        Err(e) => e,
    }
}

#[test]
fn parses_position_and_rejects_bad_move() {
    let p = parse_position(&["startpos", "moves", "e2e4", "e7e5"]).expect("legal UCI game");
    assert_eq!(p.to_fen(), "rnbqkbnr/pppp1ppp/8/4p3/4P3/8/PPPP1PPP/RNBQKBNR w KQkq e6 0 2");
    assert!(parse_position(&["startpos", "moves", "e2e5"]).is_err());
}

#[test]
fn parses_go_clock_and_limits() {
    let go = parse_go(&["wtime", "30000", "btime", "25000", "winc", "500", "depth", "12"], Color::White, 2).expect("go");
    assert_eq!(go.depth, Some(12));
    assert_eq!(go.multipv, 2);
    assert!(go.movetime.is_some());
}

#[test]
fn position_errors_are_reported_with_their_reason() {
    assert_eq!(failure(parse_position(&[])), "position needs `startpos` or `fen`");
    assert_eq!(failure(parse_position(&["begin"])), "position needs `startpos` or `fen`");
    assert_eq!(failure(parse_position(&["fen", "8/8/8/8/8/8/8/8", "w"])), "position fen needs exactly six FEN fields");
    assert_eq!(
        failure(parse_position(&["fen", "8/8/8/8/8/8/8/8", "w", "-", "-", "0", "1"])),
        "invalid FEN: White must have exactly one king"
    );
    assert_eq!(failure(parse_position(&["startpos", "e2e4"])), "expected `moves` after position");
    assert_eq!(
        failure(parse_position(&["startpos", "moves", "e2e9"])),
        "invalid move: coordinates must be lower-case squares such as e2"
    );
    assert!(failure(parse_position(&["startpos", "moves", "e2e5"])).starts_with("invalid move: "));
    assert!(parse_position(&["fen", "nonsense"]).is_err());
    assert_eq!(
        failure(parse_position(&["fen", "8/8/8/8/8/8/8/8x", "w", "-", "-", "0", "1"])),
        "invalid FEN: invalid piece character `x`"
    );
}

#[test]
fn position_fen_with_moves() {
    let p = parse_position(&["fen", "4k3/8/8/8/8/8/8/4K2R", "w", "K", "-", "0", "1", "moves", "e1g1"]).unwrap();
    assert_eq!(p.to_fen(), "4k3/8/8/8/8/8/8/5RK1 b - - 1 1");
    let p = parse_position(&["startpos"]).unwrap();
    assert_eq!(p.to_fen(), chess_engine::STARTPOS_FEN);
    let p = parse_position(&["startpos", "moves"]).unwrap();
    assert_eq!(p.to_fen(), chess_engine::STARTPOS_FEN);
}

#[test]
fn go_limits_follow_the_clock() {
    // 30000 / 30 + 3 * 500 / 4 = 1375, under the clock.
    let go = parse_go(&["wtime", "30000", "btime", "25000", "winc", "500"], Color::White, 1).unwrap();
    assert_eq!(go.movetime.unwrap().as_millis(), 1375);
    assert_eq!(go.depth, None);
    // Black uses its own clock: 25000 / 30 = 833.
    let go = parse_go(&["wtime", "30000", "btime", "25000", "winc", "500"], Color::Black, 1).unwrap();
    assert_eq!(go.movetime.unwrap().as_millis(), 833);
    // 60 / 30 = 2.
    let go = parse_go(&["wtime", "60"], Color::White, 1).unwrap();
    assert_eq!(go.movetime.unwrap().as_millis(), 2);
    // A large increment is held five milliseconds under the clock.
    let go = parse_go(&["wtime", "100", "winc", "1000"], Color::White, 1).unwrap();
    assert_eq!(go.movetime.unwrap().as_millis(), 95);
    // A nearly empty clock still gets one millisecond.
    let go = parse_go(&["wtime", "7"], Color::White, 1).unwrap();
    assert_eq!(go.movetime.unwrap().as_millis(), 1);
    let go = parse_go(&["movetime", "250", "wtime", "30000"], Color::White, 1).unwrap();
    assert_eq!(go.movetime.unwrap().as_millis(), 250);
    let go = parse_go(&["infinite"], Color::White, 3).unwrap();
    assert_eq!(go.depth, Some(64));
    assert!(go.movetime.is_none());
    assert_eq!(go.multipv, 3);
    let go = parse_go(&["nodes", "+1000", "ponder"], Color::White, 1).unwrap();
    assert_eq!(go.nodes, Some(1000));
    assert_eq!(go.depth, None);
}

#[test]
fn go_errors() {
    assert_eq!(parse_go(&["depth"], Color::White, 1).unwrap_err(), "go depth needs a value");
    assert_eq!(parse_go(&["depth", "300"], Color::White, 1).unwrap_err(), "go depth must be an integer");
    assert_eq!(parse_go(&["movetime", "-5"], Color::White, 1).unwrap_err(), "go movetime must be milliseconds");
    assert_eq!(parse_go(&["nodes", "many"], Color::White, 1).unwrap_err(), "go nodes must be an integer");
    assert_eq!(parse_go(&["wtime", ""], Color::White, 1).unwrap_err(), "go wtime must be milliseconds");
    assert_eq!(parse_go(&["btime", "1.5"], Color::White, 1).unwrap_err(), "go btime must be milliseconds");
    assert_eq!(parse_go(&["winc", "+"], Color::White, 1).unwrap_err(), "go winc must be milliseconds");
    assert_eq!(parse_go(&["binc", "18446744073709551616"], Color::White, 1).unwrap_err(), "go binc must be milliseconds");
    assert_eq!(parse_go(&["mate", "3"], Color::White, 1).unwrap_err(), "unsupported go token `mate`");
}

#[test]
fn setoption_changes_settings() {
    let mut engine = Some(Engine::new(16));
    let mut multipv = 1usize;
    set_option(&["name", "Hash", "value", "64"], &mut engine, &mut multipv).unwrap();
    assert_eq!(engine.as_ref().unwrap().hash_mb(), 64);
    set_option(&["NAME", "hash", "VALUE", "100000"], &mut engine, &mut multipv).unwrap();
    assert_eq!(engine.as_ref().unwrap().hash_mb(), 4096);
    set_option(&["name", "MultiPV", "value", "9"], &mut engine, &mut multipv).unwrap();
    assert_eq!(multipv, 5);
    set_option(&["name", "multipv", "value", "0"], &mut engine, &mut multipv).unwrap();
    assert_eq!(multipv, 1);
    set_option(&["name", "Threads", "value", "1"], &mut engine, &mut multipv).unwrap();
    let mut none: Option<Engine> = None;
    set_option(&["name", "MultiPV", "value", "2"], &mut none, &mut multipv).unwrap();
    assert_eq!(multipv, 2);
}

#[test]
fn setoption_errors() {
    let mut engine = Some(Engine::new(16));
    let mut multipv = 1usize;
    let syntax = "setoption syntax is `setoption name <Name> value <Value>`";
    assert_eq!(set_option(&["name", "Hash", "value"], &mut engine, &mut multipv).unwrap_err(), syntax);
    assert_eq!(set_option(&["label", "Hash", "value", "1"], &mut engine, &mut multipv).unwrap_err(), syntax);
    assert_eq!(set_option(&["name", "Hash", "is", "1"], &mut engine, &mut multipv).unwrap_err(), "setoption requires `value`");
    assert_eq!(set_option(&["name", "Clear", "Hash", "value"], &mut engine, &mut multipv).unwrap_err(), "setoption value is missing");
    assert_eq!(set_option(&["name", "Hash", "value", "big"], &mut engine, &mut multipv).unwrap_err(), "Hash must be an integer");
    assert_eq!(set_option(&["name", "MultiPV", "value", "x"], &mut engine, &mut multipv).unwrap_err(), "MultiPV must be an integer");
    assert_eq!(
        set_option(&["name", "Threads", "value", "2"], &mut engine, &mut multipv).unwrap_err(),
        "this correctness-first build is single-threaded; Threads is fixed at 1"
    );
    assert_eq!(set_option(&["name", "Move", "Overhead", "value", "5"], &mut engine, &mut multipv).unwrap_err(), "unknown option `Move Overhead`");
    let mut none: Option<Engine> = None;
    assert_eq!(set_option(&["name", "Hash", "value", "8"], &mut none, &mut multipv).unwrap_err(), "cannot change Hash during search");
    assert_eq!(engine.as_ref().unwrap().hash_mb(), 16);
    assert_eq!(multipv, 1);
}
