use chess_engine::eval::{evaluate, piece_value};
use chess_engine::movegen::{attackers_to, is_square_attacked, see, see_ge};
use chess_engine::moves::{from_san, parse_uci_move, to_san};
use chess_engine::search::{format_score, score_from_tt, score_to_tt};
use chess_engine::tt::{Bound, TranspositionTable};
use chess_engine::{perft, Color, Engine, Move, PieceKind, Position, SearchLimits, STARTPOS_FEN};

fn fen_error(fen: &str) -> String {
    match Position::from_fen(fen) {
        Ok(p) => panic!("accepted {}", p.to_fen()),
        Err(e) => e.0,
    }
}

fn play(p: &mut Position, texts: &[&str]) {
    for text in texts {
        let mv = parse_uci_move(p, text).unwrap();
        p.try_make_move(mv).unwrap();
    }
}

#[test]
fn fen_errors_name_their_reason() {
    assert_eq!(fen_error("8/8/8/8 w - - 0"), "expected exactly six fields");
    assert_eq!(fen_error("8/8/8/8/8/8/8 w - - 0 1"), "piece placement must contain eight ranks");
    assert_eq!(fen_error("9/8/8/8/8/8/8/8 w - - 0 1"), "invalid empty-square count `9`");
    assert_eq!(fen_error("4k3/8/8/8/08/8/8/4K3 w - - 0 1"), "invalid empty-square count `0`");
    assert_eq!(fen_error("4k3/8/8/8/8/8/8/4K3N w - - 0 1"), "rank 1 has more than eight files");
    assert_eq!(fen_error("4k4/8/8/8/8/8/8/4K3 w - - 0 1"), "rank 8 has more than eight files");
    assert_eq!(fen_error("4k3/8/8/7/8/8/8/4K3 w - - 0 1"), "rank 5 does not contain eight files");
    assert_eq!(fen_error("4k3/8/8/8/3x4/8/8/4K3 w - - 0 1"), "invalid piece character `x`");
    assert_eq!(fen_error("4k3/8/8/8/3\u{e9}4/8/8/4K3 w - - 0 1"), "invalid piece character `\u{e9}`");
    assert_eq!(fen_error("4k3/8/8/8/8/8/8/4K2R w KK - 0 1"), "duplicate castling right");
    assert_eq!(fen_error("4k3/8/8/8/8/8/8/4K3 x - - 0 1"), "active color must be `w` or `b`");
    assert_eq!(fen_error("4k3/8/8/8/8/8/8/4K3 w X - 0 1"), "castling rights must use KQkq or -");
    assert_eq!(fen_error("4k3/8/8/8/8/8/8/4K3 w - z9 0 1"), "invalid square `z9`");
    assert_eq!(fen_error("4k3/8/8/8/8/8/8/4K3 w - - x 1"), "halfmove clock must be a non-negative u16");
    assert_eq!(fen_error("4k3/8/8/8/8/8/8/4K3 w - - 0 x"), "fullmove number must be a positive u16");
    assert_eq!(fen_error("4k3/8/8/8/8/8/8/4K3 w - - 0 0"), "fullmove number must be at least 1");
    assert_eq!(fen_error("8/8/8/8/8/8/8/8 w - - 0 1"), "White must have exactly one king");
    assert_eq!(fen_error("3k4/8/8/8/8/8/8/4KK2 w - - 0 1"), "White must have exactly one king");
    assert_eq!(fen_error("8/8/8/8/8/8/8/4K3 w - - 0 1"), "Black must have exactly one king");
    assert_eq!(fen_error("4k3/8/8/8/8/8/8/P3K3 w - - 0 1"), "pawns may not be on first or eighth rank");
    assert_eq!(fen_error("8/8/8/8/8/8/3k4/4K3 w - - 0 1"), "kings may not be adjacent");
    assert_eq!(fen_error("4k3/8/8/8/8/8/8/4K3 w K - 0 1"), "castling right is inconsistent with king/rook home squares");
    assert_eq!(fen_error("4k3/8/8/8/8/8/4K3/8 w - e3 0 1"), "en-passant target rank is inconsistent with active color");
    assert_eq!(fen_error("4k3/8/8/8/8/8/4r3/4K3 b - - 0 1"), "side that just moved is in check");
    match Position::from_fen("8/8/8/8 w - - 0") {
        Err(e) => assert_eq!(e.message(), "invalid FEN: expected exactly six fields"),
        Ok(_) => panic!("accepted"),
    }
}

#[test]
fn fen_numbers_accept_a_plus_sign() {
    let p = Position::from_fen("4k3/8/8/8/8/8/8/4K3 w - - +3 +7").unwrap();
    assert_eq!(p.halfmove_clock(), 3);
    assert_eq!(p.fullmove_number(), 7);
    assert_eq!(p.to_fen(), "4k3/8/8/8/8/8/8/4K3 w - - 3 7");
}

#[test]
fn default_position_is_the_start_position() {
    let p = Position::default();
    assert_eq!(p.to_fen(), STARTPOS_FEN);
    assert_eq!(p.key(), Position::from_fen(STARTPOS_FEN).unwrap().key());
}

#[test]
fn uci_move_errors() {
    let p = Position::default();
    let err = |t: &str| parse_uci_move(&p, t).unwrap_err().0;
    assert_eq!(err("e2e"), "UCI move must have four coordinates plus an optional promotion letter");
    assert_eq!(err("e2e4qq"), "UCI move must have four coordinates plus an optional promotion letter");
    assert_eq!(err("E2e4"), "coordinates must be lower-case squares such as e2");
    assert_eq!(err("e2e9"), "coordinates must be lower-case squares such as e2");
    assert_eq!(err("e2e4k"), "promotion suffix must be q, r, b, or n");
    assert!(parse_uci_move(&p, "e2e5").is_err());
    let e = parse_uci_move(&p, "e2e").unwrap_err();
    assert_eq!(e.message(), "invalid move: UCI move must have four coordinates plus an optional promotion letter");
    let mv = parse_uci_move(&p, "g1f3").unwrap();
    assert_eq!((mv.from(), mv.to()), (6, 21));
}

#[test]
fn san_reads_castling_with_zeros_and_surrounding_space() {
    let p = Position::from_fen("r3k2r/8/8/8/8/8/8/R3K2R w KQkq - 0 1").unwrap();
    let short = from_san(&p, "0-0").unwrap();
    assert_eq!(short.to_uci(), "e1g1");
    let long = from_san(&p, "  O-O-O ").unwrap();
    assert_eq!(long.to_uci(), "e1c1");
    assert_eq!(to_san(&p, short).unwrap(), "O-O");
    let start = Position::default();
    let knight = from_san(&start, " Nf3\t").unwrap();
    assert_eq!(knight.to_uci(), "g1f3");
    assert_eq!(to_san(&start, knight).unwrap(), "Nf3");
}

#[test]
fn san_marks_check_and_mate() {
    let p = Position::from_fen("7k/5K2/6Q1/8/8/8/8/8 w - - 0 1").unwrap();
    let mv = parse_uci_move(&p, "g6g7").unwrap();
    assert_eq!(to_san(&p, mv).unwrap(), "Qg7#");
    let p = Position::from_fen("4k3/8/8/8/8/8/8/R3K3 w - - 0 1").unwrap();
    let mv = parse_uci_move(&p, "a1a8").unwrap();
    assert_eq!(to_san(&p, mv).unwrap(), "Ra8+");
    let p = Position::from_fen("4k3/P7/8/8/8/8/8/4K3 w - - 0 1").unwrap();
    let mv = parse_uci_move(&p, "a7a8q").unwrap();
    assert_eq!(to_san(&p, mv).unwrap(), "a8=Q+");
    assert_eq!(to_san(&p, Move::null()).unwrap_err().0, "cannot format an illegal move as SAN");
}

#[test]
fn making_and_taking_back_moves_restores_the_position() {
    let mut p = Position::from_fen("r3k2r/p1ppqpb1/bn2pnp1/3PN3/1p2P3/2N2Q1p/PPPBBPPP/R3K2R w KQkq - 0 1").unwrap();
    let before = (p.to_fen(), p.key(), p.history().to_vec());
    assert_eq!(perft::perft(&mut p, 3), 97_862);
    assert_eq!((p.to_fen(), p.key(), p.history().to_vec()), before);
}

#[test]
fn zobrist_key_depends_on_the_position_only() {
    let mut a = Position::default();
    play(&mut a, &["g1f3", "b8c6", "b1c3"]);
    let mut b = Position::default();
    play(&mut b, &["b1c3", "b8c6", "g1f3"]);
    assert_eq!(a.to_fen(), b.to_fen());
    assert_eq!(a.key(), b.key());
    let c = Position::from_fen(&a.to_fen()).unwrap();
    assert_eq!(a.key(), c.key());
    assert_eq!(a.history().len(), 4);
}

#[test]
fn illegal_moves_leave_the_position_unchanged() {
    let mut p = Position::from_fen("4r1k1/8/8/8/8/8/4R3/4K3 w - - 0 1").unwrap();
    let before = p.to_fen();
    let pinned = Move::new(12, 11, chess_engine::moves::MoveKind::Quiet);
    let e = p.try_make_move(pinned).unwrap_err();
    assert!(e.message().starts_with("invalid position: "));
    assert_eq!(p.to_fen(), before);
}

#[test]
fn transposition_table_returns_what_was_stored() {
    let mut t = TranspositionTable::new(1);
    let mv = Move::new(12, 28, chess_engine::moves::MoveKind::DoublePawn);
    assert!(t.probe(0x1234_5678_9abc_def0).is_none());
    t.store(0x1234_5678_9abc_def0, 7, -150, Bound::Lower, mv);
    let e = t.probe(0x1234_5678_9abc_def0).unwrap();
    assert_eq!((e.depth, e.score, e.bound, e.best), (7, -150, Bound::Lower, mv));
    assert!(t.probe(0x1234_5678_9abc_def1).is_none());
    assert_eq!(TranspositionTable::new(3).megabytes(), 3);
    t.clear();
    assert!(t.probe(0x1234_5678_9abc_def0).is_none());
    assert_eq!(t.hashfull(), 0);
}

#[test]
fn mate_scores_round_trip_through_the_table() {
    assert_eq!(score_to_tt(29_990, 3), 29_993);
    assert_eq!(score_from_tt(29_993, 3), 29_990);
    assert_eq!(score_to_tt(-29_990, 4), -29_994);
    assert_eq!(score_from_tt(-29_994, 4), -29_990);
    assert_eq!(score_to_tt(250, 9), 250);
    assert_eq!(score_from_tt(score_to_tt(-812, 17), 17), -812);
}

#[test]
fn scores_are_formatted_for_uci() {
    assert_eq!(format_score(29_999), "mate 1");
    assert_eq!(format_score(29_997), "mate 2");
    assert_eq!(format_score(-29_998), "mate -1");
    assert_eq!(format_score(35), "cp 35");
    assert_eq!(format_score(-12), "cp -12");
    assert_eq!(format_score(0), "cp 0");
}

#[test]
fn static_exchange_values() {
    assert_eq!(piece_value(PieceKind::Pawn), 100);
    assert_eq!(piece_value(PieceKind::Queen), 950);
    let p = Position::from_fen("4k3/8/8/3p4/4P3/8/8/4K3 w - - 0 1").unwrap();
    let exd5 = parse_uci_move(&p, "e4d5").unwrap();
    assert_eq!(see(&p, exd5), 100);
    assert!(see_ge(&p, exd5, 100));
    assert!(!see_ge(&p, exd5, 101));
    let p = Position::from_fen("4k3/8/2p5/3p4/4P3/8/8/4K3 w - - 0 1").unwrap();
    let exd5 = parse_uci_move(&p, "e4d5").unwrap();
    assert_eq!(see(&p, exd5), 0);
    let p = Position::from_fen("4k3/8/2p5/3p4/8/8/3Q4/4K3 w - - 0 1").unwrap();
    let qxd5 = parse_uci_move(&p, "d2d5").unwrap();
    assert_eq!(see(&p, qxd5), 100 - 950);
    // d5 is attacked by the c6 pawn and the d2 queen.
    assert_eq!(attackers_to(&p, 35), (1u64 << 42) | (1u64 << 11));
}

#[test]
fn evaluation_is_from_the_side_to_move() {
    let white = Position::from_fen("4k3/8/8/8/8/8/8/3QK3 w - - 0 1").unwrap();
    let black = Position::from_fen("4k3/8/8/8/8/8/8/3QK3 b - - 0 1").unwrap();
    assert!(evaluate(&white) > 0);
    assert_eq!(evaluate(&white), -evaluate(&black));
}

#[test]
fn stalemate_and_checkmate_search_results() {
    let mut stale = Position::from_fen("7k/5Q2/6K1/8/8/8/8/8 b - - 0 1").unwrap();
    let mut engine = Engine::new(1);
    let r = engine.search(&mut stale, SearchLimits { depth: Some(2), movetime: None, nodes: None, multipv: 1 }, None);
    assert!(r.best_move().is_none());
    assert!(r.lines.iter().all(|l| l.score == 0 && l.pv.is_empty()));
    let mut mated = Position::from_fen("7k/6Q1/6K1/8/8/8/8/8 b - - 0 1").unwrap();
    let r = engine.search(&mut mated, SearchLimits { depth: Some(2), movetime: None, nodes: None, multipv: 1 }, None);
    assert!(r.best_move().is_none());
    assert!(mated.in_check(Color::Black));
}

#[test]
fn depth_limited_search_completes_its_iterations() {
    let mut p = Position::from_fen("r3k2r/p1ppqpb1/bn2pnp1/3PN3/1p2P3/2N2Q1p/PPPBBPPP/R3K2R w KQkq - 0 1").unwrap();
    let mut engine = Engine::new(2);
    let r = engine.search(&mut p, SearchLimits { depth: Some(2), movetime: None, nodes: None, multipv: 2 }, None);
    assert_eq!(r.depth, 2);
    assert!(!r.aborted);
    assert_eq!(r.lines.len(), 2);
    assert!(r.lines[0].score >= r.lines[1].score);
    assert_ne!(r.lines[0].pv[0], r.lines[1].pv[0]);
    let r = engine.search(&mut p, SearchLimits { depth: Some(0), movetime: None, nodes: None, multipv: 1 }, None);
    assert_eq!(r.depth, 0);
    assert_eq!(r.lines.len(), 1);
    assert_eq!((r.lines[0].score, r.lines[0].depth, r.lines[0].pv.len()), (0, 0, 1));
}

#[test]
fn search_respects_multipv_and_leaves_the_position() {
    let mut p = Position::default();
    let before = p.to_fen();
    let mut engine = Engine::new(2);
    engine.set_default_multipv(9);
    let r = engine.search(&mut p, SearchLimits { depth: Some(1), movetime: None, nodes: None, multipv: 0 }, None);
    assert_eq!(r.lines.len(), 5);
    assert!(r.lines.iter().enumerate().all(|(i, l)| l.rank == i + 1));
    assert_eq!(p.to_fen(), before);
    let r = engine.search(&mut p, SearchLimits { depth: None, movetime: None, nodes: Some(50), multipv: 1 }, None);
    assert!(r.best_move().is_some());
    assert!(r.elapsed.as_nanos() > 0);
}

#[test]
fn written_fen_reads_back_as_the_same_position() {
    let mut p = Position::from_fen("r3k2r/8/8/8/8/8/8/R3K2R w Kq - 12 40").unwrap();
    play(&mut p, &["a1a2", "h8h7"]);
    let mut q = Position::default();
    play(&mut q, &["e2e4", "c7c5", "e4e5", "d7d5"]);
    for pos in [p, q] {
        let text = pos.to_fen();
        let back = Position::from_fen(&text).unwrap();
        assert_eq!(back.to_fen(), text);
        assert_eq!(back.key(), pos.key());
    }
}

#[test]
fn attacked_squares_are_those_with_attackers_of_that_colour() {
    let p = Position::from_fen("r3k2r/p1ppqpb1/bn2pnp1/3PN3/1p2P3/2N2Q1p/PPPBBPPP/R3K2R w KQkq - 0 1").unwrap();
    for sq in 0..64u8 {
        for color in [Color::White, Color::Black] {
            assert_eq!(is_square_attacked(&p, sq, color), attackers_to(&p, sq) & p.occupancy(color) != 0);
        }
    }
}

#[test]
fn divide_counts_add_up_to_perft() {
    let mut p = Position::default();
    let parts = chess_engine::perft::divide(&mut p, 3);
    let total: u64 = parts.iter().map(|(_, n)| *n).sum();
    assert_eq!(total, chess_engine::perft::perft(&mut p, 3));
    assert_eq!(parts.len(), 20);
}
