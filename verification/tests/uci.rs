//! Reading UCI commands: the words of each command, the limits of `go`, the
//! setup of `position` and the options of `setoption`.

use mindless::board::Board;
use mindless::uci::{parse_command, parse_move, Command, EvalChoice, MAX_HASH_MB};

fn fen_after(line: &str) -> Option<(String, Vec<String>, usize)> {
    match parse_command(line) {
        Command::Position(Some(g)) => Some((
            g.board.to_fen(),
            g.moves.iter().map(|m| m.to_uci()).collect(),
            g.history.len(),
        )),
        Command::Position(None) => None,
        _ => panic!("not a position command"),
    }
}

#[test]
fn simple_commands_are_recognised() {
    assert!(matches!(parse_command("uci"), Command::Uci));
    assert!(matches!(parse_command("  isready  "), Command::IsReady));
    assert!(matches!(parse_command("ucinewgame"), Command::NewGame));
    assert!(matches!(parse_command("stop"), Command::Stop));
    assert!(matches!(parse_command("d"), Command::Display));
    assert!(matches!(parse_command("print"), Command::Display));
    assert!(matches!(parse_command("quit"), Command::Quit));
    assert!(matches!(parse_command("ponderhit"), Command::Ignore));
    assert!(matches!(parse_command(""), Command::Ignore));
    assert!(matches!(parse_command("   "), Command::Ignore));
    assert!(matches!(parse_command("UCI"), Command::Ignore));
}

#[test]
fn perft_commands_take_a_depth() {
    assert!(matches!(parse_command("perft 3"), Command::Perft(3)));
    assert!(matches!(parse_command("perft"), Command::Ignore));
    assert!(matches!(parse_command("perft x"), Command::Ignore));
    assert!(matches!(parse_command("go perft 2"), Command::GoPerft(2)));
    assert!(matches!(parse_command("go depth 4 perft 5"), Command::GoPerft(5)));
    assert!(matches!(parse_command("go perft"), Command::Ignore));
}

#[test]
fn go_reads_every_limit() {
    let Command::Go(l) = parse_command(
        "go wtime 1000 btime 2000 winc 10 binc 20 movestogo 30 depth 7 nodes 5000 movetime 250",
    ) else {
        panic!("expected go");
    };
    assert_eq!(l.wtime, Some(1000));
    assert_eq!(l.btime, Some(2000));
    assert_eq!(l.winc, Some(10));
    assert_eq!(l.binc, Some(20));
    assert_eq!(l.movestogo, Some(30));
    assert_eq!(l.depth, Some(7));
    assert_eq!(l.nodes, Some(5000));
    assert_eq!(l.movetime, Some(250));
    assert!(!l.infinite);
}

#[test]
fn go_limits_edge_cases() {
    let Command::Go(l) = parse_command("go infinite") else {
        panic!("expected go");
    };
    assert!(l.infinite);
    assert_eq!(l.depth, None);

    // A limit whose value does not read as a number is cleared, and the value
    // word is skipped.
    let Command::Go(l) = parse_command("go depth 5 depth x infinite") else {
        panic!("expected go");
    };
    assert_eq!(l.depth, None);
    assert!(l.infinite);

    // `+` is accepted, as Rust's integer parsing accepts it.
    let Command::Go(l) = parse_command("go depth +6") else {
        panic!("expected go");
    };
    assert_eq!(l.depth, Some(6));

    // Out of range for the field.
    let Command::Go(l) = parse_command("go depth 4294967296 nodes 18446744073709551615") else {
        panic!("expected go");
    };
    assert_eq!(l.depth, None);
    assert_eq!(l.nodes, Some(u64::MAX));

    // A limit at the end of the line has no value.
    let Command::Go(l) = parse_command("go movetime") else {
        panic!("expected go");
    };
    assert_eq!(l.movetime, None);
}

#[test]
fn position_startpos_with_moves() {
    let (fen, moves, history) = fen_after("position startpos moves e2e4 e7e5 g1f3").unwrap();
    assert_eq!(fen, "rnbqkbnr/pppp1ppp/8/4p3/4P3/5N2/PPPP1PPP/RNBQKB1R b KQkq - 1 2");
    assert_eq!(moves, vec!["e2e4", "e7e5", "g1f3"]);
    assert_eq!(history, 4);

    let (fen, moves, _) = fen_after("position startpos").unwrap();
    assert_eq!(fen, "rnbqkbnr/pppppppp/8/8/8/8/PPPPPPPP/RNBQKBNR w KQkq - 0 1");
    assert!(moves.is_empty());
}

#[test]
fn position_stops_at_the_first_bad_move() {
    let (_, moves, history) = fen_after("position startpos moves e2e4 e2e4 e7e5").unwrap();
    assert_eq!(moves, vec!["e2e4"]);
    assert_eq!(history, 2);
}

#[test]
fn position_fen_with_and_without_moves() {
    let line = "position fen r3k2r/8/8/8/8/8/8/R3K2R w KQkq - 0 1 moves e1g1 e8c8";
    let (fen, moves, _) = fen_after(line).unwrap();
    assert_eq!(moves, vec!["e1g1", "e8c8"]);
    assert_eq!(fen, "2kr3r/8/8/8/8/8/8/R4RK1 w - - 2 2");

    // Missing clocks take their defaults.
    let (fen, _, _) = fen_after("position fen 8/8/8/4k3/8/4K3/8/8 b - -").unwrap();
    assert_eq!(fen, "8/8/8/4k3/8/4K3/8/8 b - - 0 1");
}

#[test]
fn position_history_holds_each_key() {
    let Command::Position(Some(g)) = parse_command("position startpos moves g1f3 g8f6 f3g1 f6g8")
    else {
        panic!("expected a position");
    };
    assert_eq!(g.history.len(), 5);
    assert_eq!(g.history[0], g.history[4]);
    assert_eq!(g.history[0], Board::startpos().zobrist_key());
    assert_eq!(g.history[4], g.board.zobrist_key());
}

#[test]
fn bad_position_commands_set_nothing() {
    assert!(fen_after("position").is_none());
    assert!(fen_after("position somewhere").is_none());
    assert!(fen_after("position fen not a fen").is_none());
    assert!(fen_after("position fen moves e2e4").is_none());
}

#[test]
fn setoption_hash_is_clamped() {
    assert!(matches!(parse_command("setoption name Hash value 128"), Command::SetHash(128)));
    assert!(matches!(parse_command("setoption name Hash value 0"), Command::SetHash(1)));
    match parse_command("setoption name Hash value 100000") {
        Command::SetHash(mb) => assert_eq!(mb, MAX_HASH_MB),
        _ => panic!("expected a hash size"),
    }
    assert!(matches!(parse_command("setoption name Hash value big"), Command::Ignore));
    assert!(matches!(parse_command("setoption name Hash value 1 2"), Command::Ignore));
    assert!(matches!(parse_command("setoption name Hash"), Command::Ignore));
}

#[test]
fn setoption_other_options() {
    assert!(matches!(parse_command("setoption name Clear Hash"), Command::ClearHash));
    assert!(matches!(parse_command("setoption name Threads value 4"), Command::Ignore));
    assert!(matches!(parse_command("setoption Hash value 4"), Command::Ignore));
    assert!(matches!(parse_command("setoption"), Command::Ignore));
}

#[test]
fn parse_move_matches_promotions_case_insensitively() {
    let board = Board::from_fen("8/4P3/8/8/8/8/8/k6K w - - 0 1").unwrap();
    assert_eq!(parse_move(&board, "e7e8q").map(|m| m.to_uci()), Some("e7e8q".to_string()));
    assert_eq!(parse_move(&board, "e7e8N").map(|m| m.to_uci()), Some("e7e8n".to_string()));
    assert!(parse_move(&board, "e7e8").is_none());
    assert!(parse_move(&board, "e7").is_none());
    assert!(parse_move(&board, "z9e8q").is_none());
    assert!(parse_move(&board, "h1h3").is_none());
}

#[test]
fn setoption_evalfile() {
    assert!(matches!(
        parse_command("setoption name EvalFile value <default>"),
        Command::SetEvalFile(EvalChoice::BuiltIn)
    ));
    assert!(matches!(
        parse_command("setoption name EvalFile value"),
        Command::SetEvalFile(EvalChoice::BuiltIn)
    ));
    assert!(matches!(
        parse_command("setoption name EvalFile"),
        Command::SetEvalFile(EvalChoice::BuiltIn)
    ));
    assert!(matches!(
        parse_command("setoption name EvalFile value <none>"),
        Command::SetEvalFile(EvalChoice::HandCrafted)
    ));
    match parse_command("setoption name EvalFile value nets/my   net.nnue") {
        Command::SetEvalFile(EvalChoice::File(path)) => assert_eq!(path, "nets/my net.nnue"),
        _ => panic!("expected a network path"),
    }
}

#[test]
fn parse_move_finds_plain_piece_and_king_moves() {
    let board = Board::from_fen("k7/8/8/8/3p4/8/8/K1N4R w - - 0 1").unwrap();
    assert_eq!(parse_move(&board, "c1d3").map(|m| m.to_uci()), Some("c1d3".to_string()));
    assert_eq!(parse_move(&board, "h1h8").map(|m| m.to_uci()), Some("h1h8".to_string()));
    assert_eq!(parse_move(&board, "a1b2").map(|m| m.to_uci()), Some("a1b2".to_string()));
    // Not a move of this position.
    assert_eq!(parse_move(&board, "c1c2"), None);
}

#[test]
fn parse_move_finds_castling_and_promotions() {
    let board = Board::from_fen("k7/4P3/8/8/8/8/8/R3K2R w KQ - 0 1").unwrap();
    assert_eq!(parse_move(&board, "e1g1").map(|m| m.to_uci()), Some("e1g1".to_string()));
    assert_eq!(parse_move(&board, "e1c1").map(|m| m.to_uci()), Some("e1c1".to_string()));
    assert_eq!(parse_move(&board, "e7e8N").map(|m| m.to_uci()), Some("e7e8n".to_string()));
    assert_eq!(parse_move(&board, "e7e8"), None);
}
