//! The hand-crafted evaluation and the evaluator selection.

use mindless::board::Board;
use mindless::eval::{Evaluator, HandCrafted};
use mindless::nnue::Eval;

#[test]
fn start_position_is_balanced() {
    let board = Board::startpos();
    assert_eq!(HandCrafted::new().score(&board), 0);
    assert_eq!(Eval::default_net(&[]).evaluate(&board), 0);
}

#[test]
fn evaluation_is_from_the_side_to_move() {
    let white = Board::from_fen("4k3/8/8/8/8/8/8/3QK3 w - - 0 1").unwrap();
    let black = Board::from_fen("4k3/8/8/8/8/8/8/3QK3 b - - 0 1").unwrap();
    let e = HandCrafted::new();
    let w = e.score(&white);
    assert!(w > 800, "a queen up should score well over 800, got {w}");
    assert_eq!(e.score(&black), -w);
}

#[test]
fn evaluator_names() {
    assert_eq!(Eval::hand().name(), "hand-crafted (PeSTO)");
    assert_eq!(Eval::default_net(&[]).name(), "hand-crafted (PeSTO)");
    assert_eq!(Eval::default().name(), "hand-crafted (PeSTO)");
}

#[test]
fn mirrored_positions_evaluate_the_same() {
    let e = HandCrafted::new();
    let pairs = [
        (
            "r1bqkbnr/pppp1ppp/2n5/4p3/4P3/5N2/PPPP1PPP/RNBQKB1R w KQkq - 2 3",
            "rnbqkb1r/pppp1ppp/5n2/4p3/4P3/2N5/PPPP1PPP/R1BQKBNR b KQkq - 2 3",
        ),
        (
            "8/2p5/3p4/KP5r/1R3p1k/8/4P1P1/8 w - - 0 1",
            "8/4p1p1/8/1r3P1K/kp5R/3P4/2P5/8 b - - 0 1",
        ),
    ];
    for (fen, mirror) in pairs {
        let a = Board::from_fen(fen).unwrap();
        let b = Board::from_fen(mirror).unwrap();
        assert_eq!(e.score(&a), e.score(&b));
    }
}
