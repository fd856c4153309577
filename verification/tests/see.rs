//! Static exchange evaluation on hand-checked exchanges.

use mindless::board::Board;
use mindless::movegen::legal_moves;
use mindless::moves::Move;
use mindless::see::{see, see_ge};

/// Find the legal move on `fen` whose UCI string is `uci`, then run SEE.
fn see_uci(fen: &str, uci: &str) -> i32 {
    let board = Board::from_fen(fen).expect("valid FEN");
    let mv = legal_moves(&board)
        .as_slice()
        .iter()
        .copied()
        .find(|m: &Move| m.to_uci() == uci)
        .unwrap_or_else(|| panic!("no legal move {uci} in {fen}"));
    see(&board, mv)
}

#[test]
fn wins_a_free_pawn() {
    // Rook captures an undefended pawn: +1 pawn.
    assert_eq!(see_uci("4k3/8/8/4p3/8/8/8/4R1K1 w - - 0 1", "e1e5"), 100);
}

#[test]
fn wins_a_free_rook() {
    // Queen captures an undefended rook (the king is on g8, too far to help).
    assert_eq!(see_uci("3r2k1/8/8/8/8/8/8/3QK3 w - - 0 1", "d1d8"), 500);
}

#[test]
fn rook_takes_pawn_defended_by_pawn() {
    // Rxe5 wins a pawn but loses the rook to ...dxe5: 100 - 500 = -400.
    assert_eq!(see_uci("4k3/8/3p4/4p3/8/8/8/4R1K1 w - - 0 1", "e1e5"), -400);
}

#[test]
fn queen_takes_pawn_defended_by_pawn() {
    // A worse sacrifice: 100 - 900 = -800.
    assert_eq!(see_uci("4k3/8/3p4/4p3/8/8/8/4Q1K1 w - - 0 1", "e1e5"), -800);
}

#[test]
fn equal_pawn_trade() {
    // Pawn takes pawn, recaptured by a pawn: dead even.
    assert_eq!(see_uci("4k3/8/3p4/4p3/3P4/8/8/4K3 w - - 0 1", "d4e5"), 0);
}

#[test]
fn xray_battery_of_doubled_rooks() {
    // Rxe5 dxe5 Rxe5: 100 - 500 + 100 = -300; the rear rook only attacks once
    // the front one has moved (x-ray).
    assert_eq!(see_uci("4k3/8/3p4/4p3/8/8/4R3/4R1K1 w - - 0 1", "e2e5"), -300);
}

#[test]
fn quiet_move_to_safe_square_is_zero() {
    // Moving a rook to an empty, unattacked square exchanges nothing.
    assert_eq!(see_uci("4k3/8/8/8/8/8/8/4R1K1 w - - 0 1", "e1e4"), 0);
}

#[test]
fn quiet_move_into_attack_loses_the_piece() {
    // Rook steps onto a square guarded by a pawn and nothing defends it.
    assert_eq!(see_uci("4k3/8/8/5p2/8/8/8/4R1K1 w - - 0 1", "e1e4"), -500);
}

#[test]
fn pawn_captures_queen() {
    // Pawn takes a queen defended by the king (on c5): 900 - 100 = +800.
    assert_eq!(see_uci("8/8/8/2k5/3q4/4P3/8/4K3 w - - 0 1", "e3d4"), 800);
}

#[test]
fn see_ge_compares_with_the_threshold() {
    let board = Board::from_fen("4k3/8/3p4/4p3/8/8/8/4R1K1 w - - 0 1").expect("valid FEN");
    let mv = legal_moves(&board)
        .as_slice()
        .iter()
        .copied()
        .find(|m: &Move| m.to_uci() == "e1e5")
        .expect("legal move");
    assert!(see_ge(&board, mv, -400));
    assert!(!see_ge(&board, mv, -399));
}

#[test]
fn en_passant_capture_wins_a_pawn() {
    // exd6 e.p. against an undefended pawn.
    assert_eq!(see_uci("4k3/8/8/3pP3/8/8/8/4K3 w - d6 0 2", "e5d6"), 100);
}
