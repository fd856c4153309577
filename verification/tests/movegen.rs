//! Move generation: the king never steps or castles onto an attacked square.

use mindless::board::Board;
use mindless::movegen::legal_moves;

fn moves_of(fen: &str) -> Vec<String> {
    let board = Board::from_fen(fen).unwrap();
    legal_moves(&board).as_slice().iter().map(|m| m.to_uci()).collect()
}

#[test]
fn king_avoids_attacked_squares() {
    // The rook on d8 covers the d-file.
    let moves = moves_of("3r3k/8/8/8/8/8/8/4K3 w - - 0 1");
    assert!(!moves.contains(&"e1d1".to_string()));
    assert!(!moves.contains(&"e1d2".to_string()));
    assert!(moves.contains(&"e1f1".to_string()));
    assert!(moves.contains(&"e1e2".to_string()));
}

#[test]
fn king_does_not_retreat_along_a_checking_ray() {
    // Checked along the first rank by the rook on a1: f1 stays attacked.
    let moves = moves_of("7k/8/8/8/8/8/8/r3K3 w - - 0 1");
    assert!(!moves.contains(&"e1f1".to_string()));
    assert!(!moves.contains(&"e1d1".to_string()));
    assert!(moves.contains(&"e1e2".to_string()));
}

#[test]
fn castling_through_or_into_attack_is_not_generated() {
    // The rook on g8 attacks g1: no kingside castling; queenside is free.
    let moves = moves_of("6rk/8/8/8/8/8/8/R3K2R w KQ - 0 1");
    assert!(!moves.contains(&"e1g1".to_string()));
    assert!(moves.contains(&"e1c1".to_string()));
    // The rook on d8 attacks d1, which the king passes: no queenside castling.
    let moves = moves_of("3r3k/8/8/8/8/8/8/R3K2R w KQ - 0 1");
    assert!(!moves.contains(&"e1c1".to_string()));
    assert!(moves.contains(&"e1g1".to_string()));
}

#[test]
fn free_knight_and_slider_moves_are_all_listed() {
    // Not in check, nothing shields the king: every knight and rook target
    // on an empty or enemy square is generated.
    let moves = moves_of("k7/8/8/8/3p4/8/8/K1N4R w - - 0 1");
    for m in ["c1a2", "c1b3", "c1d3", "c1e2"] {
        assert!(moves.contains(&m.to_string()), "missing {}", m);
    }
    for m in ["h1d1", "h1e1", "h1f1", "h1g1", "h1h2", "h1h7", "h1h8"] {
        assert!(moves.contains(&m.to_string()), "missing {}", m);
    }
    // The rook stops at the knight on c1 and captures nothing of its own.
    assert!(!moves.contains(&"h1c1".to_string()));
    assert!(!moves.contains(&"h1b1".to_string()));
}

#[test]
fn a_pinned_knight_does_not_move() {
    // The rook on e7 pins the knight on e2 to the king on e1.
    let moves = moves_of("4k3/4r3/8/8/8/8/4N3/4K3 w - - 0 1");
    assert!(moves.iter().all(|m| !m.starts_with("e2")));
    assert!(moves.contains(&"e1d1".to_string()));
}

#[test]
fn a_check_restricts_other_pieces_to_blocks_and_captures() {
    // The rook on e8 checks the king on e1; the rook on a4 can only block on e4.
    let moves = moves_of("4r2k/8/8/8/R7/8/8/4K3 w - - 0 1");
    let rook_moves: Vec<&String> = moves.iter().filter(|m| m.starts_with("a4")).collect();
    assert_eq!(rook_moves, vec![&"a4e4".to_string()]);
}

#[test]
fn free_pawn_pushes_and_captures_are_listed() {
    // White pawn on e2 with a black pawn on d3; Black pawn on g7.
    let moves = moves_of("k7/6p1/8/8/8/3p4/4P3/K7 w - - 0 1");
    for m in ["e2e3", "e2e4", "e2d3"] {
        assert!(moves.contains(&m.to_string()), "missing {}", m);
    }
    let moves = moves_of("k7/6p1/8/8/8/3p4/4P3/K7 b - - 0 1");
    for m in ["g7g6", "g7g5", "d3e2", "d3d2"] {
        assert!(moves.contains(&m.to_string()), "missing {}", m);
    }
}

#[test]
fn a_blocked_pawn_has_no_push() {
    let moves = moves_of("k7/8/8/8/8/4p3/4P3/K7 w - - 0 1");
    assert!(!moves.contains(&"e2e3".to_string()));
    assert!(!moves.contains(&"e2e4".to_string()));
}

#[test]
fn free_promotions_come_in_all_four_pieces() {
    let moves = moves_of("k2r4/4P3/8/8/8/8/8/K7 w - - 0 1");
    for m in ["e7e8q", "e7e8r", "e7e8b", "e7e8n", "e7d8q", "e7d8r", "e7d8b", "e7d8n"] {
        assert!(moves.contains(&m.to_string()), "missing {}", m);
    }
}
