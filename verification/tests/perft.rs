//! Perft correctness tests against the standard reference suite.
//!
//! The default run verifies every reference depth whose node count is small
//! enough to stay fast.

use mindless::board::Board;
use mindless::perft::{perft, perft_divide, suite};

/// Skip depths heavier than this in the default test run.
const FAST_NODE_LIMIT: u64 = 3_000_000;

#[test]
fn perft_suite_shallow() {
    for pos in suite() {
        let mut board = Board::from_fen(pos.fen).expect("valid suite FEN");
        for &(depth, expected) in &pos.counts {
            if expected > FAST_NODE_LIMIT {
                continue;
            }
            let nodes = perft(&mut board, depth);
            assert_eq!(nodes, expected, "{} at depth {depth}", pos.name);
        }
    }
}

#[test]
fn perft_depth_zero_counts_the_position() {
    let mut board = Board::startpos();
    assert_eq!(perft(&mut board, 0), 1);
    let (moves, total) = perft_divide(&mut board, 0);
    assert!(moves.is_empty());
    assert_eq!(total, 1);
}

#[test]
fn perft_divide_sums_to_perft() {
    let mut board = Board::startpos();
    let before = board.clone();
    let (moves, total) = perft_divide(&mut board, 3);
    assert_eq!(moves.len(), 20);
    assert_eq!(total, 8902);
    assert_eq!(moves.iter().map(|&(_, n)| n).sum::<u64>(), total);
    assert!(board == before);
}

#[test]
fn suite_lookups() {
    let s = suite();
    assert_eq!(s[0].name, "startpos");
    assert_eq!(s[0].deepest(), 6);
    assert_eq!(s[0].expected(3), Some(8902));
    assert_eq!(s[0].expected(9), None);
    assert_eq!(s[1].deepest(), 5);
}

#[test]
fn perft_of_positions_without_moves_counts_nothing() {
    // Checkmate and stalemate with a lone king: no move fits.
    for fen in ["7k/6Q1/6K1/8/8/8/8/8 b - - 0 1", "7k/5Q2/6K1/8/8/8/8/8 b - - 0 1"] {
        let mut b = Board::from_fen(fen).unwrap();
        assert_eq!(perft(&mut b, 1), 0);
        assert_eq!(perft(&mut b, 2), 0);
        let (moves, total) = perft_divide(&mut b, 2);
        assert!(moves.is_empty());
        assert_eq!(total, 0);
    }
}
