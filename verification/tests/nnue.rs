//! NNUE inference: feature indexing, perspective symmetry, and incremental
//! accumulator updates against a from-scratch refresh.

use mindless::board::Board;
use mindless::eval::Evaluator;
use mindless::movegen::legal_moves;
use mindless::nnue::{
    feature_indices, Accumulators, Eval, Network, Nnue, HIDDEN, INPUT, NETWORK_BYTES,
    NETWORK_BYTES_PADDED,
};
use mindless::types::{Color, Piece, Square};

#[test]
fn feature_indices_match_trainer_convention() {
    // A White pawn on a1 (sq 0): white-perspective friendly block 0 -> 0;
    // black-perspective enemy block -> 384 + 0 + (0^56) = 440.
    assert_eq!(feature_indices(Piece::WhitePawn, Square::new(0)), (0, 440));

    // A Black king on h8 (sq 63, type 5): white-perspective enemy ->
    // 384 + 320 + 63 = 767; black-perspective friendly -> 320 + (63^56) = 327.
    assert_eq!(feature_indices(Piece::BlackKing, Square::new(63)), (767, 327));
}

fn random_bytes(seed: u32, shift: u32) -> Vec<u8> {
    let mut bytes = vec![0u8; NETWORK_BYTES];
    let mut state: u32 = seed;
    for b in bytes.iter_mut() {
        state = state.wrapping_mul(1_664_525).wrapping_add(1_013_904_223);
        *b = (state >> shift) as u8;
    }
    bytes
}

#[test]
fn stm_relative_eval_is_perspective_symmetric() {
    // The starting position is symmetric, so with a real (random) net the
    // score must be identical from either side to move.
    let bytes = random_bytes(0x1234_5678, 24);
    let net = Network::from_bytes(&bytes).unwrap();

    let white_stm =
        Board::from_fen("rnbqkbnr/pppppppp/8/8/8/8/PPPPPPPP/RNBQKBNR w - - 0 1").unwrap();
    let black_stm =
        Board::from_fen("rnbqkbnr/pppppppp/8/8/8/8/PPPPPPPP/RNBQKBNR b - - 0 1").unwrap();
    let sw = Accumulators::refresh(&white_stm, &net).evaluate(Color::White, &net);
    let sb = Accumulators::refresh(&black_stm, &net).evaluate(Color::Black, &net);
    assert_eq!(sw, sb, "symmetric position must evaluate equally for either stm");
}

#[test]
fn empty_network_evaluates_to_zero() {
    let net = Network::from_bytes(&vec![0u8; NETWORK_BYTES]).expect("zeroed net");
    let board = Board::startpos();
    let score = Accumulators::refresh(&board, &net).evaluate(board.side_to_move(), &net);
    assert_eq!(score, 0);
}

#[test]
fn network_size_is_as_expected() {
    assert_eq!(NETWORK_BYTES, INPUT * HIDDEN * 2 + HIDDEN * 2 + 2 * HIDDEN * 2 + 2);
    assert_eq!(NETWORK_BYTES_PADDED % 64, 0);
    assert!(NETWORK_BYTES_PADDED >= NETWORK_BYTES && NETWORK_BYTES_PADDED - NETWORK_BYTES < 64);
}

fn occupied(board: &Board) -> Vec<(Piece, Square)> {
    (0..64u8)
        .filter_map(|i| {
            let sq = Square::new(i);
            board.piece_on(sq).map(|p| (p, sq))
        })
        .collect()
}

/// Walking a short game, the incremental add/remove of moved pieces must keep
/// both accumulators bit-identical to a from-scratch refresh.
#[test]
fn incremental_matches_refresh_over_a_game() {
    let bytes = random_bytes(0xC0FF_EE11, 23);
    let net = Network::from_bytes(&bytes).unwrap();

    let mut board = Board::startpos();
    let mut acc = Accumulators::refresh(&board, &net);

    for _ in 0..30 {
        let moves = legal_moves(&board);
        if moves.is_empty() {
            break;
        }
        let mv = moves.as_slice()[0];
        let before = occupied(&board);
        board.make_move(mv);
        let after = occupied(&board);

        for &(p, sq) in &before {
            if !after.contains(&(p, sq)) {
                acc.remove_piece(p, sq, &net);
            }
        }
        for &(p, sq) in &after {
            if !before.contains(&(p, sq)) {
                acc.add_piece(p, sq, &net);
            }
        }

        let fresh = Accumulators::refresh(&board, &net);
        assert_eq!(acc.white.values(), fresh.white.values(), "white accumulator drifted from refresh");
        assert_eq!(acc.black.values(), fresh.black.values(), "black accumulator drifted from refresh");
    }
}

#[test]
fn wrong_length_is_rejected() {
    assert!(Network::from_bytes(&vec![0u8; NETWORK_BYTES - 1]).is_none());
    assert!(Network::from_bytes(&vec![0u8; NETWORK_BYTES_PADDED]).is_some());
    assert!(Nnue::from_bytes(&[]).is_none());
}

#[test]
fn evaluators_agree_with_their_parts() {
    let bytes = random_bytes(7, 24);
    let nnue = Nnue::from_bytes(&bytes).expect("net");
    let board = Board::startpos();
    let direct = Accumulators::refresh(&board, nnue.network()).evaluate(Color::White, nnue.network());
    assert_eq!(Eval::Net(nnue.clone()).evaluate(&board), direct);
    assert_eq!(Eval::default_net(&bytes).name(), "NNUE");
    assert_eq!(Eval::default_net(&bytes[1..]).name(), "hand-crafted (PeSTO)");
    assert_eq!(Eval::Net(nnue).name(), "NNUE");
}

#[test]
fn mirrored_positions_score_the_same() {
    let net = Network::from_bytes(&random_bytes(0x0BAD_CAFE, 24)).unwrap();
    let pairs = [
        (
            "r1bqkbnr/pppp1ppp/2n5/4p3/4P3/5N2/PPPP1PPP/RNBQKB1R w KQkq - 2 3",
            "rnbqkb1r/pppp1ppp/5n2/4p3/4P3/2N5/PPPP1PPP/R1BQKBNR b KQkq - 2 3",
        ),
        (
            "8/2p5/3p4/KP5r/1R3p1k/8/4P1P1/8 w - - 0 1",
            "8/4p1p1/8/1r3P1K/kp5R/3P4/2P5/8 b - - 0 1",
        ),
    ];
    for (fen, mirror) in pairs {
        let a = Board::from_fen(fen).unwrap();
        let b = Board::from_fen(mirror).unwrap();
        let acc_a = Accumulators::refresh(&a, &net);
        let acc_b = Accumulators::refresh(&b, &net);
        assert_eq!(acc_a.white.values(), acc_b.black.values());
        assert_eq!(acc_a.black.values(), acc_b.white.values());
        assert_eq!(
            acc_a.evaluate(a.side_to_move(), &net),
            acc_b.evaluate(b.side_to_move(), &net)
        );
    }
}
