//! Self-play data generation: options, the random generator, repetition and
//! dead-material checks, and a short game.

use mindless::board::Board;
use mindless::datagen::{
    game_over, games_share, insufficient_material, Adjudication, ADJUDICATE_PLIES, DRAW_ADJ_MIN_PLY,
    DRAW_CP, RESIGN_CP, is_threefold, play_game, thread_seed, Config, GameResult,
    Rng, DEFAULT_GAMES, DEFAULT_NODES, DEFAULT_OUT, DEFAULT_RANDOM_PLIES, SCORE_RECORD_CAP,
};
use mindless::nnue::Eval;
use mindless::tt::Tt;
use mindless::types::Color;
use std::sync::atomic::AtomicBool;
use std::sync::Arc;

fn args(list: &[&str]) -> Vec<String> {
    list.iter().map(|s| s.to_string()).collect()
}

#[test]
fn config_defaults() {
    let cfg = Config::parse(&[], 8);
    assert_eq!(cfg.games, DEFAULT_GAMES);
    assert_eq!(cfg.nodes, DEFAULT_NODES);
    assert_eq!(cfg.random_plies, DEFAULT_RANDOM_PLIES);
    assert_eq!(cfg.threads, 7);
    assert_eq!(cfg.out, DEFAULT_OUT);
    assert_eq!(Config::parse(&[], 1).threads, 1);
    assert_eq!(Config::parse(&[], 0).threads, 1);
}

#[test]
fn config_reads_every_option() {
    let a = args(&[
        "--games", "12", "--nodes", "300", "--random-plies", "4", "--threads", "3", "--out", "x.txt",
    ]);
    let cfg = Config::parse(&a, 8);
    assert_eq!(cfg.games, 12);
    assert_eq!(cfg.nodes, 300);
    assert_eq!(cfg.random_plies, 4);
    assert_eq!(cfg.threads, 3);
    assert_eq!(cfg.out, "x.txt");
}

#[test]
fn config_bad_values_keep_the_previous_setting() {
    let cfg = Config::parse(&args(&["--games", "many", "--threads", "0", "--nodes"]), 4);
    assert_eq!(cfg.games, DEFAULT_GAMES);
    assert_eq!(cfg.threads, 1);
    assert_eq!(cfg.nodes, DEFAULT_NODES);
    // The value of an option is never read as an option itself.
    let cfg = Config::parse(&args(&["--out", "--games", "7"]), 4);
    assert_eq!(cfg.out, "--games");
    assert_eq!(cfg.games, DEFAULT_GAMES);
}

#[test]
fn rng_is_splitmix64() {
    let mut rng = Rng::new(0);
    assert_eq!(rng.next_u64(), 0xE220_A839_7B1D_CDAF);
    let mut a = Rng::new(42);
    let mut b = Rng::new(42);
    for _ in 0..10 {
        assert_eq!(a.next_u64(), b.next_u64());
    }
    let mut c = Rng::new(7);
    for _ in 0..100 {
        assert!(c.below(5) < 5);
    }
}

#[test]
fn threefold_needs_two_earlier_occurrences() {
    assert!(!is_threefold(&[], 1));
    assert!(!is_threefold(&[1, 2, 3], 1));
    assert!(is_threefold(&[1, 2, 1, 3], 1));
    assert!(is_threefold(&[5, 5, 5], 5));
}

#[test]
fn dead_material_detection() {
    let kings = Board::from_fen("8/8/8/4k3/8/4K3/8/8 w - - 0 1").unwrap();
    assert!(insufficient_material(&kings));
    let minor = Board::from_fen("8/8/8/4k3/8/4KN2/8/8 w - - 0 1").unwrap();
    assert!(insufficient_material(&minor));
    let two_minors = Board::from_fen("8/8/8/4k3/8/3BKN2/8/8 w - - 0 1").unwrap();
    assert!(!insufficient_material(&two_minors));
    let pawn = Board::from_fen("8/8/8/4k3/8/4K3/4P3/8 w - - 0 1").unwrap();
    assert!(!insufficient_material(&pawn));
    assert!(!insufficient_material(&Board::startpos()));
}

#[test]
fn short_game_records_bounded_scores() {
    let cfg = Config {
        games: 1,
        nodes: 200,
        random_plies: 4,
        threads: 1,
        out: String::new(),
    };
    let mut rng = Rng::new(2024);
    let mut tt = Tt::new(1);
    let stop = Arc::new(AtomicBool::new(false));
    let eval = Eval::hand();
    let mut buffer = vec![("keep".to_string(), 0)];
    let result = play_game(&cfg, &mut rng, &mut tt, &stop, &eval, &mut buffer);
    assert!(matches!(result, GameResult::WhiteWin | GameResult::Draw | GameResult::BlackWin));
    assert_eq!(buffer[0].0, "keep");
    for (fen, score) in &buffer[1..] {
        assert!(Board::from_fen(fen).is_ok());
        assert!(score.abs() < SCORE_RECORD_CAP);
    }
}

#[test]
fn games_are_shared_between_workers() {
    let shares: Vec<u64> = (0..3).map(|t| games_share(10, 3, t)).collect();
    assert_eq!(shares, vec![4, 3, 3]);
    assert_eq!(shares.iter().sum::<u64>(), 10);
    assert_eq!(games_share(7, 1, 0), 7);
    assert_eq!(games_share(2, 4, 3), 0);
    assert_eq!(thread_seed(5, 0), 5);
    assert_eq!(thread_seed(0, 1), 0xD1B5_4A32_D192_ED03);
}

#[test]
fn results_are_labelled_from_whites_side() {
    assert_eq!(GameResult::WhiteWin.label(), "1.0");
    assert_eq!(GameResult::Draw.label(), "0.5");
    assert_eq!(GameResult::BlackWin.label(), "0.0");
}

#[test]
fn game_over_decisions() {
    assert!(matches!(game_over(true, true, Color::White, 0, false, false, 10), Some(GameResult::BlackWin)));
    assert!(matches!(game_over(true, true, Color::Black, 0, false, false, 10), Some(GameResult::WhiteWin)));
    assert!(matches!(game_over(true, false, Color::White, 0, false, false, 10), Some(GameResult::Draw)));
    assert!(matches!(game_over(false, false, Color::White, 100, false, false, 10), Some(GameResult::Draw)));
    assert!(matches!(game_over(false, false, Color::White, 0, true, false, 10), Some(GameResult::Draw)));
    assert!(matches!(game_over(false, true, Color::White, 0, false, true, 10), Some(GameResult::Draw)));
    assert!(matches!(game_over(false, true, Color::White, 99, false, false, 10), None));
}

#[test]
fn adjudication_streaks() {
    let mut a = Adjudication::new();
    let mut verdict = None;
    for ply in 0..ADJUDICATE_PLIES {
        let (next, v) = a.step(RESIGN_CP + 5, ply);
        a = next;
        verdict = v;
    }
    assert!(matches!(verdict, Some(GameResult::WhiteWin)));
    // A quiet score resets the decisive streak.
    let (b, v) = Adjudication::new().step(-RESIGN_CP, 0);
    assert!(v.is_none() && b.decisive_streak == 1 && b.decisive_sign == -1);
    let (c, v) = b.step(0, 1);
    assert!(v.is_none() && c.decisive_streak == 0 && c.draw_streak == 0);
    // Drawish scores only count from the minimum ply on.
    let mut d = Adjudication::new();
    let mut verdict = None;
    for i in 0..ADJUDICATE_PLIES {
        let (next, v) = d.step(DRAW_CP, DRAW_ADJ_MIN_PLY + i);
        d = next;
        verdict = v;
    }
    assert!(matches!(verdict, Some(GameResult::Draw)));
}
