//! The transposition table: sizing, what a probe gives back of a store, the
//! replacement rule and the fill estimate.

use mindless::moves::Move;
use mindless::tt::{Bound, Tt, TtEntry};
use mindless::types::Square;

fn mv(from: u8, to: u8) -> Move {
    Move::new(Square::new(from), Square::new(to), 0)
}

#[test]
fn sizes_are_powers_of_two() {
    let tt = Tt::new(1);
    assert!(tt.len().is_power_of_two());
    assert!(tt.len() > 0);
    assert!(!tt.is_empty());
    assert!(Tt::new(2).len() >= tt.len());
}

#[test]
fn probe_gives_back_what_was_stored() {
    let mut tt = Tt::new(1);
    let key = 0x1234_5678_9ABC_DEF0;
    assert_eq!(tt.probe(key), None);
    tt.store(key, mv(12, 28), 37, 5, Bound::Exact);
    assert_eq!(
        tt.probe(key),
        Some(TtEntry { mv: mv(12, 28), score: 37, depth: 5, bound: Bound::Exact })
    );
    // Another key with the same slot is a miss.
    let other = key ^ (1u64 << 63);
    assert_eq!(tt.probe(other), None);
}

#[test]
fn store_clamps_depth_and_truncates_score() {
    let mut tt = Tt::new(1);
    tt.store(7, mv(1, 2), 40_000, 300, Bound::Lower);
    let e = tt.probe(7).unwrap();
    assert_eq!(e.depth, 255);
    assert_eq!(e.score, 40_000i32 as i16 as i32);
    tt.store(9, mv(1, 2), -5, -3, Bound::Upper);
    let e = tt.probe(9).unwrap();
    assert_eq!(e.depth, 0);
    assert_eq!(e.score, -5);
}

#[test]
fn a_null_move_keeps_the_stored_move() {
    let mut tt = Tt::new(1);
    tt.store(99, mv(8, 16), 10, 3, Bound::Lower);
    tt.store(99, Move::null(), 20, 4, Bound::Upper);
    let e = tt.probe(99).unwrap();
    assert_eq!(e.mv, mv(8, 16));
    assert_eq!(e.score, 20);
    assert_eq!(e.bound, Bound::Upper);
}

#[test]
fn shallower_entry_of_the_same_search_is_kept() {
    let mut tt = Tt::new(1);
    let a = 5u64;
    let b = a + (tt.len() as u64);
    tt.store(a, mv(1, 2), 1, 10, Bound::Lower);
    // Same slot, different key, shallower and not exact: no replacement.
    tt.store(b, mv(3, 4), 2, 2, Bound::Lower);
    assert_eq!(tt.probe(a).map(|e| e.depth), Some(10));
    assert_eq!(tt.probe(b), None);
    // An exact bound counts two plies deeper.
    tt.store(b, mv(3, 4), 2, 7, Bound::Exact);
    assert_eq!(tt.probe(b), None);
    tt.store(b, mv(3, 4), 2, 8, Bound::Exact);
    assert_eq!(tt.probe(b).map(|e| e.depth), Some(8));
    assert_eq!(tt.probe(a), None);
    // In a new search every slot may be replaced.
    tt.new_search();
    tt.store(a, mv(1, 2), 1, 0, Bound::Lower);
    assert_eq!(tt.probe(a).map(|e| e.depth), Some(0));
}

#[test]
fn clear_and_hashfull() {
    let mut tt = Tt::new(1);
    assert_eq!(tt.hashfull(), 0);
    for k in 0..500u64 {
        tt.store(k, mv(1, 2), 0, 1, Bound::Exact);
    }
    assert_eq!(tt.hashfull(), 500);
    tt.new_search();
    assert_eq!(tt.hashfull(), 0);
    assert!(tt.probe(3).is_some());
    tt.clear();
    assert_eq!(tt.probe(3), None);
}

#[test]
fn slot_counts_and_fresh_tables() {
    assert_eq!(Tt::new(1).len(), 65536);
    assert_eq!(Tt::new(0).len(), 65536);
    assert_eq!(Tt::new(3).len(), 131072);
    let tt = Tt::new(2);
    assert_eq!(tt.hashfull(), 0);
    assert_eq!(tt.probe(0xDEAD_BEEF), None);
}

#[test]
fn same_slot_other_key_misses_after_a_store() {
    let mut tt = Tt::new(1);
    let n = tt.len() as u64;
    tt.store(11, mv(1, 2), 5, 3, Bound::Lower);
    assert!(tt.probe(11).is_some());
    assert_eq!(tt.probe(11 + n), None);
    assert_eq!(tt.probe(11 + 2 * n), None);
}
