//! Perft (performance test): the move generator's correctness harness.
//!
//! `perft(depth)` counts the number of leaf nodes reachable in exactly `depth`
//! plies. Because it exercises every move-generation rule, matching the
//! published node counts for standard positions is the gold-standard check
//! that generation, make and unmake are all correct.

use vstd::prelude::*;
use crate::board::{Board, lemma_unmake_inverts_make, lemma_key_determined};
use crate::movegen::{
    extends, gen_ok, gen_ready, generate_legal, generated, has_plain_move, legal_moves, lemma_plain_move_listed,
    no_fitting_move,
};
use crate::moves::{Move, MoveList};
use crate::position::{apply_move, lemma_king_survives};
use crate::types::Color;

verus! {

/// What a board needs for `plies` more moves to be played on it: generation
/// works (well-formed, both kings present), its hash is current, and the
/// clocks have room to advance.
pub open spec fn playable(board: Board, plies: int) -> bool {
    &&& gen_ready(board)
    &&& board.valid()
    &&& board@.halfmove + plies <= 65535
    &&& board@.fullmove + plies <= 65535
}

/// Whether `plies` more moves can be played on a board: both kings are on
/// it and the clocks have room.
pub fn is_playable(board: &Board, plies: u16) -> (r: bool)
    requires
        board.valid(),
    ensures
        r == playable(*board, plies as int),
{
    let us = board.side_to_move();
    let ours = board.king_square(us);
    let theirs = board.king_square(us.flip());
    ours.0 < 64 && theirs.0 < 64 && board.halfmove_clock() as u32 + plies as u32 <= 65535
        && board.fullmove_number() as u32 + plies as u32 <= 65535
}

/// Playing a generated move keeps a board playable for one ply fewer.
pub proof fn lemma_play_keeps_playable(before: Board, mv: Move, after: Board, plies: int, quiets: bool)
    requires
        playable(before, plies),
        plies >= 1,
        gen_ok(before@, mv, quiets),
        after.valid(),
        after@ == apply_move(before@, mv),
    ensures
        playable(after, plies - 1),
{
    lemma_king_survives(before@, mv, Color::White);
    lemma_king_survives(before@, mv, Color::Black);
    let c = after@.stm;
    assert(after@.has_king(c) && after@.has_king(c.spec_flip())) by {
        if c == Color::White {
        } else {
        }
    }
}

/// Taking back a move just played restores the board exactly.
proof fn lemma_restored(before: Board, mv: Move, after: Board)
    requires
        before.valid(),
        crate::position::move_ok(before@, mv),
        after.valid(),
        after@ == Board::unapply(apply_move(before@, mv), mv, Board::undo_of(before@, mv)),
    ensures
        after == before,
{
    lemma_unmake_inverts_make(before@, mv);
    lemma_key_determined(after, before);
}

/// The sum of the counts of a divide, saturating at `u64::MAX`.
pub open spec fn count_total(s: Seq<(Move, u64)>) -> u64
    decreases s.len(),
{
    if s.len() == 0 {
        0
    } else {
        let t = count_total(s.drop_last()) + s.last().1;
        if t > u64::MAX {
            u64::MAX
        } else {
            t as u64
        }
    }
}

/// Count the leaf nodes at `depth` plies from `board`, leaving the board as
/// it was. Depth 0 counts the position itself; depth 1 counts the legal moves
/// (bulk counting, valid because generation is fully legal). Counts saturate
/// at `u64::MAX`.
pub fn perft(board: &mut Board, depth: u32) -> (r: u64)
    requires
        playable(*old(board), depth as int),
    ensures
        *final(board) == *old(board),
        depth == 0 ==> r == 1,
        depth == 1 && has_plain_move(old(board)@) ==> r >= 1,
        depth == 1 ==> exists|s: Seq<Move>| generated(old(board)@, s) && r == s.len(),
        depth >= 1 && no_fitting_move(old(board)@) ==> r == 0,
    decreases depth,
{
    if depth == 0 {
        return 1;
    }
    let mut list = MoveList::new();
    generate_legal(board, &mut list);
    if depth == 1 {
        proof {
            if has_plain_move(board@) {
                lemma_plain_move_listed(board@, list@);
            }
        }
        proof {
            assert(generated(board@, list@));
            if no_fitting_move(board@) && list@.len() > 0 {
                assert(gen_ok(board@, list@[0], true));
            }
        }
        return list.len() as u64;
    }
    let ghost b0 = *board;
    let moves = list.as_slice();
    proof {
        if no_fitting_move(b0@) && moves@.len() > 0 {
            assert(gen_ok(b0@, moves@[0], true));
        }
    }
    let mut nodes: u64 = 0;
    let mut i: usize = 0;
    while i < moves.len()
        invariant
            *board == b0,
            playable(b0, depth as int),
            depth >= 2,
            extends(b0@, Seq::empty(), moves@, true),
            no_fitting_move(b0@) ==> moves@.len() == 0 && nodes == 0,
        decreases moves.len() - i,
    {
        let mv = moves[i];
        assert(gen_ok(b0@, moves@[i as int], true));
        let undo = board.make_move(mv);
        proof {
            lemma_play_keeps_playable(b0, mv, *board, depth as int, true);
            lemma_unmake_inverts_make(b0@, mv);
        }
        let n = perft(board, depth - 1);
        board.unmake_move(mv, undo);
        proof {
            lemma_restored(b0, mv, *board);
        }
        nodes = nodes.saturating_add(n);
        i = i + 1;
    }
    nodes
}

/// Perft "divide": the per-root-move node counts plus the total, leaving the
/// board as it was. Useful for pinpointing a generation bug by comparing
/// against a reference engine.
pub fn perft_divide(board: &mut Board, depth: u32) -> (r: (Vec<(Move, u64)>, u64))
    requires
        playable(*old(board), depth as int),
    ensures
        *final(board) == *old(board),
        depth == 0 ==> r.0@.len() == 0 && r.1 == 1,
        depth > 0 ==> r.1 == count_total(r.0@),
        depth == 1 ==> forall|j: int| 0 <= j < r.0@.len() ==> (#[trigger] r.0@[j]).1 == 1,
        depth > 0 ==> generated(old(board)@, r.0@.map_values(|e: (Move, u64)| e.0)),
{
    let mut results: Vec<(Move, u64)> = Vec::new();
    let mut total: u64 = 0;
    if depth == 0 {
        return (results, 1);
    }
    let ghost b0 = *board;
    let list = legal_moves(board);
    let moves = list.as_slice();
    let mut i: usize = 0;
    while i < moves.len()
        invariant
            *board == b0,
            playable(b0, depth as int),
            depth >= 1,
            i <= moves.len(),
            extends(b0@, Seq::empty(), moves@, true),
            results@.len() == i,
            forall|j: int| 0 <= j < i ==> #[trigger] results@[j].0 == moves@[j],
            total == count_total(results@),
            depth == 1 ==> forall|j: int| 0 <= j < i ==> (#[trigger] results@[j]).1 == 1,
        decreases moves.len() - i,
    {
        let mv = moves[i];
        assert(gen_ok(b0@, moves@[i as int], true));
        let undo = board.make_move(mv);
        proof {
            lemma_play_keeps_playable(b0, mv, *board, depth as int, true);
            lemma_unmake_inverts_make(b0@, mv);
        }
        let count = perft(board, depth - 1);
        board.unmake_move(mv, undo);
        proof {
            lemma_restored(b0, mv, *board);
        }
        let ghost before = results@;
        results.push((mv, count));
        total = total.saturating_add(count);
        assert(results@.drop_last() =~= before);
        i = i + 1;
    }
    assert(results@.map_values(|e: (Move, u64)| e.0) =~= moves@);
    (results, total)
}


/// A reference position with known perft counts at successive depths.
pub struct PerftPosition {
    /// Human-readable name.
    pub name: &'static str,
    /// FEN of the position.
    pub fen: &'static str,
    /// `(depth, expected node count)` pairs, ascending by depth.
    pub counts: Vec<(u32, u64)>,
}

impl PerftPosition {
    /// The deepest depth with a known count (1 when there is none).
    pub fn deepest(&self) -> (r: u32)
        ensures
            r == (if self.counts@.len() == 0 { 1 } else { self.counts@.last().0 }),
    {
        let n = self.counts.len();
        if n == 0 {
            1
        } else {
            self.counts[n - 1].0
        }
    }

    /// The known count at `depth`: that of the first pair with that depth.
    pub fn expected(&self, depth: u32) -> (r: Option<u64>)
        ensures
            r matches Some(c) ==> exists|i: int|
                0 <= i < self.counts@.len() && #[trigger] self.counts@[i] == (depth, c) && forall|j: int|
                    0 <= j < i ==> (#[trigger] self.counts@[j]).0 != depth,
            r is None ==> forall|i: int| 0 <= i < self.counts@.len() ==> (#[trigger] self.counts@[i]).0 != depth,
    {
        let mut i: usize = 0;
        while i < self.counts.len()
            invariant
                i <= self.counts@.len(),
                forall|j: int| 0 <= j < i ==> (#[trigger] self.counts@[j]).0 != depth,
            decreases self.counts@.len() - i,
        {
            if self.counts[i].0 == depth {
                return Some(self.counts[i].1);
            }
            i = i + 1;
        }
        None
    }
}

/// The standard perft reference suite: the start position, "Kiwipete", and
/// Chess Programming Wiki positions 3 to 6. These collectively exercise
/// castling, en passant (including discovered-check edge cases), all four
/// promotions, pins and check evasions.
pub fn suite() -> (r: Vec<PerftPosition>)
    ensures
        r@.len() == 6,
        r@[0].name@ == "startpos"@,
        r@[0].fen@ == "rnbqkbnr/pppppppp/8/8/8/8/PPPPPPPP/RNBQKBNR w KQkq - 0 1"@,
        r@[0].counts@ == seq![(1u32, 20u64), (2u32, 400u64), (3u32, 8902u64), (4u32, 197281u64), (5u32, 4865609u64), (6u32, 119060324u64)],
        r@[1].name@ == "kiwipete"@,
        r@[1].fen@ == "r3k2r/p1ppqpb1/bn2pnp1/3PN3/1p2P3/2N2Q1p/PPPBBPPP/R3K2R w KQkq - 0 1"@,
        r@[1].counts@ == seq![(1u32, 48u64), (2u32, 2039u64), (3u32, 97862u64), (4u32, 4085603u64), (5u32, 193690690u64)],
        r@[2].name@ == "position3"@,
        r@[2].fen@ == "8/2p5/3p4/KP5r/1R3p1k/8/4P1P1/8 w - - 0 1"@,
        r@[2].counts@ == seq![(1u32, 14u64), (2u32, 191u64), (3u32, 2812u64), (4u32, 43238u64), (5u32, 674624u64), (6u32, 11030083u64)],
        r@[3].name@ == "position4"@,
        r@[3].fen@ == "r3k2r/Pppp1ppp/1b3nbN/nP6/BBP1P3/q4N2/Pp1P2PP/R2Q1RK1 w kq - 0 1"@,
        r@[3].counts@ == seq![(1u32, 6u64), (2u32, 264u64), (3u32, 9467u64), (4u32, 422333u64), (5u32, 15833292u64)],
        r@[4].name@ == "position5"@,
        r@[4].fen@ == "rnbq1k1r/pp1Pbppp/2p5/8/2B5/8/PPP1NnPP/RNBQK2R w KQ - 1 8"@,
        r@[4].counts@ == seq![(1u32, 44u64), (2u32, 1486u64), (3u32, 62379u64), (4u32, 2103487u64), (5u32, 89941194u64)],
        r@[5].name@ == "position6"@,
        r@[5].fen@ == "r4rk1/1pp1qppp/p1np1n2/2b1p1B1/2B1P1b1/P1NP1N2/1PP1QPPP/R4RK1 w - - 0 10"@,
        r@[5].counts@ == seq![(1u32, 46u64), (2u32, 2079u64), (3u32, 89890u64), (4u32, 3894594u64), (5u32, 164075551u64)],
{
    vec![
        PerftPosition {
            name: "startpos",
            fen: "rnbqkbnr/pppppppp/8/8/8/8/PPPPPPPP/RNBQKBNR w KQkq - 0 1",
            counts: vec![(1, 20), (2, 400), (3, 8902), (4, 197281), (5, 4865609), (6, 119060324)],
        },
        PerftPosition {
            name: "kiwipete",
            fen: "r3k2r/p1ppqpb1/bn2pnp1/3PN3/1p2P3/2N2Q1p/PPPBBPPP/R3K2R w KQkq - 0 1",
            counts: vec![(1, 48), (2, 2039), (3, 97862), (4, 4085603), (5, 193690690)],
        },
        PerftPosition {
            name: "position3",
            fen: "8/2p5/3p4/KP5r/1R3p1k/8/4P1P1/8 w - - 0 1",
            counts: vec![(1, 14), (2, 191), (3, 2812), (4, 43238), (5, 674624), (6, 11030083)],
        },
        PerftPosition {
            name: "position4",
            fen: "r3k2r/Pppp1ppp/1b3nbN/nP6/BBP1P3/q4N2/Pp1P2PP/R2Q1RK1 w kq - 0 1",
            counts: vec![(1, 6), (2, 264), (3, 9467), (4, 422333), (5, 15833292)],
        },
        PerftPosition {
            name: "position5",
            fen: "rnbq1k1r/pp1Pbppp/2p5/8/2B5/8/PPP1NnPP/RNBQK2R w KQ - 1 8",
            counts: vec![(1, 44), (2, 1486), (3, 62379), (4, 2103487), (5, 89941194)],
        },
        PerftPosition {
            name: "position6",
            fen: "r4rk1/1pp1qppp/p1np1n2/2b1p1B1/2B1P1b1/P1NP1N2/1PP1QPPP/R4RK1 w - - 0 10",
            counts: vec![(1, 46), (2, 2079), (3, 89890), (4, 3894594), (5, 164075551)],
        },
    ]
}

} // verus!
