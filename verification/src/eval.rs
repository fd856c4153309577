//! Static evaluation: the hand-crafted tapered PeSTO evaluation behind the
//! [`Evaluator`] interface, and the piece values shared with exchange
//! evaluation and move ordering.
//!
//! Material plus piece-square bonuses are kept twice, for the middlegame and
//! for the endgame, and blended by a game phase that falls as pieces come off
//! the board. Tables are written from White's point of view with `a8` first;
//! a White piece on square `s` reads entry `s ^ 56`, a Black piece entry `s`.

use vstd::prelude::*;
use crate::board::{Board, lemma_wf};
use crate::position::{Position, mirror_square, mirrored, lemma_swapped_piece};
use crate::types::{Color, Piece, PieceType, Square};

verus! {

/// Piece values in centipawns, indexed by [`PieceType`]: pawn, knight,
/// bishop, rook, queen, king. The king's value dwarfs the rest so exchange
/// evaluation only ever uses it as the last attacker.
pub const PIECE_VALUE: [i32; 6] = [100, 320, 330, 500, 900, 20000];

/// Middlegame material values.
pub const MG_VALUE: [i32; 6] = [82, 337, 365, 477, 1025, 0];
/// Endgame material values.
pub const EG_VALUE: [i32; 6] = [94, 281, 297, 512, 936, 0];
/// Game-phase weight of each piece kind; a full board weighs 24.
pub const PHASE_INC: [i32; 6] = [0, 1, 1, 2, 4, 0];
/// The phase of a full set of pieces.
pub const MAX_PHASE: i32 = 24;

/// Middlegame piece-square tables.
pub const MG_TABLE: [[i16; 64]; 6] = [
    [
        0, 0, 0, 0, 0, 0, 0, 0,
        98, 134, 61, 95, 68, 126, 34, -11,
        -6, 7, 26, 31, 65, 56, 25, -20,
        -14, 13, 6, 21, 23, 12, 17, -23,
        -27, -2, -5, 12, 17, 6, 10, -25,
        -26, -4, -4, -10, 3, 3, 33, -12,
        -35, -1, -20, -23, -15, 24, 38, -22,
        0, 0, 0, 0, 0, 0, 0, 0,
    ],
    [
        -167, -89, -34, -49, 61, -97, -15, -107,
        -73, -41, 72, 36, 23, 62, 7, -17,
        -47, 60, 37, 65, 84, 129, 73, 44,
        -9, 17, 19, 53, 37, 69, 18, 22,
        -13, 4, 16, 13, 28, 19, 21, -8,
        -23, -9, 12, 10, 19, 17, 25, -16,
        -29, -53, -12, -3, -1, 18, -14, -19,
        -105, -21, -58, -33, -17, -28, -19, -23,
    ],
    [
        -29, 4, -82, -37, -25, -42, 7, -8,
        -26, 16, -18, -13, 30, 59, 18, -47,
        -16, 37, 43, 40, 35, 50, 37, -2,
        -4, 5, 19, 50, 37, 37, 7, -2,
        -6, 13, 13, 26, 34, 12, 10, 4,
        0, 15, 15, 15, 14, 27, 18, 10,
        4, 15, 16, 0, 7, 21, 33, 1,
        -33, -3, -14, -21, -13, -12, -39, -21,
    ],
    [
        32, 42, 32, 51, 63, 9, 31, 43,
        27, 32, 58, 62, 80, 67, 26, 44,
        -5, 19, 26, 36, 17, 45, 61, 16,
        -24, -11, 7, 26, 24, 35, -8, -20,
        -36, -26, -12, -1, 9, -7, 6, -23,
        -45, -25, -16, -17, 3, 0, -5, -33,
        -44, -16, -20, -9, -1, 11, -6, -71,
        -19, -13, 1, 17, 16, 7, -37, -26,
    ],
    [
        -28, 0, 29, 12, 59, 44, 43, 45,
        -24, -39, -5, 1, -16, 57, 28, 54,
        -13, -17, 7, 8, 29, 56, 47, 57,
        -27, -27, -16, -16, -1, 17, -2, 1,
        -9, -26, -9, -10, -2, -4, 3, -3,
        -14, 2, -11, -2, -5, 2, 14, 5,
        -35, -8, 11, 2, 8, 15, -3, 1,
        -1, -18, -9, 10, -15, -25, -31, -50,
    ],
    [
        -65, 23, 16, -15, -56, -34, 2, 13,
        29, -1, -20, -7, -8, -4, -38, -29,
        -9, 24, 2, -16, -20, 6, 22, -22,
        -17, -20, -12, -27, -30, -25, -14, -36,
        -49, -1, -27, -39, -46, -44, -33, -51,
        -14, -14, -22, -46, -44, -30, -15, -27,
        1, 7, -8, -64, -43, -16, 9, 8,
        -15, 36, 12, -54, 8, -28, 24, 14,
    ],
];

/// Endgame piece-square tables.
pub const EG_TABLE: [[i16; 64]; 6] = [
    [
        0, 0, 0, 0, 0, 0, 0, 0,
        178, 173, 158, 134, 147, 132, 165, 187,
        94, 100, 85, 67, 56, 53, 82, 84,
        32, 24, 13, 5, -2, 4, 17, 17,
        13, 9, -3, -7, -7, -8, 3, -1,
        4, 7, -6, 1, 0, -5, -1, -8,
        13, 8, 8, 10, 13, 0, 2, -7,
        0, 0, 0, 0, 0, 0, 0, 0,
    ],
    [
        -58, -38, -13, -28, -31, -27, -63, -99,
        -25, -8, -25, -2, -9, -25, -24, -52,
        -24, -20, 10, 9, -1, -9, -19, -41,
        -17, 3, 22, 22, 22, 11, 8, -18,
        -18, -6, 16, 25, 16, 17, 4, -18,
        -23, -3, -1, 15, 10, -3, -20, -22,
        -42, -20, -10, -5, -2, -20, -23, -44,
        -29, -51, -23, -15, -22, -18, -50, -64,
    ],
    [
        -14, -21, -11, -8, -7, -9, -17, -24,
        -8, -4, 7, -12, -3, -13, -4, -14,
        2, -8, 0, -1, -2, 6, 0, 4,
        -3, 9, 12, 9, 14, 10, 3, 2,
        -6, 3, 13, 19, 7, 10, -3, -9,
        -12, -3, 8, 10, 13, 3, -7, -15,
        -14, -18, -7, -1, 4, -9, -15, -27,
        -23, -9, -23, -5, -9, -16, -5, -17,
    ],
    [
        13, 10, 18, 15, 12, 12, 8, 5,
        11, 13, 13, 11, -3, 3, 8, 3,
        7, 7, 7, 5, 4, -3, -5, -3,
        4, 3, 13, 1, 2, 1, -1, 2,
        3, 5, 8, 4, -5, -6, -8, -11,
        -4, 0, -5, -1, -7, -12, -8, -16,
        -6, -6, 0, 2, -9, -9, -11, -3,
        -9, 2, 3, -1, -5, -13, 4, -20,
    ],
    [
        -9, 22, 22, 27, 27, 19, 10, 20,
        -17, 20, 32, 41, 58, 25, 30, 0,
        -20, 6, 9, 49, 47, 35, 19, 9,
        3, 22, 24, 45, 57, 40, 57, 36,
        -18, 28, 19, 47, 31, 34, 39, 23,
        -16, -27, 15, 6, 9, 17, 10, 5,
        -22, -23, -30, -16, -16, -23, -36, -32,
        -33, -28, -22, -43, -5, -32, -20, -41,
    ],
    [
        -74, -35, -18, -18, -11, 15, 4, -17,
        -12, 17, 14, 17, 17, 38, 23, 11,
        10, 17, 23, 15, 20, 45, 44, 13,
        -8, 22, 24, 27, 26, 33, 26, 3,
        -18, -4, 21, 24, 27, 23, 9, -11,
        -19, -3, 11, 21, 23, 16, 7, -9,
        -27, -11, 4, 13, 14, 4, -5, -17,
        -53, -34, -21, -11, -28, -14, -24, -43,
    ],
];

/// Rust's integer division, which rounds toward zero.
pub open spec fn trunc_div(a: int, b: int) -> int {
    if a >= 0 {
        a / b
    } else {
        -((-a) / b)
    }
}

/// The table entry a piece of color `c` on square `i` reads: the rank is
/// mirrored for White.
pub open spec fn table_index(c: Color, i: int) -> int {
    if c == Color::White {
        (7 - i / 8) * 8 + i % 8
    } else {
        i
    }
}

/// What square `i` contributes to color `c`'s middlegame (`mg`) or endgame
/// score: material plus the piece-square bonus, or nothing when the square
/// does not hold a piece of `c`.
pub open spec fn square_score(p: Position, c: Color, mg: bool, i: int) -> int {
    match p.squares[i] {
        Some(pc) => if pc.spec_color() == c {
            let k = pc.spec_piece_type().spec_index() as int;
            let t = table_index(c, i);
            if mg {
                MG_VALUE[k] + MG_TABLE[k][t]
            } else {
                EG_VALUE[k] + EG_TABLE[k][t]
            }
        } else {
            0
        },
        None => 0,
    }
}

/// Color `c`'s score over the first `n` squares.
pub open spec fn side_score(p: Position, c: Color, mg: bool, n: int) -> int
    decreases n,
{
    if n <= 0 {
        0
    } else {
        side_score(p, c, mg, n - 1) + square_score(p, c, mg, n - 1)
    }
}

/// The game-phase weight of the pieces on the first `n` squares.
pub open spec fn phase_score(p: Position, n: int) -> int
    decreases n,
{
    if n <= 0 {
        0
    } else {
        phase_score(p, n - 1) + match p.squares[n - 1] {
            Some(pc) => PHASE_INC[pc.spec_piece_type().spec_index() as int] as int,
            None => 0,
        }
    }
}

/// The tapered PeSTO score of a position from the side to move's point of
/// view: the middlegame and endgame score differences blended by the game
/// phase (capped at a full board).
pub open spec fn pesto(p: Position) -> int {
    let us = p.stm;
    let them = us.spec_flip();
    let mg = side_score(p, us, true, 64) - side_score(p, them, true, 64);
    let eg = side_score(p, us, false, 64) - side_score(p, them, false, 64);
    let ph = if phase_score(p, 64) > 24 {
        24
    } else {
        phase_score(p, 64)
    };
    trunc_div(mg * ph + eg * (24 - ph), 24)
}

proof fn lemma_square_bounds(p: Position, c: Color, mg: bool, i: int)
    ensures
        -32768 <= square_score(p, c, mg, i) <= 33792,
{
}

proof fn lemma_sum_bounds(p: Position, c: Color, mg: bool, n: int)
    requires
        0 <= n <= 64,
    ensures
        -32768 * n <= side_score(p, c, mg, n) <= 33792 * n,
        0 <= phase_score(p, n) <= 4 * n,
    decreases n,
{
    if n > 0 {
        lemma_sum_bounds(p, c, mg, n - 1);
        lemma_square_bounds(p, c, mg, n - 1);
        assert(side_score(p, c, mg, n) == side_score(p, c, mg, n - 1) + square_score(p, c, mg, n - 1));
        assert(-32768 * (n - 1) - 32768 == -32768 * n);
        assert(33792 * (n - 1) + 33792 == 33792 * n);
    }
}

/// Mirror a square index vertically.
proof fn lemma_flip(i: u64)
    by (bit_vector)
    requires
        i < 64,
    ensures
        i ^ 56 == (7 - i / 8) * 8 + i % 8,
        i ^ 56 < 64,
{
}

/// A side's score adds up what each of its pieces contributes: a side with a
/// single piece, on square `m`, scores that square's contribution.
pub proof fn lemma_side_score_single(p: Position, c: Color, mg: bool, m: int, n: int)
    requires
        0 <= m < n <= 64,
        forall|i: int| 0 <= i < n && i != m ==> !(#[trigger] p.squares[i] matches Some(pc) && pc.spec_color() == c),
    ensures
        side_score(p, c, mg, n) == square_score(p, c, mg, m),
    decreases n,
{
    if n - 1 == m {
        lemma_side_score_none(p, c, mg, n - 1);
    } else {
        lemma_side_score_single(p, c, mg, m, n - 1);
    }
}

/// A side with no piece among the first `n` squares scores nothing there.
pub proof fn lemma_side_score_none(p: Position, c: Color, mg: bool, n: int)
    requires
        n <= 64,
        forall|i: int| 0 <= i < n ==> !(#[trigger] p.squares[i] matches Some(pc) && pc.spec_color() == c),
    ensures
        side_score(p, c, mg, n) == 0,
    decreases n,
{
    if n > 0 {
        lemma_side_score_none(p, c, mg, n - 1);
    }
}

/// The taper of the evaluation: with a full board's worth of phase material
/// (or more) the score is the middlegame difference alone, and with no
/// phase material (kings and pawns only) the endgame difference alone.
pub proof fn lemma_pesto_taper(p: Position)
    ensures
        phase_score(p, 64) >= MAX_PHASE ==> pesto(p) == side_score(p, p.stm, true, 64) - side_score(
            p,
            p.stm.spec_flip(),
            true,
            64,
        ),
        phase_score(p, 64) == 0 ==> pesto(p) == side_score(p, p.stm, false, 64) - side_score(
            p,
            p.stm.spec_flip(),
            false,
            64,
        ),
{
    let mg = side_score(p, p.stm, true, 64) - side_score(p, p.stm.spec_flip(), true, 64);
    let eg = side_score(p, p.stm, false, 64) - side_score(p, p.stm.spec_flip(), false, 64);
    assert(trunc_div(mg * 24 + eg * 0, 24) == mg) by (nonlinear_arith);
    assert(trunc_div(mg * 0 + eg * 24, 24) == eg) by (nonlinear_arith);
}

/// The kind index of the piece on square `i`.
pub open spec fn kind_at(p: Position, i: int) -> int {
    p.squares[i].unwrap().spec_piece_type().spec_index() as int
}

/// The orientation of the piece-square tables, the same for every kind of
/// piece: a White piece on square `i` scores its material plus table entry
/// `i ^ 56` (its rank mirrored, the tables being written from White's side
/// with `a8` first), a Black piece table entry `i`; a square scores nothing
/// for the side whose piece is not on it.
pub proof fn lemma_piece_square_orientation(p: Position, mg: bool, i: int)
    requires
        0 <= i < 64,
    ensures
        p.squares[i] is Some && p.squares[i].unwrap().spec_color() == Color::White ==> square_score(
            p,
            Color::White,
            mg,
            i,
        ) == if mg {
            MG_VALUE[kind_at(p, i)] + MG_TABLE[kind_at(p, i)][(i as u64 ^ 56u64) as int]
        } else {
            EG_VALUE[kind_at(p, i)] + EG_TABLE[kind_at(p, i)][(i as u64 ^ 56u64) as int]
        },
        p.squares[i] is Some && p.squares[i].unwrap().spec_color() == Color::Black ==> square_score(
            p,
            Color::Black,
            mg,
            i,
        ) == if mg {
            MG_VALUE[kind_at(p, i)] + MG_TABLE[kind_at(p, i)][i]
        } else {
            EG_VALUE[kind_at(p, i)] + EG_TABLE[kind_at(p, i)][i]
        },
        forall|c: Color| (p.squares[i] is Some ==> p.squares[i].unwrap().spec_color() != c) ==> #[trigger] square_score(
            p,
            c,
            mg,
            i,
        ) == 0,
{
    lemma_flip(i as u64);
}

/// The sum of a sequence of integers.
pub open spec fn total(s: Seq<int>) -> int
    decreases s.len(),
{
    if s.len() == 0 {
        0
    } else {
        total(s.drop_last()) + s.last()
    }
}

proof fn lemma_total_concat(a: Seq<int>, b: Seq<int>)
    ensures
        total(a + b) == total(a) + total(b),
    decreases b.len(),
{
    if b.len() > 0 {
        lemma_total_concat(a, b.drop_last());
        assert((a + b).drop_last() =~= a + b.drop_last());
    }
}

/// Summing a board's squares with the ranks in reverse order gives the same
/// total: the first `k` ranks of `f` sum like the last `k` ranks of `g`.
proof fn lemma_total_ranks_reversed(f: Seq<int>, g: Seq<int>, k: int)
    requires
        f.len() == 64,
        g.len() == 64,
        forall|t: int| 0 <= t < 64 ==> #[trigger] g[t] == f[mirror_square(t)],
        0 <= k <= 8,
    ensures
        total(g.subrange(64 - 8 * k, 64)) == total(f.subrange(0, 8 * k)),
    decreases k,
{
    if k > 0 {
        lemma_total_ranks_reversed(f, g, k - 1);
        let rank = f.subrange(8 * (k - 1), 8 * k);
        let tail = g.subrange(64 - 8 * (k - 1), 64);
        let head = f.subrange(0, 8 * (k - 1));
        assert(g.subrange(64 - 8 * k, 64 - 8 * (k - 1)) =~= rank) by {
            assert forall|i: int| 0 <= i < 8 implies g.subrange(64 - 8 * k, 64 - 8 * (k - 1))[i] == rank[i] by {
                let t = 64 - 8 * k + i;
                assert(mirror_square(t) == 8 * (k - 1) + i);
            }
        }
        assert(g.subrange(64 - 8 * k, 64) =~= rank + tail);
        assert(f.subrange(0, 8 * k) =~= head + rank);
        lemma_total_concat(rank, tail);
        lemma_total_concat(head, rank);
    }
}

/// A sum over all squares is unchanged by turning the board upside down.
proof fn lemma_total_mirrored(f: Seq<int>, g: Seq<int>)
    requires
        f.len() == 64,
        g.len() == 64,
        forall|t: int| 0 <= t < 64 ==> #[trigger] g[t] == f[mirror_square(t)],
    ensures
        total(g) == total(f),
{
    lemma_total_ranks_reversed(f, g, 8);
    assert(g.subrange(0, 64) =~= g);
    assert(f.subrange(0, 64) =~= f);
}

/// The square scores of color `c` over the first `n` squares.
pub open spec fn square_scores(p: Position, c: Color, mg: bool, n: int) -> Seq<int> {
    Seq::new(n as nat, |i: int| square_score(p, c, mg, i))
}

/// The phase weights of the first `n` squares.
pub open spec fn phase_weights(p: Position, n: int) -> Seq<int> {
    Seq::new(
        n as nat,
        |i: int|
            match p.squares[i] {
                Some(pc) => PHASE_INC[pc.spec_piece_type().spec_index() as int] as int,
                None => 0,
            },
    )
}

proof fn lemma_side_total(p: Position, c: Color, mg: bool, n: int)
    requires
        0 <= n,
    ensures
        side_score(p, c, mg, n) == total(square_scores(p, c, mg, n)),
        phase_score(p, n) == total(phase_weights(p, n)),
    decreases n,
{
    if n > 0 {
        lemma_side_total(p, c, mg, n - 1);
        assert(square_scores(p, c, mg, n).drop_last() =~= square_scores(p, c, mg, n - 1));
        assert(phase_weights(p, n).drop_last() =~= phase_weights(p, n - 1));
    }
}

/// The hand-crafted evaluation scores a position and its mirror image (board
/// turned upside down, colors swapped, the other side to move) the same.
pub proof fn lemma_pesto_mirror(p: Position)
    requires
        p.squares.len() == 64,
    ensures
        pesto(mirrored(p)) == pesto(p),
{
    let q = mirrored(p);
    assert forall|c: Color, mg: bool| #![auto] side_score(q, c.spec_flip(), mg, 64) == side_score(p, c, mg, 64) by {
        lemma_side_total(q, c.spec_flip(), mg, 64);
        lemma_side_total(p, c, mg, 64);
        let f = square_scores(p, c, mg, 64);
        let g = square_scores(q, c.spec_flip(), mg, 64);
        assert forall|t: int| 0 <= t < 64 implies #[trigger] g[t] == f[mirror_square(t)] by {
            let m = mirror_square(t);
            assert(mirror_square(m) == t);
            match p.squares[m] {
                Some(pc) => {
                    lemma_swapped_piece(pc);
                },
                None => {},
            }
        }
        lemma_total_mirrored(f, g);
    }
    lemma_side_total(q, Color::White, true, 64);
    lemma_side_total(p, Color::White, true, 64);
    let f = phase_weights(p, 64);
    let g = phase_weights(q, 64);
    assert forall|t: int| 0 <= t < 64 implies #[trigger] g[t] == f[mirror_square(t)] by {
        match p.squares[mirror_square(t)] {
            Some(pc) => {
                lemma_swapped_piece(pc);
            },
            None => {},
        }
    }
    lemma_total_mirrored(f, g);
    assert(p.stm.spec_flip().spec_flip() == p.stm);
}

/// A static evaluator: a score in centipawns for the side to move.
pub trait Evaluator {
    /// The score of position `p` for the side to move.
    spec fn score_of(&self, p: Position) -> int;

    /// Score `board` from the side to move's point of view.
    fn evaluate(&self, board: &Board) -> (r: i32)
        requires
            board.wf(),
        ensures
            r == self.score_of(board@),
    ;
}

/// The hand-crafted tapered PeSTO evaluation.
#[derive(Clone, Copy, Debug)]
pub struct HandCrafted;

impl HandCrafted {
    /// The hand-crafted evaluator.
    pub fn new() -> (r: HandCrafted) {
        HandCrafted
    }

    /// The PeSTO score of `board` for the side to move.
    pub fn score(&self, board: &Board) -> (r: i32)
        requires
            board.wf(),
        ensures
            r == pesto(board@),
    {
        let ghost p = board@;
        proof {
            lemma_wf(*board);
        }
        let mut mg: [i32; 2] = [0, 0];
        let mut eg: [i32; 2] = [0, 0];
        let mut phase: i32 = 0;
        let mut i: usize = 0;
        while i < 64
            invariant
                p == board@,
                p.valid(),
                i <= 64,
                mg[0] == side_score(p, Color::White, true, i as int),
                mg[1] == side_score(p, Color::Black, true, i as int),
                eg[0] == side_score(p, Color::White, false, i as int),
                eg[1] == side_score(p, Color::Black, false, i as int),
                phase == phase_score(p, i as int),
            decreases 64 - i,
        {
            proof {
                lemma_sum_bounds(p, Color::White, true, i as int);
                lemma_sum_bounds(p, Color::Black, true, i as int);
                lemma_sum_bounds(p, Color::White, false, i as int);
                lemma_sum_bounds(p, Color::Black, false, i as int);
                lemma_flip(i as u64);
            }
            match board.piece_on(Square(i as u8)) {
                Some(pc) => {
                    let k = pc.piece_type().index();
                    let c = pc.color().index();
                    let t = if c == 0 {
                        i ^ 56
                    } else {
                        i
                    };
                    assert(t as int == table_index(pc.spec_color(), i as int));
                    mg[c] = mg[c] + MG_VALUE[k] + MG_TABLE[k][t] as i32;
                    eg[c] = eg[c] + EG_VALUE[k] + EG_TABLE[k][t] as i32;
                    phase = phase + PHASE_INC[k];
                },
                None => {},
            }
            i = i + 1;
        }
        proof {
            lemma_sum_bounds(p, Color::White, true, 64);
            lemma_sum_bounds(p, Color::Black, true, 64);
            lemma_sum_bounds(p, Color::White, false, 64);
            lemma_sum_bounds(p, Color::Black, false, 64);
        }
        let us = board.side_to_move().index();
        let them = 1 - us;
        let mg_score = mg[us] - mg[them];
        let eg_score = eg[us] - eg[them];
        let mg_phase = if phase > MAX_PHASE {
            MAX_PHASE
        } else {
            phase
        };
        let eg_phase = MAX_PHASE - mg_phase;
        assert(-2 * 64 * 33792 <= mg_score <= 2 * 64 * 33792);
        assert(-2 * 64 * 33792 <= eg_score <= 2 * 64 * 33792);
        assert(-2 * 64 * 33792 * 24 <= mg_score * mg_phase <= 2 * 64 * 33792 * 24) by (nonlinear_arith)
            requires
                -2 * 64 * 33792 <= mg_score <= 2 * 64 * 33792,
                0 <= mg_phase <= 24,
        ;
        assert(-2 * 64 * 33792 * 24 <= eg_score * eg_phase <= 2 * 64 * 33792 * 24) by (nonlinear_arith)
            requires
                -2 * 64 * 33792 <= eg_score <= 2 * 64 * 33792,
                0 <= eg_phase <= 24,
        ;
        (mg_score * mg_phase + eg_score * eg_phase) / MAX_PHASE
    }
}

impl Evaluator for HandCrafted {
    open spec fn score_of(&self, p: Position) -> int {
        pesto(p)
    }

    fn evaluate(&self, board: &Board) -> (r: i32)
        ensures
            r == pesto(board@),
    {
        self.score(board)
    }
}

} // verus!
