//! Board geometry and the attack sets of the leaping pieces (knight, king,
//! pawn), plus the squares between and the line through two aligned squares.
//!
//! Squares are addressed by file (`index % 8`) and rank (`index / 8`); a
//! direction is a pair `(df, dr)` with each component in `-1..=1`.

use vstd::prelude::*;
use crate::bitboard::Bitboard;
use crate::types::{Color, Square};

verus! {

/// The index of the square on file `f` and rank `r`.
pub open spec fn fr(f: int, r: int) -> int {
    r * 8 + f
}

/// True if file `f` and rank `r` lie on the board.
pub open spec fn in_board(f: int, r: int) -> bool {
    0 <= f < 8 && 0 <= r < 8
}

pub open spec fn file_of(i: int) -> int {
    i % 8
}

pub open spec fn rank_of(i: int) -> int {
    i / 8
}

pub open spec fn abs(x: int) -> int {
    if x < 0 {
        -x
    } else {
        x
    }
}

/// File and rank of a square index recombine to the index.
pub proof fn lemma_fr(f: int, r: int)
    requires
        0 <= f < 8,
    ensures
        fr(f, r) % 8 == f,
        fr(f, r) / 8 == r,
{
    vstd::arithmetic::div_mod::lemma_fundamental_div_mod_converse(fr(f, r), 8, r, f);
}

/// Every board index is the recombination of its file and rank.
pub proof fn lemma_split(i: int)
    requires
        0 <= i < 64,
    ensures
        i == fr(file_of(i), rank_of(i)),
        0 <= file_of(i) < 8,
        0 <= rank_of(i) < 8,
{
}

/// The square `k` steps from `s` in direction `(df, dr)`.
pub open spec fn sq_at(s: int, df: int, dr: int, k: int) -> int {
    fr(file_of(s) + k * df, rank_of(s) + k * dr)
}

/// True if the square `k` steps from `s` in direction `(df, dr)` is on the board.
pub open spec fn on_path(s: int, df: int, dr: int, k: int) -> bool {
    in_board(file_of(s) + k * df, rank_of(s) + k * dr)
}

/// A knight's move from `a` to `b`.
pub open spec fn knight_step(a: int, b: int) -> bool {
    &&& 0 <= a < 64
    &&& 0 <= b < 64
    &&& {
        let df = abs(file_of(b) - file_of(a));
        let dr = abs(rank_of(b) - rank_of(a));
        (df == 1 && dr == 2) || (df == 2 && dr == 1)
    }
}

/// A king's move from `a` to `b`.
pub open spec fn king_step(a: int, b: int) -> bool {
    &&& 0 <= a < 64
    &&& 0 <= b < 64
    &&& a != b
    &&& abs(file_of(b) - file_of(a)) <= 1
    &&& abs(rank_of(b) - rank_of(a)) <= 1
}

/// A pawn of color `c` on `a` attacks `b` (one rank forward, one file aside).
pub open spec fn pawn_step(c: Color, a: int, b: int) -> bool {
    &&& 0 <= a < 64
    &&& 0 <= b < 64
    &&& abs(file_of(b) - file_of(a)) == 1
    &&& rank_of(b) - rank_of(a) == (if c == Color::White { 1int } else { -1int })
}

pub open spec fn knight_set(s: int) -> Set<int> {
    Set::new(|t: int| knight_step(s, t))
}

pub open spec fn king_set(s: int) -> Set<int> {
    Set::new(|t: int| king_step(s, t))
}

pub open spec fn pawn_set(c: Color, s: int) -> Set<int> {
    Set::new(|t: int| pawn_step(c, s, t))
}

/// The square `(df, dr)` away from `sq`, as a one-square set, or the empty
/// set when that step leaves the board.
fn target(sq: Square, df: i8, dr: i8) -> (r: Bitboard)
    requires
        sq.0 < 64,
        -2 <= df <= 2,
        -2 <= dr <= 2,
    ensures
        r@ == (if in_board(file_of(sq.0 as int) + df, rank_of(sq.0 as int) + dr) {
            set![fr(file_of(sq.0 as int) + df, rank_of(sq.0 as int) + dr)]
        } else {
            Set::empty()
        }),
        in_board(file_of(sq.0 as int) + df, rank_of(sq.0 as int) + dr) ==> file_of(
            fr(file_of(sq.0 as int) + df, rank_of(sq.0 as int) + dr),
        ) == file_of(sq.0 as int) + df && rank_of(
            fr(file_of(sq.0 as int) + df, rank_of(sq.0 as int) + dr),
        ) == rank_of(sq.0 as int) + dr,
{
    proof {
        let ff = file_of(sq.0 as int) + df;
        let rr = rank_of(sq.0 as int) + dr;
        if in_board(ff, rr) {
            lemma_fr(ff, rr);
        }
    }
    let f = sq.file() as i8 + df;
    let r = sq.rank() as i8 + dr;
    if 0 <= f && f < 8 && 0 <= r && r < 8 {
        Bitboard::from_square(Square((r * 8 + f) as u8))
    } else {
        Bitboard::empty()
    }
}

/// The squares a knight on `sq` attacks.
pub fn knight_attacks(sq: Square) -> (r: Bitboard)
    requires
        sq.0 < 64,
    ensures
        r@ == knight_set(sq.0 as int),
{
    let a = target(sq, 1, 2).or(target(sq, 2, 1)).or(target(sq, 2, -1)).or(target(sq, 1, -2));
    let b = target(sq, -1, -2).or(target(sq, -2, -1)).or(target(sq, -2, 1)).or(target(sq, -1, 2));
    let r = a.or(b);
    proof {
        let s = sq.0 as int;
        let f = file_of(s);
        let k = rank_of(s);
        assert forall|t: int| #[trigger] r@.contains(t) <==> knight_step(s, t) by {
            if knight_step(s, t) {
                lemma_split(t);
            }
        }
        assert(r@ =~= knight_set(s));
    }
    r
}

/// The squares a king on `sq` attacks.
pub fn king_attacks(sq: Square) -> (r: Bitboard)
    requires
        sq.0 < 64,
    ensures
        r@ == king_set(sq.0 as int),
{
    let a = target(sq, 1, 1).or(target(sq, 1, 0)).or(target(sq, 1, -1)).or(target(sq, 0, -1));
    let b = target(sq, -1, -1).or(target(sq, -1, 0)).or(target(sq, -1, 1)).or(target(sq, 0, 1));
    let r = a.or(b);
    proof {
        let s = sq.0 as int;
        let f = file_of(s);
        let k = rank_of(s);
        assert forall|t: int| #[trigger] r@.contains(t) <==> king_step(s, t) by {
            if king_step(s, t) {
                lemma_split(t);
            }
        }
        assert(r@ =~= king_set(s));
    }
    r
}

/// The squares a pawn of color `c` on `sq` attacks.
pub fn pawn_attacks(c: Color, sq: Square) -> (r: Bitboard)
    requires
        sq.0 < 64,
    ensures
        r@ == pawn_set(c, sq.0 as int),
{
    let dr: i8 = match c {
        Color::White => 1,
        Color::Black => -1,
    };
    let r = target(sq, 1, dr).or(target(sq, -1, dr));
    proof {
        let s = sq.0 as int;
        let f = file_of(s);
        let k = rank_of(s);
        assert forall|t: int| #[trigger] r@.contains(t) <==> pawn_step(c, s, t) by {
            if pawn_step(c, s, t) {
                lemma_split(t);
            }
        }
        assert(r@ =~= pawn_set(c, s));
    }
    r
}

/// The squares from step `k` (inclusive) to step `n` (exclusive) along a
/// direction from `s`, stopping at the board edge.
pub open spec fn steps(s: int, df: int, dr: int, k: int, n: int) -> Set<int>
    decreases n - k,
{
    if k >= n || !on_path(s, df, dr, k) {
        Set::empty()
    } else {
        set![sq_at(s, df, dr, k)].union(steps(s, df, dr, k + 1, n))
    }
}

/// True if `a` and `b` are distinct squares on a common rank, file or diagonal.
pub open spec fn aligned(a: int, b: int) -> bool {
    &&& 0 <= a < 64
    &&& 0 <= b < 64
    &&& a != b
    &&& {
        let df = file_of(b) - file_of(a);
        let dr = rank_of(b) - rank_of(a);
        df == 0 || dr == 0 || abs(df) == abs(dr)
    }
}

pub open spec fn sign(x: int) -> int {
    if x > 0 {
        1
    } else if x < 0 {
        -1
    } else {
        0
    }
}

/// The number of king steps from `a` to `b`.
pub open spec fn distance(a: int, b: int) -> int {
    let df = abs(file_of(b) - file_of(a));
    let dr = abs(rank_of(b) - rank_of(a));
    if df > dr {
        df
    } else {
        dr
    }
}

/// The squares strictly between two aligned squares (empty otherwise).
pub open spec fn between_set(a: int, b: int) -> Set<int> {
    if aligned(a, b) {
        steps(
            a,
            sign(file_of(b) - file_of(a)),
            sign(rank_of(b) - rank_of(a)),
            1,
            distance(a, b),
        )
    } else {
        Set::empty()
    }
}

/// The whole line through two aligned squares, edge to edge (empty otherwise).
pub open spec fn line_set(a: int, b: int) -> Set<int> {
    if aligned(a, b) {
        let df = sign(file_of(b) - file_of(a));
        let dr = sign(rank_of(b) - rank_of(a));
        set![a].union(steps(a, df, dr, 1, 8)).union(steps(a, -df, -dr, 1, 8))
    } else {
        Set::empty()
    }
}

/// The steps `k..n` of a direction as a bitboard.
fn steps_bits(sq: Square, df: i8, dr: i8, k: i8, n: i8) -> (r: Bitboard)
    requires
        sq.0 < 64,
        -1 <= df <= 1,
        -1 <= dr <= 1,
        0 <= k <= 9,
        0 <= n <= 8,
    ensures
        r@ == steps(sq.0 as int, df as int, dr as int, k as int, n as int),
    decreases n - k,
{
    if k >= n {
        return Bitboard::empty();
    }
    assert(-9 <= k * df <= 9 && -9 <= k * dr <= 9) by (nonlinear_arith)
        requires
            0 <= k <= 9,
            -1 <= df <= 1,
            -1 <= dr <= 1,
    ;
    let f = sq.file() as i8 + k * df;
    let r = sq.rank() as i8 + k * dr;
    if !(0 <= f && f < 8 && 0 <= r && r < 8) {
        return Bitboard::empty();
    }
    let here = Bitboard::from_square(Square((r * 8 + f) as u8));
    let rest = steps_bits(sq, df, dr, k + 1, n);
    here.or(rest)
}

fn sign_i8(x: i8) -> (r: i8)
    ensures
        r == sign(x as int),
{
    if x > 0 {
        1
    } else if x < 0 {
        -1
    } else {
        0
    }
}

fn abs_i8(x: i8) -> (r: i8)
    requires
        x > -128,
    ensures
        r == abs(x as int),
{
    if x < 0 {
        -x
    } else {
        x
    }
}

/// True if the two squares are distinct and share a rank, file or diagonal.
pub fn is_aligned(a: Square, b: Square) -> (r: bool)
    requires
        a.0 < 64,
        b.0 < 64,
    ensures
        r == aligned(a.0 as int, b.0 as int),
{
    let df = b.file() as i8 - a.file() as i8;
    let dr = b.rank() as i8 - a.rank() as i8;
    a.0 != b.0 && (df == 0 || dr == 0 || abs_i8(df) == abs_i8(dr))
}

/// The squares strictly between `a` and `b` when they are aligned, else empty.
pub fn between(a: Square, b: Square) -> (r: Bitboard)
    requires
        a.0 < 64,
        b.0 < 64,
    ensures
        r@ == between_set(a.0 as int, b.0 as int),
{
    if !is_aligned(a, b) {
        return Bitboard::empty();
    }
    let df = b.file() as i8 - a.file() as i8;
    let dr = b.rank() as i8 - a.rank() as i8;
    let adf = abs_i8(df);
    let adr = abs_i8(dr);
    let dist = if adf > adr {
        adf
    } else {
        adr
    };
    steps_bits(a, sign_i8(df), sign_i8(dr), 1, dist)
}

/// The full line through `a` and `b` when they are aligned, else empty.
pub fn line(a: Square, b: Square) -> (r: Bitboard)
    requires
        a.0 < 64,
        b.0 < 64,
    ensures
        r@ == line_set(a.0 as int, b.0 as int),
{
    if !is_aligned(a, b) {
        return Bitboard::empty();
    }
    let df = sign_i8(b.file() as i8 - a.file() as i8);
    let dr = sign_i8(b.rank() as i8 - a.rank() as i8);
    Bitboard::from_square(a).or(steps_bits(a, df, dr, 1, 8)).or(steps_bits(a, -df, -dr, 1, 8))
}

} // verus!
