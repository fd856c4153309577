//! Sliding-piece attacks (rook, bishop, queen).
//!
//! A slider attacks every square along each of its directions up to and
//! including the first occupied square, or up to the board edge. The attack
//! sets are computed by walking the rays against the given occupancy.

use vstd::prelude::*;
use crate::attacks::{on_path, sq_at, file_of, rank_of, fr, lemma_fr};
use crate::bitboard::Bitboard;
use crate::types::Square;

verus! {

/// The squares a slider on `s` reaches in direction `(df, dr)`, starting at
/// step `k`: every square up to and including the first one in `occ`, or up
/// to the edge of the board.
pub open spec fn ray(s: int, df: int, dr: int, occ: Set<int>, k: int) -> Set<int>
    decreases 8 - k,
{
    if k >= 8 || !on_path(s, df, dr, k) {
        Set::empty()
    } else if occ.contains(sq_at(s, df, dr, k)) {
        set![sq_at(s, df, dr, k)]
    } else {
        set![sq_at(s, df, dr, k)].union(ray(s, df, dr, occ, k + 1))
    }
}

/// The squares a rook on `s` attacks under occupancy `occ`.
pub open spec fn rook_set(s: int, occ: Set<int>) -> Set<int> {
    ray(s, 0, 1, occ, 1).union(ray(s, 0, -1, occ, 1)).union(ray(s, 1, 0, occ, 1)).union(
        ray(s, -1, 0, occ, 1),
    )
}

/// The squares a bishop on `s` attacks under occupancy `occ`.
pub open spec fn bishop_set(s: int, occ: Set<int>) -> Set<int> {
    ray(s, 1, 1, occ, 1).union(ray(s, 1, -1, occ, 1)).union(ray(s, -1, 1, occ, 1)).union(
        ray(s, -1, -1, occ, 1),
    )
}

/// The squares a queen on `s` attacks under occupancy `occ`.
pub open spec fn queen_set(s: int, occ: Set<int>) -> Set<int> {
    rook_set(s, occ).union(bishop_set(s, occ))
}

/// Whether the target square itself is occupied does not change whether a
/// ray reaches it.
pub proof fn lemma_ray_reaches_target(s: int, df: int, dr: int, occ: Set<int>, t: int, k: int)
    ensures
        ray(s, df, dr, occ.insert(t), k).contains(t) ==> ray(s, df, dr, occ, k).contains(t),
    decreases 8 - k,
{
    if k < 8 && on_path(s, df, dr, k) {
        let q = sq_at(s, df, dr, k);
        if !occ.insert(t).contains(q) {
            lemma_ray_reaches_target(s, df, dr, occ, t, k + 1);
        }
    }
}

/// Whether the target square itself is occupied does not change whether a
/// rook or a bishop on `s` reaches it.
pub proof fn lemma_slider_reaches_target(s: int, occ: Set<int>, t: int)
    ensures
        rook_set(s, occ.insert(t)).contains(t) ==> rook_set(s, occ).contains(t),
        bishop_set(s, occ.insert(t)).contains(t) ==> bishop_set(s, occ).contains(t),
{
    lemma_ray_reaches_target(s, 0, 1, occ, t, 1);
    lemma_ray_reaches_target(s, 0, -1, occ, t, 1);
    lemma_ray_reaches_target(s, 1, 0, occ, t, 1);
    lemma_ray_reaches_target(s, -1, 0, occ, t, 1);
    lemma_ray_reaches_target(s, 1, 1, occ, t, 1);
    lemma_ray_reaches_target(s, 1, -1, occ, t, 1);
    lemma_ray_reaches_target(s, -1, 1, occ, t, 1);
    lemma_ray_reaches_target(s, -1, -1, occ, t, 1);
}

/// Every square of a ray is on it at some step.
proof fn lemma_ray_steps(s: int, df: int, dr: int, occ: Set<int>, v: int, k: int)
    requires
        ray(s, df, dr, occ, k).contains(v),
    ensures
        exists|j: int| k <= j < 8 && on_path(s, df, dr, j) && sq_at(s, df, dr, j) == v,
    decreases 8 - k,
{
    if sq_at(s, df, dr, k) != v {
        lemma_ray_steps(s, df, dr, occ, v, k + 1);
    }
}

/// More occupancy only shortens a ray.
pub proof fn lemma_ray_shrinks(s: int, df: int, dr: int, a: Set<int>, b: Set<int>, t: int, k: int)
    requires
        a.subset_of(b),
    ensures
        ray(s, df, dr, b, k).contains(t) ==> ray(s, df, dr, a, k).contains(t),
    decreases 8 - k,
{
    if k < 8 && on_path(s, df, dr, k) {
        lemma_ray_shrinks(s, df, dr, a, b, t, k + 1);
    }
}

/// A square `u` on the edge file cannot stand before a square `t` of its own
/// rank on a ray that starts on the board: emptying `u` does not let the ray
/// reach `t`.
pub proof fn lemma_ray_edge_square(s: int, df: int, dr: int, occ: Set<int>, u: int, t: int, k: int)
    requires
        0 <= s < 64,
        1 <= k,
        -1 <= df <= 1,
        -1 <= dr <= 1,
        0 <= u < 64,
        0 <= t < 64,
        u != t,
        file_of(u) == 0 || file_of(u) == 7,
        rank_of(u) == rank_of(t),
    ensures
        ray(s, df, dr, occ.remove(u), k).contains(t) ==> ray(s, df, dr, occ, k).contains(t),
    decreases 8 - k,
{
    if k < 8 && on_path(s, df, dr, k) && ray(s, df, dr, occ.remove(u), k).contains(t) {
        let q = sq_at(s, df, dr, k);
        if !occ.remove(u).contains(q) {
            if occ.contains(q) {
                // The ray passes u and would have to go on to t.
                assert(q == u);
                assert(ray(s, df, dr, occ.remove(u), k + 1).contains(t));
                lemma_ray_steps(s, df, dr, occ.remove(u), t, k + 1);
                let j = choose|j: int| k + 1 <= j < 8 && on_path(s, df, dr, j) && sq_at(s, df, dr, j) == t;
                let f0 = file_of(s);
                let r0 = rank_of(s);
                assert(0 <= f0 < 8 && 0 <= r0 < 8);
                lemma_fr(f0 + k * df, r0 + k * dr);
                lemma_fr(f0 + j * df, r0 + j * dr);
                assert(file_of(u) == f0 + k * df && rank_of(u) == r0 + k * dr);
                assert(file_of(t) == f0 + j * df && rank_of(t) == r0 + j * dr);
                if dr == 1 {
                    assert(k * dr == k && j * dr == j) by (nonlinear_arith)
                        requires
                            dr == 1,
                    ;
                } else if dr == -1 {
                    assert(k * dr == -k && j * dr == -j) by (nonlinear_arith)
                        requires
                            dr == -1,
                    ;
                } else {
                    assert(k * dr == 0 && j * dr == 0) by (nonlinear_arith)
                        requires
                            dr == 0,
                    ;
                    if df == 1 {
                        assert(k * df == k && j * df == j) by (nonlinear_arith)
                            requires
                                df == 1,
                        ;
                    } else if df == -1 {
                        assert(k * df == -k && j * df == -j) by (nonlinear_arith)
                            requires
                                df == -1,
                        ;
                    } else {
                        assert(k * df == 0 && j * df == 0) by (nonlinear_arith)
                            requires
                                df == 0,
                        ;
                    }
                }
                assert(false);
            } else {
                lemma_ray_edge_square(s, df, dr, occ, u, t, k + 1);
            }
        }
    }
}

/// Target reachability for rooks and bishops under the castling changes of
/// occupancy: filling the target or another square, or emptying an edge
/// square of the target's rank, never lets a slider reach the target.
pub proof fn lemma_slider_castle_occupancy(s: int, x: Set<int>, u: int, f: int, t: int)
    requires
        0 <= s < 64,
        0 <= u < 64,
        0 <= t < 64,
        u != t,
        file_of(u) == 0 || file_of(u) == 7,
        rank_of(u) == rank_of(t),
    ensures
        rook_set(s, x.remove(u).insert(f).insert(t)).contains(t) ==> rook_set(s, x).contains(t),
        bishop_set(s, x.remove(u).insert(f).insert(t)).contains(t) ==> bishop_set(s, x).contains(t),
{
    let y = x.remove(u).insert(f);
    assert(x.remove(u).subset_of(y));
    lemma_slider_reaches_target(s, y, t);
    lemma_ray_shrinks(s, 0, 1, x.remove(u), y, t, 1);
    lemma_ray_shrinks(s, 0, -1, x.remove(u), y, t, 1);
    lemma_ray_shrinks(s, 1, 0, x.remove(u), y, t, 1);
    lemma_ray_shrinks(s, -1, 0, x.remove(u), y, t, 1);
    lemma_ray_shrinks(s, 1, 1, x.remove(u), y, t, 1);
    lemma_ray_shrinks(s, 1, -1, x.remove(u), y, t, 1);
    lemma_ray_shrinks(s, -1, 1, x.remove(u), y, t, 1);
    lemma_ray_shrinks(s, -1, -1, x.remove(u), y, t, 1);
    lemma_ray_edge_square(s, 0, 1, x, u, t, 1);
    lemma_ray_edge_square(s, 0, -1, x, u, t, 1);
    lemma_ray_edge_square(s, 1, 0, x, u, t, 1);
    lemma_ray_edge_square(s, -1, 0, x, u, t, 1);
    lemma_ray_edge_square(s, 1, 1, x, u, t, 1);
    lemma_ray_edge_square(s, 1, -1, x, u, t, 1);
    lemma_ray_edge_square(s, -1, 1, x, u, t, 1);
    lemma_ray_edge_square(s, -1, -1, x, u, t, 1);
}

/// Walk one ray from `sq` starting at step `k`.
fn walk(sq: Square, df: i8, dr: i8, occ: Bitboard, k: i8) -> (r: Bitboard)
    requires
        sq.0 < 64,
        -1 <= df <= 1,
        -1 <= dr <= 1,
        1 <= k <= 8,
    ensures
        r@ == ray(sq.0 as int, df as int, dr as int, occ@, k as int),
    decreases 8 - k,
{
    if k >= 8 {
        return Bitboard::empty();
    }
    assert(-8 <= k * df <= 8 && -8 <= k * dr <= 8) by (nonlinear_arith)
        requires
            1 <= k <= 8,
            -1 <= df <= 1,
            -1 <= dr <= 1,
    ;
    let f = sq.file() as i8 + k * df;
    let r = sq.rank() as i8 + k * dr;
    if !(0 <= f && f < 8 && 0 <= r && r < 8) {
        return Bitboard::empty();
    }
    let t = Square((r * 8 + f) as u8);
    let here = Bitboard::from_square(t);
    if occ.contains(t) {
        here
    } else {
        here.or(walk(sq, df, dr, occ, k + 1))
    }
}

/// Reference slider attacks from `sq` for occupancy `occ`: the four
/// orthogonal rays when `rook`, otherwise the four diagonal rays.
pub fn ray_attacks(sq: Square, occ: Bitboard, rook: bool) -> (r: Bitboard)
    requires
        sq.0 < 64,
    ensures
        r@ == (if rook {
            rook_set(sq.0 as int, occ@)
        } else {
            bishop_set(sq.0 as int, occ@)
        }),
{
    if rook {
        walk(sq, 0, 1, occ, 1).or(walk(sq, 0, -1, occ, 1)).or(walk(sq, 1, 0, occ, 1)).or(
            walk(sq, -1, 0, occ, 1),
        )
    } else {
        walk(sq, 1, 1, occ, 1).or(walk(sq, 1, -1, occ, 1)).or(walk(sq, -1, 1, occ, 1)).or(
            walk(sq, -1, -1, occ, 1),
        )
    }
}

/// Rook attacks from `sq` given the full board occupancy.
pub fn rook_attacks(sq: Square, occupied: Bitboard) -> (r: Bitboard)
    requires
        sq.0 < 64,
    ensures
        r@ == rook_set(sq.0 as int, occupied@),
{
    ray_attacks(sq, occupied, true)
}

/// Bishop attacks from `sq` given the full board occupancy.
pub fn bishop_attacks(sq: Square, occupied: Bitboard) -> (r: Bitboard)
    requires
        sq.0 < 64,
    ensures
        r@ == bishop_set(sq.0 as int, occupied@),
{
    ray_attacks(sq, occupied, false)
}

/// Queen attacks from `sq` given the full board occupancy.
pub fn queen_attacks(sq: Square, occupied: Bitboard) -> (r: Bitboard)
    requires
        sq.0 < 64,
    ensures
        r@ == queen_set(sq.0 as int, occupied@),
{
    rook_attacks(sq, occupied).or(bishop_attacks(sq, occupied))
}

} // verus!
