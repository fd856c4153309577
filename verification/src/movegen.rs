//! Legal move generation.
//!
//! Rather than generate pseudo-legal moves and filter them, this generator
//! computes the king's checkers, the squares that resolve a check, and the set
//! of pinned pieces up front, then emits only legal moves directly:
//!
//! * **King moves** never land on a square the enemy attacks (the enemy attack
//!   set is computed with our king removed, so the king cannot retreat along a
//!   slider's beam).
//! * **Double check** restricts movement to the king.
//! * **Single check** restricts every other piece to squares that block the
//!   checker or capture it.
//! * **Pinned pieces** are restricted to the line through the king and the
//!   pinning slider.
//! * **En passant** is verified by testing king safety on the exact
//!   post-capture occupancy.
//!
//! Every emitted move fits the position: it moves a piece of the side to move
//! onto an empty square or onto an enemy piece other than the king, and its
//! special pieces (castling rook, en-passant victim, promoting pawn) are where
//! the move expects them.

use vstd::prelude::*;
use crate::attacks::{file_of, rank_of, between, line, king_attacks, knight_attacks, pawn_attacks, king_set, knight_set, pawn_set, pawn_step, between_set};
use crate::bitboard::Bitboard;
use crate::board::{Board, attackers_spec, king_square_spec, lemma_wf};
use crate::magic::{bishop_attacks, rook_attacks, bishop_set, rook_set, lemma_slider_reaches_target, lemma_slider_castle_occupancy};
use crate::moves::{flag, Move, MoveList, lemma_move_bounds};
use crate::bits::bit;
use crate::position::{Position, apply_move, move_fits, ep_victim, lemma_piece_parts};
use crate::types::{CastlingRights, Color, Piece, PieceType, Square};

verus! {

/// A generated move: it fits the position, when only noisy moves are wanted
/// it captures or promotes, and a step of the king does not walk into an
/// attack.
pub open spec fn gen_ok(p: Position, m: Move, quiets: bool) -> bool {
    &&& move_fits(p, m)
    &&& (!quiets ==> (m.spec_is_capture() || m.spec_is_promotion()))
    &&& king_move_ok(p, m)
}

/// `m` moves the king of the side to move (a step or castling).
pub open spec fn king_move(p: Position, m: Move) -> bool {
    p.squares[m.spec_from().0 as int] == Some(Piece::spec_make(p.stm, PieceType::King))
}

/// A king move leaves the king on a square the opponent does not attack.
pub closed spec fn king_move_ok(p: Position, m: Move) -> bool {
    king_move(p, m) ==> lands_safely(p, m)
}

/// A generated king move, step or castling, does not leave the king in
/// check.
pub proof fn lemma_generated_king_move_safe(p: Position, m: Move, quiets: bool)
    requires
        gen_ok(p, m, quiets),
        king_move(p, m),
    ensures
        lands_safely(p, m),
{
}

/// `new` is `old` followed by generated moves.
pub open spec fn extends(p: Position, old: Seq<Move>, new: Seq<Move>, quiets: bool) -> bool {
    &&& new.len() >= old.len()
    &&& new.subrange(0, old.len() as int) == old
    &&& forall|i: int| old.len() <= i < new.len() ==> gen_ok(p, #[trigger] new[i], quiets)
}

proof fn lemma_extends_refl(p: Position, s: Seq<Move>, quiets: bool)
    ensures
        extends(p, s, s, quiets),
{
    assert(s.subrange(0, s.len() as int) =~= s);
}

proof fn lemma_extends_trans(p: Position, a: Seq<Move>, b: Seq<Move>, c: Seq<Move>, quiets: bool)
    requires
        extends(p, a, b, quiets),
        extends(p, b, c, quiets),
    ensures
        extends(p, a, c, quiets),
{
    assert(c.subrange(0, a.len() as int) =~= b.subrange(0, a.len() as int)) by {
        assert forall|i: int| 0 <= i < a.len() implies c[i] == b[i] by {
            assert(c.subrange(0, b.len() as int)[i] == c[i]);
        }
    }
    assert forall|i: int| a.len() <= i < c.len() implies gen_ok(p, #[trigger] c[i], quiets) by {
        if i < b.len() {
            assert(c.subrange(0, b.len() as int)[i] == c[i]);
        }
    }
}

fn push_move(board: &Board, m: Move, quiets: bool, list: &mut MoveList)
    requires
        gen_ok(board@, m, quiets),
    ensures
        final(list)@ == old(list)@.push(m),
        extends(board@, old(list)@, final(list)@, quiets),
{
    list.push(m);
    assert(list@.subrange(0, old(list)@.len() as int) =~= old(list)@);
}

/// A square a move may land on: empty, or holding an enemy piece other than
/// the king.
pub open spec fn landable(p: Position, t: int) -> bool {
    &&& 0 <= t < 64
    &&& (p.squares[t] is None || (p.squares[t].unwrap().spec_color() != p.stm
        && p.squares[t].unwrap().spec_piece_type() != PieceType::King))
}

/// The move of the piece on `f` to `t`: a capture when `t` is occupied.
pub open spec fn piece_move(p: Position, f: int, t: int) -> Move {
    Move::spec_new(
        Square(f as u8),
        Square(t as u8),
        if p.squares[t] is Some { flag::CAPTURE } else { flag::QUIET },
    )
}

/// The step of a pawn of color `c` one square forward.
pub open spec fn pawn_push(c: Color) -> int {
    if c == Color::White { 8 } else { -8 }
}

/// The double step of a pawn from `f` to `t`.
pub open spec fn double_push_move(f: int, t: int) -> Move {
    Move::spec_new(Square(f as u8), Square(t as u8), flag::DOUBLE_PAWN)
}

/// A pawn of color `c` on `f` stands on its starting rank.
pub open spec fn on_start_rank(c: Color, f: int) -> bool {
    if c == Color::White { 8 <= f < 16 } else { 48 <= f < 56 }
}

/// The promotion of the pawn on `f` on reaching `t`, to the `k`-th of
/// knight, bishop, rook and queen: a capture when `t` is occupied.
pub open spec fn promotion_move(p: Position, f: int, t: int, k: int) -> Move {
    Move::spec_new(
        Square(f as u8),
        Square(t as u8),
        ((if p.squares[t] is Some { flag::PROMO_KNIGHT_CAPTURE } else { flag::PROMO_KNIGHT }) + k) as u16,
    )
}

/// A pawn of color `c` reaching `t` promotes there.
pub open spec fn promotion_square(c: Color, t: int) -> bool {
    if c == Color::White { 56 <= t < 64 } else { 0 <= t < 8 }
}

/// Emit moves for a single non-pawn piece. Captures are always emitted; quiet
/// moves only when `quiets` is true.
fn add_piece_moves(
    board: &Board,
    from: Square,
    targets: Bitboard,
    them_bb: Bitboard,
    quiets: bool,
    list: &mut MoveList,
)
    requires
        board.wf(),
        from.0 < 64,
        board@.squares[from.0 as int] is Some,
        board@.squares[from.0 as int].unwrap().spec_color() == board@.stm,
        forall|t: int| #[trigger] targets@.contains(t) ==> landable(board@, t) && t != from.0,
        them_bb@ == board@.color_set(board@.stm.spec_flip()),
        board@.squares[from.0 as int] == Some(Piece::spec_make(board@.stm, PieceType::King)) ==> forall|t: int|
            #[trigger] targets@.contains(t) ==> !attacked_by(
                board@,
                board@.stm.spec_flip(),
                board@.occupied_set().remove(from.0 as int),
            ).contains(t),
    ensures
        extends(board@, old(list)@, final(list)@, quiets),
        forall|t: int| #[trigger] targets@.contains(t) && board@.squares[t] is Some ==> final(list)@.contains(
            Move::spec_new(from, Square(t as u8), flag::CAPTURE),
        ),
        quiets ==> forall|t: int| #[trigger] targets@.contains(t) && board@.squares[t] is None ==> final(list)@.contains(
            Move::spec_new(from, Square(t as u8), flag::QUIET),
        ),
{
    let ghost p = board@;
    let ghost start = list@;
    let ghost safe = p.squares[from.0 as int] == Some(Piece::spec_make(p.stm, PieceType::King)) ==> forall|t: int|
        #[trigger] targets@.contains(t) ==> !attacked_by(p, p.stm.spec_flip(), p.occupied_set().remove(from.0 as int)).contains(t);
    proof {
        lemma_extends_refl(p, start, quiets);
        lemma_wf(*board);
    }
    let mut caps = targets.and(them_bb);
    while caps.any()
        invariant
            p == board@,
            p.valid(),
            from.0 < 64,
            p.squares[from.0 as int] is Some,
            p.squares[from.0 as int].unwrap().spec_color() == p.stm,
            forall|t: int| #[trigger] caps@.contains(t) ==> landable(p, t) && t != from.0 && p.squares[t] is Some
                && targets@.contains(t),
            extends(p, start, list@, quiets),
            safe,
            safe == (p.squares[from.0 as int] == Some(Piece::spec_make(p.stm, PieceType::King)) ==> forall|t: int|
                #[trigger] targets@.contains(t) ==> !attacked_by(p, p.stm.spec_flip(), p.occupied_set().remove(from.0 as int)).contains(t)),
            them_bb@ == p.color_set(p.stm.spec_flip()),
            forall|t: int| #[trigger] targets@.contains(t) && p.squares[t] is Some && !caps@.contains(t) ==> list@.contains(
                Move::spec_new(from, Square(t as u8), flag::CAPTURE),
            ),
            forall|t: int| #[trigger] targets@.contains(t) && p.squares[t] is Some ==> caps@.contains(t)
                || list@.contains(Move::spec_new(from, Square(t as u8), flag::CAPTURE)),
        decreases caps.0,
    {
        let to = caps.pop_lsb();
        let m = Move::new(from, to, flag::CAPTURE);
        proof {
            lemma_move_bounds(m);
            assert(move_fits(p, m));
            if king_move(p, m) {
                assert(targets@.contains(to.0 as int));
                lemma_king_step_safe(p, m);
            }
        }
        let ghost before = list@;
        let ghost caps_before = caps@;
        push_move(board, m, quiets, list);
        proof {
            lemma_extends_trans(p, start, before, list@, quiets);
            assert(list@[before.len() as int] == m);
            assert forall|t: int| #[trigger] targets@.contains(t) && p.squares[t] is Some && !caps@.contains(t) implies list@.contains(
                Move::spec_new(from, Square(t as u8), flag::CAPTURE)) by {
                if t == to.0 as int {
                    assert(Square(t as u8) == to);
                } else {
                    assert(!caps_before.contains(t));
                    let w = choose|w: int| 0 <= w < before.len() && before[w] == Move::spec_new(from, Square(t as u8), flag::CAPTURE);
                    assert(list@[w] == before[w]);
                }
            }
        }
    }
    assert forall|t: int| #[trigger] targets@.contains(t) && p.squares[t] is Some implies list@.contains(
        Move::spec_new(from, Square(t as u8), flag::CAPTURE)) by {
        assert(!caps@.contains(t));
    }
    let ghost after_caps = list@;
    if quiets {
        let mut rest = targets.minus(them_bb);
        while rest.any()
            invariant
                p == board@,
                p.valid(),
                quiets,
                from.0 < 64,
                p.squares[from.0 as int] is Some,
                p.squares[from.0 as int].unwrap().spec_color() == p.stm,
                forall|t: int| #[trigger] rest@.contains(t) ==> 0 <= t < 64 && t != from.0 && p.squares[t] is None
                    && targets@.contains(t),
                extends(p, start, list@, quiets),
                safe,
                forall|t: int| #[trigger] targets@.contains(t) && p.squares[t] is Some ==> list@.contains(
                    Move::spec_new(from, Square(t as u8), flag::CAPTURE),
                ),
                forall|t: int| #[trigger] targets@.contains(t) && p.squares[t] is None && !rest@.contains(t) ==> list@.contains(
                    Move::spec_new(from, Square(t as u8), flag::QUIET),
                ),
                forall|t: int| #[trigger] targets@.contains(t) && p.squares[t] is None ==> rest@.contains(t)
                    || list@.contains(Move::spec_new(from, Square(t as u8), flag::QUIET)),
                safe == (p.squares[from.0 as int] == Some(Piece::spec_make(p.stm, PieceType::King)) ==> forall|t: int|
                    #[trigger] targets@.contains(t) ==> !attacked_by(p, p.stm.spec_flip(), p.occupied_set().remove(from.0 as int)).contains(t)),
            decreases rest.0,
        {
            let to = rest.pop_lsb();
            let m = Move::new(from, to, flag::QUIET);
            proof {
                lemma_move_bounds(m);
                assert(move_fits(p, m));
                if king_move(p, m) {
                    assert(targets@.contains(to.0 as int));
                    lemma_king_step_safe(p, m);
                }
            }
            let ghost before = list@;
            let ghost rest_before = rest@;
            push_move(board, m, quiets, list);
            proof {
                lemma_extends_trans(p, start, before, list@, quiets);
                assert(list@[before.len() as int] == m);
                assert forall|t: int| #[trigger] targets@.contains(t) && p.squares[t] is Some implies list@.contains(
                    Move::spec_new(from, Square(t as u8), flag::CAPTURE)) by {
                    let w = choose|w: int| 0 <= w < before.len() && before[w] == Move::spec_new(from, Square(t as u8), flag::CAPTURE);
                    assert(list@[w] == before[w]);
                }
                assert forall|t: int| #[trigger] targets@.contains(t) && p.squares[t] is None && !rest@.contains(t) implies list@.contains(
                    Move::spec_new(from, Square(t as u8), flag::QUIET)) by {
                    if t == to.0 as int {
                        assert(Square(t as u8) == to);
                    } else {
                        assert(!rest_before.contains(t));
                        let w = choose|w: int| 0 <= w < before.len() && before[w] == Move::spec_new(from, Square(t as u8), flag::QUIET);
                        assert(list@[w] == before[w]);
                    }
                }
            }
        }
        assert forall|t: int| #[trigger] targets@.contains(t) && p.squares[t] is None implies list@.contains(
            Move::spec_new(from, Square(t as u8), flag::QUIET)) by {
            assert(!rest@.contains(t));
        }
    }
}


/// The origin of a pawn move that shifted by `delta` onto `to`.
fn origin(to: Square, delta: i8) -> (r: Square)
    requires
        0 <= to.0 - delta < 64,
    ensures
        r.0 == to.0 - delta,
{
    Square((to.0 as i16 - delta as i16) as u8)
}

/// Emit the four promotion moves (knight, bishop, rook, queen) for one pawn.
fn emit_promotions(board: &Board, from: Square, to: Square, capture: bool, quiets: bool, list: &mut MoveList)
    requires
        board.wf(),
        from.0 < 64,
        to.0 < 64,
        from.0 != to.0,
        board@.squares[from.0 as int] == Some(Piece::spec_make(board@.stm, PieceType::Pawn)),
        capture ==> landable(board@, to.0 as int) && board@.squares[to.0 as int] is Some,
        !capture ==> board@.squares[to.0 as int] is None,
    ensures
        extends(board@, old(list)@, final(list)@, quiets),
        forall|k: int| 0 <= k < 4 ==> final(list)@.contains(
            #[trigger] promotion_move(board@, from.0 as int, to.0 as int, k),
        ),
{
    let ghost p = board@;
    let ghost start = list@;
    proof {
        lemma_piece_parts();
        lemma_extends_refl(p, start, quiets);
        lemma_wf(*board);
    }
    let base = if capture {
        flag::PROMO_KNIGHT_CAPTURE
    } else {
        flag::PROMO_KNIGHT
    };
    let mut k: u16 = 0;
    while k < 4
        invariant
            k <= 4,
            p == board@,
            p.valid(),
            base == (if capture { flag::PROMO_KNIGHT_CAPTURE } else { flag::PROMO_KNIGHT }),
            from.0 < 64,
            to.0 < 64,
            from.0 != to.0,
            p.squares[from.0 as int] == Some(Piece::spec_make(p.stm, PieceType::Pawn)),
            capture ==> landable(p, to.0 as int) && p.squares[to.0 as int] is Some,
            !capture ==> p.squares[to.0 as int] is None,
            extends(p, start, list@, quiets),
            forall|j: int| 0 <= j < k ==> list@.contains(
                #[trigger] promotion_move(p, from.0 as int, to.0 as int, j),
            ),
        decreases 4 - k,
    {
        let m = Move::new(from, to, base + k);
        proof {
            lemma_move_bounds(m);
            lemma_piece_parts();
        }
        let ghost before = list@;
        push_move(board, m, quiets, list);
        proof {
            lemma_extends_trans(p, start, before, list@, quiets);
            assert(m == promotion_move(p, from.0 as int, to.0 as int, k as int));
            assert forall|j: int| 0 <= j < k + 1 implies list@.contains(
                #[trigger] promotion_move(p, from.0 as int, to.0 as int, j)) by {
                if j < k {
                    lemma_extends_keeps(p, before, list@, quiets, promotion_move(p, from.0 as int, to.0 as int, j));
                } else {
                    assert(list@[list@.len() - 1] == m);
                }
            }
        }
        k = k + 1;
    }
}

/// Emit single pushes. Promotions are always emitted; plain quiet pushes only
/// when `quiets` is true.
fn emit_pushes(board: &Board, targets: Bitboard, promo_rank: Bitboard, delta: i8, quiets: bool, list: &mut MoveList)
    requires
        board.wf(),
        delta == 8 || delta == -8,
        forall|t: int| #[trigger] targets@.contains(t) ==> 0 <= t - delta < 64 && 0 <= t < 64
            && board@.squares[t - delta] == Some(Piece::spec_make(board@.stm, PieceType::Pawn))
            && board@.squares[t] is None,
    ensures
        extends(board@, old(list)@, final(list)@, quiets),
        quiets ==> forall|t: int| #[trigger] targets@.contains(t) && !promo_rank@.contains(t) ==> final(list)@.contains(
            piece_move(board@, t - delta, t),
        ),
        forall|t: int, k: int| #[trigger] targets@.contains(t) && promo_rank@.contains(t) && 0 <= k < 4
            ==> final(list)@.contains(#[trigger] promotion_move(board@, t - delta, t, k)),
{
    let ghost p = board@;
    let ghost start = list@;
    proof {
        lemma_extends_refl(p, start, quiets);
        lemma_piece_parts();
        lemma_wf(*board);
    }
    if quiets {
        let mut rest = targets.minus(promo_rank);
        while rest.any()
            invariant
                p == board@,
                p.valid(),
                quiets,
                delta == 8 || delta == -8,
                forall|t: int| #[trigger] rest@.contains(t) ==> 0 <= t - delta < 64 && 0 <= t < 64
                    && p.squares[t - delta] == Some(Piece::spec_make(p.stm, PieceType::Pawn))
                    && p.squares[t] is None,
                forall|t: int| #[trigger] rest@.contains(t) ==> targets@.contains(t) && !promo_rank@.contains(t),
                forall|t: int| #[trigger] targets@.contains(t) ==> 0 <= t - delta < 64 && 0 <= t < 64
                    && p.squares[t] is None,
                extends(p, start, list@, quiets),
                forall|t: int| #[trigger] targets@.contains(t) && !promo_rank@.contains(t) && !rest@.contains(t)
                    ==> list@.contains(piece_move(p, t - delta, t)),
            decreases rest.0,
        {
            let ghost rest0 = rest@;
            let to = rest.pop_lsb();
            let from = origin(to, delta);
            let m = Move::new(from, to, flag::QUIET);
            proof {
                lemma_move_bounds(m);
                lemma_piece_parts();
            }
            let ghost before = list@;
            push_move(board, m, quiets, list);
            proof {
                lemma_extends_trans(p, start, before, list@, quiets);
                assert(m == piece_move(p, to.0 - delta, to.0 as int));
                assert forall|t: int| #[trigger] targets@.contains(t) && !promo_rank@.contains(t) && !rest@.contains(t)
                    implies list@.contains(piece_move(p, t - delta, t)) by {
                    if t != to.0 {
                        assert(!rest0.contains(t));
                        lemma_extends_keeps(p, before, list@, quiets, piece_move(p, t - delta, t));
                    } else {
                        assert(list@[list@.len() - 1] == m);
                    }
                }
            }
        }
    }
    let ghost l1 = list@;
    proof {
        lemma_extends_refl(p, l1, quiets);
    }
    let mut promos = targets.and(promo_rank);
    while promos.any()
        invariant
            p == board@,
            p.valid(),
            board.wf(),
            delta == 8 || delta == -8,
            forall|t: int| #[trigger] promos@.contains(t) ==> 0 <= t - delta < 64 && 0 <= t < 64
                && p.squares[t - delta] == Some(Piece::spec_make(p.stm, PieceType::Pawn))
                && p.squares[t] is None,
            extends(p, start, list@, quiets),
            extends(p, l1, list@, quiets),
            forall|t: int| #[trigger] promos@.contains(t) ==> targets@.contains(t) && promo_rank@.contains(t),
            forall|t: int, k: int| #[trigger] targets@.contains(t) && promo_rank@.contains(t) && !promos@.contains(t)
                && 0 <= k < 4 ==> list@.contains(#[trigger] promotion_move(p, t - delta, t, k)),
        decreases promos.0,
    {
        let ghost promos0 = promos@;
        let to = promos.pop_lsb();
        let from = origin(to, delta);
        let ghost before = list@;
        emit_promotions(board, from, to, false, quiets, list);
        proof {
            lemma_extends_trans(p, start, before, list@, quiets);
            lemma_extends_trans(p, l1, before, list@, quiets);
            assert forall|t: int, k: int| #[trigger] targets@.contains(t) && promo_rank@.contains(t) && !promos@.contains(t)
                && 0 <= k < 4 implies list@.contains(#[trigger] promotion_move(p, t - delta, t, k)) by {
                if t != to.0 {
                    assert(!promos0.contains(t));
                    lemma_extends_keeps(p, before, list@, quiets, promotion_move(p, t - delta, t, k));
                } else {
                    assert(list@.contains(promotion_move(p, from.0 as int, to.0 as int, k)));
                }
            }
        }
    }
    proof {
        if quiets {
            assert forall|t: int| #[trigger] targets@.contains(t) && !promo_rank@.contains(t) implies list@.contains(
                piece_move(p, t - delta, t)) by {
                lemma_extends_keeps(p, l1, list@, quiets, piece_move(p, t - delta, t));
            }
        }
    }
}

/// Emit diagonal pawn captures; targets on the promotion rank fan out to four
/// promotion captures.
fn emit_captures(board: &Board, targets: Bitboard, promo_rank: Bitboard, delta: i8, quiets: bool, list: &mut MoveList)
    requires
        board.wf(),
        delta == 7 || delta == 9 || delta == -7 || delta == -9,
        forall|t: int| #[trigger] targets@.contains(t) ==> 0 <= t - delta < 64 && landable(board@, t)
            && board@.squares[t - delta] == Some(Piece::spec_make(board@.stm, PieceType::Pawn))
            && board@.squares[t] is Some,
    ensures
        extends(board@, old(list)@, final(list)@, quiets),
        forall|t: int| #[trigger] targets@.contains(t) && !promo_rank@.contains(t) ==> final(list)@.contains(
            piece_move(board@, t - delta, t),
        ),
        forall|t: int, k: int| #[trigger] targets@.contains(t) && promo_rank@.contains(t) && 0 <= k < 4
            ==> final(list)@.contains(#[trigger] promotion_move(board@, t - delta, t, k)),
{
    let ghost p = board@;
    let ghost start = list@;
    proof {
        lemma_extends_refl(p, start, quiets);
        lemma_piece_parts();
        lemma_wf(*board);
    }
    let mut rest = targets.minus(promo_rank);
    while rest.any()
        invariant
            p == board@,
            p.valid(),
            board.wf(),
            delta == 7 || delta == 9 || delta == -7 || delta == -9,
            forall|t: int| #[trigger] rest@.contains(t) ==> 0 <= t - delta < 64 && landable(p, t)
                && p.squares[t - delta] == Some(Piece::spec_make(p.stm, PieceType::Pawn))
                && p.squares[t] is Some,
            forall|t: int| #[trigger] rest@.contains(t) ==> targets@.contains(t) && !promo_rank@.contains(t),
            forall|t: int| #[trigger] targets@.contains(t) ==> 0 <= t - delta < 64 && 0 <= t < 64
                && p.squares[t] is Some,
            extends(p, start, list@, quiets),
            forall|t: int| #[trigger] targets@.contains(t) && !promo_rank@.contains(t) && !rest@.contains(t)
                ==> list@.contains(piece_move(p, t - delta, t)),
        decreases rest.0,
    {
        let ghost rest0 = rest@;
        let to = rest.pop_lsb();
        let from = origin(to, delta);
        let m = Move::new(from, to, flag::CAPTURE);
        proof {
            lemma_move_bounds(m);
            lemma_piece_parts();
        }
        let ghost before = list@;
        push_move(board, m, quiets, list);
        proof {
            lemma_extends_trans(p, start, before, list@, quiets);
            assert(m == piece_move(p, to.0 - delta, to.0 as int));
            assert forall|t: int| #[trigger] targets@.contains(t) && !promo_rank@.contains(t) && !rest@.contains(t)
                implies list@.contains(piece_move(p, t - delta, t)) by {
                if t != to.0 {
                    assert(!rest0.contains(t));
                    lemma_extends_keeps(p, before, list@, quiets, piece_move(p, t - delta, t));
                } else {
                    assert(list@[list@.len() - 1] == m);
                }
            }
        }
    }
    let ghost l1 = list@;
    proof {
        lemma_extends_refl(p, l1, quiets);
    }
    let mut promos = targets.and(promo_rank);
    while promos.any()
        invariant
            p == board@,
            p.valid(),
            board.wf(),
            delta == 7 || delta == 9 || delta == -7 || delta == -9,
            forall|t: int| #[trigger] promos@.contains(t) ==> 0 <= t - delta < 64 && landable(p, t)
                && p.squares[t - delta] == Some(Piece::spec_make(p.stm, PieceType::Pawn))
                && p.squares[t] is Some,
            extends(p, start, list@, quiets),
            extends(p, l1, list@, quiets),
            forall|t: int| #[trigger] promos@.contains(t) ==> targets@.contains(t) && promo_rank@.contains(t),
            forall|t: int, k: int| #[trigger] targets@.contains(t) && promo_rank@.contains(t) && !promos@.contains(t)
                && 0 <= k < 4 ==> list@.contains(#[trigger] promotion_move(p, t - delta, t, k)),
        decreases promos.0,
    {
        let ghost promos0 = promos@;
        let to = promos.pop_lsb();
        let from = origin(to, delta);
        let ghost before = list@;
        emit_promotions(board, from, to, true, quiets, list);
        proof {
            lemma_extends_trans(p, start, before, list@, quiets);
            lemma_extends_trans(p, l1, before, list@, quiets);
            assert forall|t: int, k: int| #[trigger] targets@.contains(t) && promo_rank@.contains(t) && !promos@.contains(t)
                && 0 <= k < 4 implies list@.contains(#[trigger] promotion_move(p, t - delta, t, k)) by {
                if t != to.0 {
                    assert(!promos0.contains(t));
                    lemma_extends_keeps(p, before, list@, quiets, promotion_move(p, t - delta, t, k));
                } else {
                    assert(list@.contains(promotion_move(p, from.0 as int, to.0 as int, k)));
                }
            }
        }
    }
    proof {
        assert forall|t: int| #[trigger] targets@.contains(t) && !promo_rank@.contains(t) implies list@.contains(
            piece_move(p, t - delta, t)) by {
            lemma_extends_keeps(p, l1, list@, quiets, piece_move(p, t - delta, t));
        }
    }
}

/// Emit double pawn pushes.
fn emit_doubles(board: &Board, targets: Bitboard, delta: i8, quiets: bool, list: &mut MoveList)
    requires
        board.wf(),
        quiets,
        delta == 16 || delta == -16,
        forall|t: int| #[trigger] targets@.contains(t) ==> 0 <= t - delta < 64 && 0 <= t < 64
            && board@.squares[t - delta] == Some(Piece::spec_make(board@.stm, PieceType::Pawn))
            && board@.squares[t] is None,
    ensures
        extends(board@, old(list)@, final(list)@, quiets),
        forall|t: int| #[trigger] targets@.contains(t) ==> final(list)@.contains(double_push_move(t - delta, t)),
{
    let ghost p = board@;
    let ghost start = list@;
    proof {
        lemma_extends_refl(p, start, quiets);
        lemma_piece_parts();
        lemma_wf(*board);
    }
    let mut rest = targets;
    while rest.any()
        invariant
            p == board@,
            p.valid(),
            quiets,
            delta == 16 || delta == -16,
            forall|t: int| #[trigger] rest@.contains(t) ==> 0 <= t - delta < 64 && 0 <= t < 64
                && p.squares[t - delta] == Some(Piece::spec_make(p.stm, PieceType::Pawn))
                && p.squares[t] is None,
            extends(p, start, list@, quiets),
            forall|t: int| #[trigger] rest@.contains(t) ==> targets@.contains(t),
            forall|t: int| #[trigger] targets@.contains(t) && !rest@.contains(t) ==> list@.contains(
                double_push_move(t - delta, t),
            ),
        decreases rest.0,
    {
        let ghost rest0 = rest@;
        let to = rest.pop_lsb();
        let from = origin(to, delta);
        let m = Move::new(from, to, flag::DOUBLE_PAWN);
        proof {
            lemma_move_bounds(m);
            lemma_piece_parts();
        }
        let ghost before = list@;
        push_move(board, m, quiets, list);
        proof {
            lemma_extends_trans(p, start, before, list@, quiets);
            assert(m == double_push_move(to.0 - delta, to.0 as int));
            assert forall|t: int| #[trigger] targets@.contains(t) && !rest@.contains(t) implies list@.contains(
                double_push_move(t - delta, t)) by {
                if t != to.0 {
                    assert(!rest0.contains(t));
                    lemma_extends_keeps(p, before, list@, quiets, double_push_move(t - delta, t));
                } else {
                    assert(list@[list@.len() - 1] == m);
                }
            }
        }
    }
}


/// Generate pushes and diagonal captures (with promotions) for a set of pawns,
/// restricting destinations to `ray` (used for pin masking) and `check_mask`.
/// Captures and promotions are always emitted; quiet pushes only when `quiets`.
#[verifier::rlimit(40)]
fn add_pawn_moves(
    board: &Board,
    pawns: Bitboard,
    ray: Bitboard,
    us: Color,
    empty: Bitboard,
    capt: Bitboard,
    check_mask: Bitboard,
    quiets: bool,
    list: &mut MoveList,
)
    requires
        board.wf(),
        us == board@.stm,
        forall|t: int| #[trigger] pawns@.contains(t) ==> board@.squares[t] == Some(
            Piece::spec_make(us, PieceType::Pawn),
        ),
        forall|t: int| #[trigger] empty@.contains(t) ==> 0 <= t < 64 && board@.squares[t] is None,
        forall|t: int| #[trigger] capt@.contains(t) ==> landable(board@, t) && board@.squares[t] is Some,
    ensures
        extends(board@, old(list)@, final(list)@, quiets),
        quiets ==> forall|f: int, t: int|
            pawns@.contains(f) && t == f + pawn_push(us) && empty@.contains(t) && check_mask@.contains(t)
                && ray@.contains(t) && !promotion_square(us, t)
                ==> final(list)@.contains(#[trigger] piece_move(board@, f, t)),
        quiets ==> forall|f: int, t: int|
            pawns@.contains(f) && on_start_rank(us, f) && t == f + 2 * pawn_push(us)
                && empty@.contains(f + pawn_push(us)) && empty@.contains(t) && check_mask@.contains(t)
                && ray@.contains(t)
                ==> final(list)@.contains(#[trigger] double_push_move(f, t)),
        forall|f: int, t: int|
            pawns@.contains(f) && pawn_step(us, f, t) && capt@.contains(t) && check_mask@.contains(t)
                && ray@.contains(t) && !promotion_square(us, t)
                ==> final(list)@.contains(#[trigger] piece_move(board@, f, t)),
        forall|f: int, t: int, k: int|
            pawns@.contains(f) && t == f + pawn_push(us) && empty@.contains(t) && check_mask@.contains(t)
                && ray@.contains(t) && promotion_square(us, t) && 0 <= k < 4
                ==> final(list)@.contains(#[trigger] promotion_move(board@, f, t, k)),
        forall|f: int, t: int, k: int|
            pawns@.contains(f) && pawn_step(us, f, t) && capt@.contains(t) && check_mask@.contains(t)
                && ray@.contains(t) && promotion_square(us, t) && 0 <= k < 4
                ==> final(list)@.contains(#[trigger] promotion_move(board@, f, t, k)),
{
    let ghost p = board@;
    let ghost l0 = list@;
    match us {
        Color::White => {
            let single = pawns.north().and(empty);
            let single_t = single.and(check_mask).and(ray);
            emit_pushes(board, single_t, Bitboard::rank_8(), 8, quiets, list);
            let ghost l1 = list@;
            proof {
                lemma_extends_refl(p, l1, quiets);
            }
            if quiets {
                let double = single.and(Bitboard::rank_3()).north().and(empty).and(check_mask).and(ray);
                emit_doubles(board, double, 16, quiets, list);
                proof {
                    lemma_extends_trans(p, l0, l1, list@, quiets);
                    assert forall|f: int, t: int|
                        pawns@.contains(f) && on_start_rank(us, f) && t == f + 2 * pawn_push(us)
                            && empty@.contains(f + pawn_push(us)) && empty@.contains(t) && check_mask@.contains(t)
                            && ray@.contains(t)
                            implies list@.contains(#[trigger] double_push_move(f, t)) by {
                        assert(single@.contains(f + pawn_push(us)));
                        assert(double@.contains(t));
                    }
                }
            }
            let ghost l2 = list@;
            let left = pawns.north_west().and(capt).and(check_mask).and(ray);
            let right = pawns.north_east().and(capt).and(check_mask).and(ray);
            emit_captures(board, left, Bitboard::rank_8(), 7, quiets, list);
            let ghost l3 = list@;
            emit_captures(board, right, Bitboard::rank_8(), 9, quiets, list);
            proof {
                lemma_extends_trans(p, l0, l2, l3, quiets);
                lemma_extends_trans(p, l0, l3, list@, quiets);
                lemma_extends_trans(p, l1, l2, l3, quiets);
                lemma_extends_trans(p, l1, l3, list@, quiets);
                lemma_extends_trans(p, l2, l3, list@, quiets);
                let lf = list@;
                if quiets {
                    assert forall|f: int, t: int|
                        pawns@.contains(f) && t == f + pawn_push(us) && empty@.contains(t) && check_mask@.contains(t)
                            && ray@.contains(t) && !promotion_square(us, t)
                            implies lf.contains(#[trigger] piece_move(p, f, t)) by {
                        assert(single_t@.contains(t));
                        assert(l1.contains(piece_move(p, t - (8), t)));
                        lemma_extends_keeps(p, l1, lf, quiets, piece_move(p, f, t));
                    }
                    assert forall|f: int, t: int|
                        pawns@.contains(f) && on_start_rank(us, f) && t == f + 2 * pawn_push(us)
                            && empty@.contains(f + pawn_push(us)) && empty@.contains(t) && check_mask@.contains(t)
                            && ray@.contains(t)
                            implies lf.contains(#[trigger] double_push_move(f, t)) by {
                        assert(l2.contains(double_push_move(f, t)));
                        lemma_extends_keeps(p, l2, lf, quiets, double_push_move(f, t));
                    }
                }
                assert forall|f: int, t: int|
                    pawns@.contains(f) && pawn_step(us, f, t) && capt@.contains(t) && check_mask@.contains(t)
                        && ray@.contains(t) && !promotion_square(us, t)
                        implies lf.contains(#[trigger] piece_move(p, f, t)) by {
                    if t == f + (7) {
                        assert(left@.contains(t));
                        assert(l3.contains(piece_move(p, t - (7), t)));
                        lemma_extends_keeps(p, l3, lf, quiets, piece_move(p, f, t));
                    } else {
                        assert(t == f + (9));
                        assert(right@.contains(t));
                    }
                }
                assert forall|f: int, t: int, k: int|
                    pawns@.contains(f) && t == f + pawn_push(us) && empty@.contains(t) && check_mask@.contains(t)
                        && ray@.contains(t) && promotion_square(us, t) && 0 <= k < 4
                        implies lf.contains(#[trigger] promotion_move(p, f, t, k)) by {
                    assert(single_t@.contains(t));
                    assert(l1.contains(promotion_move(p, t - (8), t, k)));
                    lemma_extends_keeps(p, l1, lf, quiets, promotion_move(p, f, t, k));
                }
                assert forall|f: int, t: int, k: int|
                    pawns@.contains(f) && pawn_step(us, f, t) && capt@.contains(t) && check_mask@.contains(t)
                        && ray@.contains(t) && promotion_square(us, t) && 0 <= k < 4
                        implies lf.contains(#[trigger] promotion_move(p, f, t, k)) by {
                    if t == f + (7) {
                        assert(left@.contains(t));
                        assert(l3.contains(promotion_move(p, t - (7), t, k)));
                        lemma_extends_keeps(p, l3, lf, quiets, promotion_move(p, f, t, k));
                    } else {
                        assert(t == f + (9));
                        assert(right@.contains(t));
                        assert(lf.contains(promotion_move(p, t - (9), t, k)));
                    }
                }
            }
        },
        Color::Black => {
            let single = pawns.south().and(empty);
            let single_t = single.and(check_mask).and(ray);
            emit_pushes(board, single_t, Bitboard::rank_1(), -8, quiets, list);
            let ghost l1 = list@;
            proof {
                lemma_extends_refl(p, l1, quiets);
            }
            if quiets {
                let double = single.and(Bitboard::rank_6()).south().and(empty).and(check_mask).and(ray);
                emit_doubles(board, double, -16, quiets, list);
                proof {
                    lemma_extends_trans(p, l0, l1, list@, quiets);
                    assert forall|f: int, t: int|
                        pawns@.contains(f) && on_start_rank(us, f) && t == f + 2 * pawn_push(us)
                            && empty@.contains(f + pawn_push(us)) && empty@.contains(t) && check_mask@.contains(t)
                            && ray@.contains(t)
                            implies list@.contains(#[trigger] double_push_move(f, t)) by {
                        assert(single@.contains(f + pawn_push(us)));
                        assert(double@.contains(t));
                    }
                }
            }
            let ghost l2 = list@;
            let left = pawns.south_west().and(capt).and(check_mask).and(ray);
            let right = pawns.south_east().and(capt).and(check_mask).and(ray);
            emit_captures(board, left, Bitboard::rank_1(), -9, quiets, list);
            let ghost l3 = list@;
            emit_captures(board, right, Bitboard::rank_1(), -7, quiets, list);
            proof {
                lemma_extends_trans(p, l0, l2, l3, quiets);
                lemma_extends_trans(p, l0, l3, list@, quiets);
                lemma_extends_trans(p, l1, l2, l3, quiets);
                lemma_extends_trans(p, l1, l3, list@, quiets);
                lemma_extends_trans(p, l2, l3, list@, quiets);
                let lf = list@;
                if quiets {
                    assert forall|f: int, t: int|
                        pawns@.contains(f) && t == f + pawn_push(us) && empty@.contains(t) && check_mask@.contains(t)
                            && ray@.contains(t) && !promotion_square(us, t)
                            implies lf.contains(#[trigger] piece_move(p, f, t)) by {
                        assert(single_t@.contains(t));
                        assert(l1.contains(piece_move(p, t - (-8), t)));
                        lemma_extends_keeps(p, l1, lf, quiets, piece_move(p, f, t));
                    }
                    assert forall|f: int, t: int|
                        pawns@.contains(f) && on_start_rank(us, f) && t == f + 2 * pawn_push(us)
                            && empty@.contains(f + pawn_push(us)) && empty@.contains(t) && check_mask@.contains(t)
                            && ray@.contains(t)
                            implies lf.contains(#[trigger] double_push_move(f, t)) by {
                        assert(l2.contains(double_push_move(f, t)));
                        lemma_extends_keeps(p, l2, lf, quiets, double_push_move(f, t));
                    }
                }
                assert forall|f: int, t: int|
                    pawns@.contains(f) && pawn_step(us, f, t) && capt@.contains(t) && check_mask@.contains(t)
                        && ray@.contains(t) && !promotion_square(us, t)
                        implies lf.contains(#[trigger] piece_move(p, f, t)) by {
                    if t == f + (-9) {
                        assert(left@.contains(t));
                        assert(l3.contains(piece_move(p, t - (-9), t)));
                        lemma_extends_keeps(p, l3, lf, quiets, piece_move(p, f, t));
                    } else {
                        assert(t == f + (-7));
                        assert(right@.contains(t));
                    }
                }
                assert forall|f: int, t: int, k: int|
                    pawns@.contains(f) && t == f + pawn_push(us) && empty@.contains(t) && check_mask@.contains(t)
                        && ray@.contains(t) && promotion_square(us, t) && 0 <= k < 4
                        implies lf.contains(#[trigger] promotion_move(p, f, t, k)) by {
                    assert(single_t@.contains(t));
                    assert(l1.contains(promotion_move(p, t - (-8), t, k)));
                    lemma_extends_keeps(p, l1, lf, quiets, promotion_move(p, f, t, k));
                }
                assert forall|f: int, t: int, k: int|
                    pawns@.contains(f) && pawn_step(us, f, t) && capt@.contains(t) && check_mask@.contains(t)
                        && ray@.contains(t) && promotion_square(us, t) && 0 <= k < 4
                        implies lf.contains(#[trigger] promotion_move(p, f, t, k)) by {
                    if t == f + (-9) {
                        assert(left@.contains(t));
                        assert(l3.contains(promotion_move(p, t - (-9), t, k)));
                        lemma_extends_keeps(p, l3, lf, quiets, promotion_move(p, f, t, k));
                    } else {
                        assert(t == f + (-7));
                        assert(right@.contains(t));
                        assert(lf.contains(promotion_move(p, t - (-7), t, k)));
                    }
                }
            }
        },
    }
}


/// The squares attacked from one square by a knight (`mode` 0), a bishop
/// (`mode` 1) or a rook (`mode` 2).
pub open spec fn mode_set(mode: int, s: int, occ: Set<int>) -> Set<int> {
    if mode == 0 {
        knight_set(s)
    } else if mode == 1 {
        bishop_set(s, occ)
    } else {
        rook_set(s, occ)
    }
}

/// Some square of `pieces` attacks `t` in the given mode.
pub open spec fn reached(pieces: Set<int>, mode: int, occ: Set<int>, t: int) -> bool {
    exists|s: int| pieces.contains(s) && #[trigger] mode_set(mode, s, occ).contains(t)
}

/// Some pawn of color `c` among `pawns` attacks `t`.
pub open spec fn pawn_reached(pawns: Set<int>, c: Color, t: int) -> bool {
    exists|s: int| pawns.contains(s) && #[trigger] pawn_step(c, s, t)
}

/// Every square attacked by color `c` under occupancy `occ`: by its pawns,
/// knights, diagonal and orthogonal sliders, and the king on
/// [`king_square_spec`].
pub open spec fn attacked_by(p: Position, c: Color, occ: Set<int>) -> Set<int> {
    Set::new(
        |t: int|
            pawn_reached(p.set_of(c, PieceType::Pawn), c, t)
            || reached(p.set_of(c, PieceType::Knight), 0, occ, t)
            || reached(p.set_of(c, PieceType::Bishop).union(p.set_of(c, PieceType::Queen)), 1, occ, t)
            || reached(p.set_of(c, PieceType::Rook).union(p.set_of(c, PieceType::Queen)), 2, occ, t)
            || king_set(king_square_spec(p, c)).contains(t),
    )
}

proof fn lemma_first_king(p: Position, c: Color, n: int)
    requires
        0 <= n <= 64,
        exists|i: int| 0 <= i < n && p.squares[i] == Some(Piece::spec_make(c, PieceType::King)),
    ensures
        exists|i: int|
            0 <= i < n && p.squares[i] == Some(Piece::spec_make(c, PieceType::King)) && forall|j: int|
                0 <= j < i ==> p.squares[j] != Some(Piece::spec_make(c, PieceType::King)),
    decreases n,
{
    let k = Piece::spec_make(c, PieceType::King);
    if exists|i: int| 0 <= i < n - 1 && p.squares[i] == Some(k) {
        lemma_first_king(p, c, n - 1);
    } else {
        assert(p.squares[n - 1] == Some(k));
        assert(forall|j: int| 0 <= j < n - 1 ==> p.squares[j] != Some(k));
    }
}

/// The king square of a side that has a king holds its first king.
proof fn lemma_king_square_spec(p: Position, c: Color)
    requires
        p.has_king(c),
    ensures
        0 <= king_square_spec(p, c) < 64,
        p.squares[king_square_spec(p, c)] == Some(Piece::spec_make(c, PieceType::King)),
        forall|j: int| 0 <= j < king_square_spec(p, c) ==> p.squares[j] != Some(Piece::spec_make(c, PieceType::King)),
{
    lemma_first_king(p, c, 64);
}

/// After `m` is played, the square it lands on is not attacked by the side
/// then to move: for a king move, the king is not left in check.
pub open spec fn lands_safely(p: Position, m: Move) -> bool {
    let q = apply_move(p, m);
    !attacked_by(q, q.stm, q.occupied_set()).contains(m.spec_to().0 as int)
}

/// A plain king step (quiet or capture) onto a square that the opponent does
/// not attack once the king has left its square lands safely.
pub proof fn lemma_king_step_safe(p: Position, m: Move)
    requires
        move_fits(p, m),
        m.spec_flag() == flag::QUIET || m.spec_flag() == flag::CAPTURE,
        p.squares[m.spec_from().0 as int] == Some(Piece::spec_make(p.stm, PieceType::King)),
        !attacked_by(p, p.stm.spec_flip(), p.occupied_set().remove(m.spec_from().0 as int)).contains(
            m.spec_to().0 as int,
        ),
    ensures
        lands_safely(p, m),
{
    let from = m.spec_from().0 as int;
    let t = m.spec_to().0 as int;
    let us = p.stm;
    let them = us.spec_flip();
    let q = apply_move(p, m);
    let x = p.occupied_set().remove(from);
    lemma_move_bounds(m);
    lemma_piece_parts();
    assert(q.stm == them);
    let king = Piece::spec_make(us, PieceType::King);
    assert(q.squares.len() == 64);
    assert forall|i: int| 0 <= i < 64 implies #[trigger] q.squares[i] == (if i == from {
        None
    } else if i == t {
        Some(king)
    } else {
        p.squares[i]
    }) by {}
    assert(q.occupied_set() =~= x.insert(t));
    assert forall|k: PieceType| #[trigger] q.set_of(them, k).subset_of(p.set_of(them, k)) by {
        assert forall|i: int| q.set_of(them, k).contains(i) implies p.set_of(them, k).contains(i) by {
            if i == t {
                assert(Piece::spec_make(them, k).spec_color() == them);
            }
        }
    }
    let tk = Piece::spec_make(them, PieceType::King);
    assert(tk.spec_color() == them);
    assert forall|i: int| 0 <= i < 64 implies (#[trigger] q.squares[i] == Some(tk)) == (p.squares[i] == Some(tk)) by {
        if i == t {
            assert(king.spec_color() == us);
            if m.spec_is_capture() {
                assert(p.squares[t].unwrap().spec_piece_type() != PieceType::King);
            }
        }
    }
    if p.has_king(them) {
        let w = choose|i: int| 0 <= i < 64 && p.squares[i] == Some(tk);
        assert(q.squares[w] == Some(tk));
    }
    if q.has_king(them) {
        let w = choose|i: int| 0 <= i < 64 && q.squares[i] == Some(tk);
        assert(p.squares[w] == Some(tk));
    }
    assert(q.has_king(them) == p.has_king(them));
    if p.has_king(them) {
        lemma_king_square_spec(p, them);
        lemma_king_square_spec(q, them);
        let a = king_square_spec(q, them);
        let b = king_square_spec(p, them);
        if a < b {
            assert(p.squares[a] == Some(tk));
        } else if b < a {
            assert(q.squares[b] == Some(tk));
        }
    }
    assert(king_square_spec(q, them) == king_square_spec(p, them));
    if attacked_by(q, them, q.occupied_set()).contains(t) {
        let occ_q = q.occupied_set();
        if pawn_reached(q.set_of(them, PieceType::Pawn), them, t) {
            let s = choose|s: int| q.set_of(them, PieceType::Pawn).contains(s) && #[trigger] pawn_step(them, s, t);
            assert(q.set_of(them, PieceType::Pawn).subset_of(p.set_of(them, PieceType::Pawn)));
            assert(pawn_reached(p.set_of(them, PieceType::Pawn), them, t));
        } else if reached(q.set_of(them, PieceType::Knight), 0, occ_q, t) {
            let s = choose|s: int| q.set_of(them, PieceType::Knight).contains(s) && #[trigger] mode_set(0, s, occ_q).contains(t);
            assert(q.set_of(them, PieceType::Knight).subset_of(p.set_of(them, PieceType::Knight)));
            assert(mode_set(0, s, x).contains(t));
            assert(reached(p.set_of(them, PieceType::Knight), 0, x, t));
        } else if reached(q.set_of(them, PieceType::Bishop).union(q.set_of(them, PieceType::Queen)), 1, occ_q, t) {
            let s = choose|s: int| q.set_of(them, PieceType::Bishop).union(q.set_of(them, PieceType::Queen)).contains(s)
                && #[trigger] mode_set(1, s, occ_q).contains(t);
            assert(q.set_of(them, PieceType::Bishop).subset_of(p.set_of(them, PieceType::Bishop)));
            assert(q.set_of(them, PieceType::Queen).subset_of(p.set_of(them, PieceType::Queen)));
            lemma_slider_reaches_target(s, x, t);
            assert(mode_set(1, s, x).contains(t));
            assert(reached(p.set_of(them, PieceType::Bishop).union(p.set_of(them, PieceType::Queen)), 1, x, t));
        } else if reached(q.set_of(them, PieceType::Rook).union(q.set_of(them, PieceType::Queen)), 2, occ_q, t) {
            let s = choose|s: int| q.set_of(them, PieceType::Rook).union(q.set_of(them, PieceType::Queen)).contains(s)
                && #[trigger] mode_set(2, s, occ_q).contains(t);
            assert(q.set_of(them, PieceType::Rook).subset_of(p.set_of(them, PieceType::Rook)));
            assert(q.set_of(them, PieceType::Queen).subset_of(p.set_of(them, PieceType::Queen)));
            lemma_slider_reaches_target(s, x, t);
            assert(mode_set(2, s, x).contains(t));
            assert(reached(p.set_of(them, PieceType::Rook).union(p.set_of(them, PieceType::Queen)), 2, x, t));
        } else {
            assert(king_set(king_square_spec(p, them)).contains(t));
        }
        assert(attacked_by(p, them, x).contains(t));
    }
}

/// Castling with the king on a square the opponent does not attack once
/// the king has left its square lands safely: the castling rook only blocks
/// more lines, and emptying the corner opens no line to the king's new
/// square.
pub proof fn lemma_castle_safe(p: Position, m: Move)
    requires
        move_fits(p, m),
        m.spec_flag() == flag::KING_CASTLE || m.spec_flag() == flag::QUEEN_CASTLE,
        p.squares[m.spec_from().0 as int] == Some(Piece::spec_make(p.stm, PieceType::King)),
        p.squares[castle_corner(m)] == Some(Piece::spec_make(p.stm, PieceType::Rook)),
        !attacked_by(p, p.stm.spec_flip(), p.occupied_set().remove(m.spec_from().0 as int)).contains(
            m.spec_to().0 as int,
        ),
    ensures
        lands_safely(p, m),
{
    let from = m.spec_from().0 as int;
    let t = m.spec_to().0 as int;
    let us = p.stm;
    let them = us.spec_flip();
    let q = apply_move(p, m);
    let x = p.occupied_set().remove(from);
    lemma_move_bounds(m);
    lemma_piece_parts();
    let base = (from / 8) * 8;
    let kingside = m.spec_flag() == flag::KING_CASTLE;
    let u = castle_corner(m);
    let f = if kingside { base + 5 } else { base + 3 };
    assert(u == (if kingside { base + 7 } else { base }));
    assert(q.stm == them);
    let king = Piece::spec_make(us, PieceType::King);
    let rook = Piece::spec_make(us, PieceType::Rook);
    assert(q.squares.len() == 64);
    assert forall|i: int| 0 <= i < 64 implies #[trigger] q.squares[i] == (if i == from || i == u {
        None
    } else if i == t {
        Some(king)
    } else if i == f {
        Some(rook)
    } else {
        p.squares[i]
    }) by {}
    assert(q.occupied_set() =~= x.remove(u).insert(f).insert(t));
    assert(rook.spec_color() == us && king.spec_color() == us);
    assert forall|k: PieceType| #[trigger] q.set_of(them, k).subset_of(p.set_of(them, k)) by {
        assert forall|i: int| q.set_of(them, k).contains(i) implies p.set_of(them, k).contains(i) by {
            assert(Piece::spec_make(them, k).spec_color() == them);
        }
    }
    let tk = Piece::spec_make(them, PieceType::King);
    assert(tk.spec_color() == them);
    assert forall|i: int| 0 <= i < 64 implies (#[trigger] q.squares[i] == Some(tk)) == (p.squares[i] == Some(tk)) by {}
    if p.has_king(them) {
        let w = choose|i: int| 0 <= i < 64 && p.squares[i] == Some(tk);
        assert(q.squares[w] == Some(tk));
    }
    if q.has_king(them) {
        let w = choose|i: int| 0 <= i < 64 && q.squares[i] == Some(tk);
        assert(p.squares[w] == Some(tk));
    }
    if p.has_king(them) {
        lemma_king_square_spec(p, them);
        lemma_king_square_spec(q, them);
        let a = king_square_spec(q, them);
        let b = king_square_spec(p, them);
        if a < b {
            assert(p.squares[a] == Some(tk));
        } else if b < a {
            assert(q.squares[b] == Some(tk));
        }
    }
    assert(king_square_spec(q, them) == king_square_spec(p, them));
    assert(file_of(u) == 0 || file_of(u) == 7);
    assert(rank_of(u) == rank_of(t));
    if attacked_by(q, them, q.occupied_set()).contains(t) {
        let occ_q = q.occupied_set();
        if pawn_reached(q.set_of(them, PieceType::Pawn), them, t) {
            let s = choose|s: int| q.set_of(them, PieceType::Pawn).contains(s) && #[trigger] pawn_step(them, s, t);
            assert(q.set_of(them, PieceType::Pawn).subset_of(p.set_of(them, PieceType::Pawn)));
            assert(pawn_reached(p.set_of(them, PieceType::Pawn), them, t));
        } else if reached(q.set_of(them, PieceType::Knight), 0, occ_q, t) {
            let s = choose|s: int| q.set_of(them, PieceType::Knight).contains(s) && #[trigger] mode_set(0, s, occ_q).contains(t);
            assert(q.set_of(them, PieceType::Knight).subset_of(p.set_of(them, PieceType::Knight)));
            assert(mode_set(0, s, x).contains(t));
            assert(reached(p.set_of(them, PieceType::Knight), 0, x, t));
        } else if reached(q.set_of(them, PieceType::Bishop).union(q.set_of(them, PieceType::Queen)), 1, occ_q, t) {
            let s = choose|s: int| q.set_of(them, PieceType::Bishop).union(q.set_of(them, PieceType::Queen)).contains(s)
                && #[trigger] mode_set(1, s, occ_q).contains(t);
            assert(q.set_of(them, PieceType::Bishop).subset_of(p.set_of(them, PieceType::Bishop)));
            assert(q.set_of(them, PieceType::Queen).subset_of(p.set_of(them, PieceType::Queen)));
            lemma_slider_castle_occupancy(s, x, u, f, t);
            assert(mode_set(1, s, x).contains(t));
            assert(reached(p.set_of(them, PieceType::Bishop).union(p.set_of(them, PieceType::Queen)), 1, x, t));
        } else if reached(q.set_of(them, PieceType::Rook).union(q.set_of(them, PieceType::Queen)), 2, occ_q, t) {
            let s = choose|s: int| q.set_of(them, PieceType::Rook).union(q.set_of(them, PieceType::Queen)).contains(s)
                && #[trigger] mode_set(2, s, occ_q).contains(t);
            assert(q.set_of(them, PieceType::Rook).subset_of(p.set_of(them, PieceType::Rook)));
            assert(q.set_of(them, PieceType::Queen).subset_of(p.set_of(them, PieceType::Queen)));
            lemma_slider_castle_occupancy(s, x, u, f, t);
            assert(mode_set(2, s, x).contains(t));
            assert(reached(p.set_of(them, PieceType::Rook).union(p.set_of(them, PieceType::Queen)), 2, x, t));
        } else {
            assert(king_set(king_square_spec(p, them)).contains(t));
        }
        assert(attacked_by(p, them, x).contains(t));
    }
}

/// The corner square of a castling move's rook.
pub open spec fn castle_corner(m: Move) -> int {
    let base = (m.spec_from().0 as int / 8) * 8;
    if m.spec_flag() == flag::KING_CASTLE {
        base + 7
    } else {
        base
    }
}

/// The union of the attacks of every square of `pieces` in the given mode.
fn union_attacks(pieces: Bitboard, mode: u8, occ: Bitboard) -> (r: Bitboard)
    requires
        mode < 3,
    ensures
        forall|t: int| #[trigger] r@.contains(t) <==> reached(pieces@, mode as int, occ@, t),
{
    let mut rest = pieces;
    let mut acc = Bitboard::empty();
    while rest.any()
        invariant
            mode < 3,
            rest@.subset_of(pieces@),
            forall|t: int| #[trigger] acc@.contains(t) <==> exists|s: int|
                pieces@.contains(s) && !rest@.contains(s) && #[trigger] mode_set(mode as int, s, occ@).contains(t),
        decreases rest.0,
    {
        let ghost before = rest@;
        let s = rest.pop_lsb();
        let a = if mode == 0 {
            knight_attacks(s)
        } else if mode == 1 {
            bishop_attacks(s, occ)
        } else {
            rook_attacks(s, occ)
        };
        assert(a@ == mode_set(mode as int, s.0 as int, occ@));
        let ghost old_acc = acc@;
        acc = acc.or(a);
        assert forall|t: int| #[trigger] acc@.contains(t) <==> exists|x: int|
            pieces@.contains(x) && !rest@.contains(x) && #[trigger] mode_set(mode as int, x, occ@).contains(t) by {
            if acc@.contains(t) && !old_acc.contains(t) {
                assert(pieces@.contains(s.0 as int) && !rest@.contains(s.0 as int)
                    && mode_set(mode as int, s.0 as int, occ@).contains(t));
            }
            if exists|x: int| pieces@.contains(x) && !rest@.contains(x) && #[trigger] mode_set(mode as int, x, occ@).contains(t) {
                let x = choose|x: int| pieces@.contains(x) && !rest@.contains(x) && #[trigger] mode_set(mode as int, x, occ@).contains(t);
                if x != s.0 as int {
                    assert(!before.contains(x));
                }
            }
        }
    }
    assert forall|t: int| #[trigger] acc@.contains(t) <==> reached(pieces@, mode as int, occ@, t) by {
        if reached(pieces@, mode as int, occ@, t) {
            let x = choose|x: int| pieces@.contains(x) && #[trigger] mode_set(mode as int, x, occ@).contains(t);
            assert(!rest@.contains(x));
        }
    }
    acc
}

/// The squares attacked by a set of pawns of the given color.
fn pawn_attacks_set(pawns: Bitboard, color: Color) -> (r: Bitboard)
    ensures
        forall|t: int| #[trigger] r@.contains(t) <==> pawn_reached(pawns@, color, t),
{
    let r = match color {
        Color::White => pawns.north_west().or(pawns.north_east()),
        Color::Black => pawns.south_west().or(pawns.south_east()),
    };
    assert forall|t: int| #[trigger] r@.contains(t) <==> pawn_reached(pawns@, color, t) by {
        if r@.contains(t) {
            if color == Color::White {
                if pawns@.contains(t - 7) && t % 8 != 7 {
                    assert(pawn_step(color, t - 7, t));
                } else {
                    assert(pawn_step(color, t - 9, t));
                }
            } else {
                if pawns@.contains(t + 9) && t % 8 != 7 {
                    assert(pawn_step(color, t + 9, t));
                } else {
                    assert(pawn_step(color, t + 7, t));
                }
            }
        }
        if pawn_reached(pawns@, color, t) {
            let s = choose|s: int| pawns@.contains(s) && #[trigger] pawn_step(color, s, t);
            assert(0 <= s < 64);
        }
    }
    r
}

/// All squares attacked by `color` given occupancy `occ`.
fn attacks_by(board: &Board, color: Color, occ: Bitboard) -> (r: Bitboard)
    requires
        board.wf(),
        board@.has_king(color),
    ensures
        r@ == attacked_by(board@, color, occ@),
{
    let pawns = pawn_attacks_set(board.pieces_colored(color, PieceType::Pawn), color);
    let knights = union_attacks(board.pieces_colored(color, PieceType::Knight), 0, occ);
    let diagonal = board.pieces_colored(color, PieceType::Bishop).or(
        board.pieces_colored(color, PieceType::Queen),
    );
    let diag = union_attacks(diagonal, 1, occ);
    let orthogonal = board.pieces_colored(color, PieceType::Rook).or(
        board.pieces_colored(color, PieceType::Queen),
    );
    let orth = union_attacks(orthogonal, 2, occ);
    let king = king_attacks(board.king_square(color));
    let r = pawns.or(knights).or(diag).or(orth).or(king);
    assert(r@ =~= attacked_by(board@, color, occ@));
    r
}


/// An enemy slider that would hit square `k` on an empty board: a rook or
/// queen on `k`'s rank or file, or a bishop or queen on its diagonals.
pub open spec fn sniper(p: Position, them: Color, k: int, n: int) -> bool {
    ||| rook_set(k, Set::empty()).contains(n)
        && (p.set_of(them, PieceType::Rook).contains(n) || p.set_of(them, PieceType::Queen).contains(n))
    ||| bishop_set(k, Set::empty()).contains(n)
        && (p.set_of(them, PieceType::Bishop).contains(n) || p.set_of(them, PieceType::Queen).contains(n))
}

/// Bitboard of our pieces that are pinned to the king by an enemy slider: a
/// piece is pinned when it is the only piece between the king and a sniper.
fn compute_pinned(board: &Board, us: Color, them: Color, king_sq: Square, occ: Bitboard) -> (r: Bitboard)
    requires
        board.wf(),
        king_sq.0 < 64,
    ensures
        forall|s: int| #[trigger] r@.contains(s) ==> board@.color_set(us).contains(s) && occ@.contains(s)
            && exists|n: int| sniper(board@, them, king_sq.0 as int, n) && #[trigger] between_set(
                king_sq.0 as int,
                n,
            ).contains(s),
{
    let us_bb = board.color_bb(us);
    let rook_like = board.pieces_colored(them, PieceType::Rook).or(
        board.pieces_colored(them, PieceType::Queen),
    );
    let bishop_like = board.pieces_colored(them, PieceType::Bishop).or(
        board.pieces_colored(them, PieceType::Queen),
    );
    let snipers = rook_attacks(king_sq, Bitboard::empty()).and(rook_like).or(
        bishop_attacks(king_sq, Bitboard::empty()).and(bishop_like),
    );
    let ghost k = king_sq.0 as int;
    let mut rest = snipers;
    let mut pinned = Bitboard::empty();
    while rest.any()
        invariant
            k == king_sq.0 as int,
            king_sq.0 < 64,
            us_bb@ == board@.color_set(us),
            forall|n: int| #[trigger] rest@.contains(n) ==> sniper(board@, them, k, n),
            forall|s: int| #[trigger] pinned@.contains(s) ==> board@.color_set(us).contains(s) && occ@.contains(s)
                && exists|n: int| sniper(board@, them, k, n) && #[trigger] between_set(k, n).contains(s),
        decreases rest.0,
    {
        let sniper_sq = rest.pop_lsb();
        let blockers = between(king_sq, sniper_sq).and(occ);
        let mine = blockers.and(us_bb);
        if blockers.count() == 1 && mine.any() {
            let w = mine.lsb();
            proof {
                assert forall|s: int| #[trigger] blockers@.contains(s) implies board@.color_set(us).contains(s)
                    by {
                    crate::bitboard::lemma_single_count(blockers);
                    assert(blockers@.contains(w.0 as int));
                }
            }
            let ghost old_pinned = pinned@;
            pinned = pinned.or(blockers);
            proof {
                assert forall|s: int| #[trigger] pinned@.contains(s) implies board@.color_set(us).contains(s)
                    && occ@.contains(s) && exists|n: int| sniper(board@, them, k, n)
                    && #[trigger] between_set(k, n).contains(s) by {
                    if blockers@.contains(s) {
                        assert(sniper(board@, them, k, sniper_sq.0 as int));
                        assert(between_set(k, sniper_sq.0 as int).contains(s));
                    } else {
                        assert(old_pinned.contains(s));
                    }
                }
            }
        }
    }
    pinned
}


/// Squares involved in castling: those that must be empty and, for the king's
/// path, not attacked.
const WHITE_KS_PATH: u64 = 0x60;
const WHITE_QS_EMPTY: u64 = 0x0E;
const WHITE_QS_PATH: u64 = 0x0C;
const BLACK_KS_PATH: u64 = 0x6000_0000_0000_0000;
const BLACK_QS_EMPTY: u64 = 0x0E00_0000_0000_0000;
const BLACK_QS_PATH: u64 = 0x0C00_0000_0000_0000;

proof fn lemma_castle_bits(i: u64)
    by (bit_vector)
    requires
        i < 64,
    ensures
        (0x60u64 >> i) & 1u64 == 1u64 <==> (i == 5 || i == 6),
        (0x0Eu64 >> i) & 1u64 == 1u64 <==> (i == 1 || i == 2 || i == 3),
        (0x0Cu64 >> i) & 1u64 == 1u64 <==> (i == 2 || i == 3),
        (0x6000_0000_0000_0000u64 >> i) & 1u64 == 1u64 <==> (i == 61 || i == 62),
        (0x0E00_0000_0000_0000u64 >> i) & 1u64 == 1u64 <==> (i == 57 || i == 58 || i == 59),
        (0x0C00_0000_0000_0000u64 >> i) & 1u64 == 1u64 <==> (i == 58 || i == 59),
{
}

/// Which squares the castling masks hold.
proof fn lemma_castle_masks()
    ensures
        Bitboard(WHITE_KS_PATH)@ == set![5int, 6int],
        Bitboard(WHITE_QS_EMPTY)@ == set![1int, 2int, 3int],
        Bitboard(WHITE_QS_PATH)@ == set![2int, 3int],
        Bitboard(BLACK_KS_PATH)@ == set![61int, 62int],
        Bitboard(BLACK_QS_EMPTY)@ == set![57int, 58int, 59int],
        Bitboard(BLACK_QS_PATH)@ == set![58int, 59int],
{
    assert forall|i: int| 0 <= i < 64 implies (bit(WHITE_KS_PATH, i) <==> (i == 5 || i == 6))
        && (bit(WHITE_QS_EMPTY, i) <==> (i == 1 || i == 2 || i == 3))
        && (bit(WHITE_QS_PATH, i) <==> (i == 2 || i == 3))
        && (bit(BLACK_KS_PATH, i) <==> (i == 61 || i == 62))
        && (bit(BLACK_QS_EMPTY, i) <==> (i == 57 || i == 58 || i == 59))
        && (bit(BLACK_QS_PATH, i) <==> (i == 58 || i == 59)) by {
        lemma_castle_bits(i as u64);
    }
    assert(Bitboard(WHITE_KS_PATH)@ =~= set![5int, 6int]);
    assert(Bitboard(WHITE_QS_EMPTY)@ =~= set![1int, 2int, 3int]);
    assert(Bitboard(WHITE_QS_PATH)@ =~= set![2int, 3int]);
    assert(Bitboard(BLACK_KS_PATH)@ =~= set![61int, 62int]);
    assert(Bitboard(BLACK_QS_EMPTY)@ =~= set![57int, 58int, 59int]);
    assert(Bitboard(BLACK_QS_PATH)@ =~= set![58int, 59int]);
}

/// True if square `sq` holds exactly `pc`.
fn holds(board: &Board, sq: u8, pc: Piece) -> (r: bool)
    requires
        sq < 64,
    ensures
        r == (board@.squares[sq as int] == Some(pc)),
{
    match board.piece_on(Square(sq)) {
        Some(x) => x == pc,
        None => false,
    }
}

/// The first square of the home rank of `c`.
pub open spec fn castle_base(c: Color) -> int {
    if c == Color::White { 0 } else { 56 }
}

/// The castling right of `c` on the king's or the queen's side.
pub open spec fn castle_flag(c: Color, kingside: bool) -> u8 {
    if c == Color::White {
        if kingside { 1 } else { 2 }
    } else {
        if kingside { 4 } else { 8 }
    }
}

/// Castling on one side is available, check aside: the right is held, the
/// king stands on its home square and the rook on its corner, the squares
/// between them are empty, and the squares the king crosses and lands on
/// are not attacked (with the king lifted from its square).
pub open spec fn castle_ready(p: Position, kingside: bool) -> bool {
    let b = castle_base(p.stm);
    let attacked = attacked_by(p, p.stm.spec_flip(), p.occupied_set().remove(b + 4));
    &&& p.castling & castle_flag(p.stm, kingside) != 0
    &&& king_square_spec(p, p.stm) == b + 4
    &&& if kingside {
        &&& p.squares[b + 7] == Some(Piece::spec_make(p.stm, PieceType::Rook))
        &&& p.squares[b + 5] is None
        &&& p.squares[b + 6] is None
        &&& !attacked.contains(b + 5)
        &&& !attacked.contains(b + 6)
    } else {
        &&& p.squares[b] == Some(Piece::spec_make(p.stm, PieceType::Rook))
        &&& p.squares[b + 1] is None
        &&& p.squares[b + 2] is None
        &&& p.squares[b + 3] is None
        &&& !attacked.contains(b + 2)
        &&& !attacked.contains(b + 3)
    }
}

/// The castling move on one side.
pub open spec fn castle_move(p: Position, kingside: bool) -> Move {
    let b = castle_base(p.stm);
    Move::spec_new(
        Square((b + 4) as u8),
        Square((if kingside { b + 6 } else { b + 2 }) as u8),
        if kingside { flag::KING_CASTLE } else { flag::QUEEN_CASTLE },
    )
}

/// Generate the (up to two) castling moves available to `us`. Beyond the
/// castling right, the path being empty and the king's path being safe, the
/// king must stand on its home square and the rook on its corner.
fn generate_castling(
    board: &Board,
    us: Color,
    occ: Bitboard,
    king_sq: Square,
    enemy_attacks: Bitboard,
    list: &mut MoveList,
)
    requires
        board.wf(),
        us == board@.stm,
        occ@ == board@.occupied_set(),
        king_sq.0 < 64,
        enemy_attacks@ == attacked_by(board@, us.spec_flip(), board@.occupied_set().remove(king_sq.0 as int)),
        king_sq.0 == king_square_spec(board@, us),
    ensures
        extends(board@, old(list)@, final(list)@, true),
        forall|kingside: bool| #[trigger] castle_ready(board@, kingside) ==> final(list)@.contains(
            castle_move(board@, kingside),
        ),
{
    let ghost p = board@;
    let ghost start = list@;
    proof {
        lemma_extends_refl(p, start, true);
        lemma_wf(*board);
        lemma_castle_masks();
        lemma_piece_parts();
    }
    let rights = board.castling_rights();
    let king = Piece::make(us, PieceType::King);
    let rook = Piece::make(us, PieceType::Rook);
    let (base, ks_path, qs_empty, qs_path, king_flag, queen_flag) = match us {
        Color::White => (0u8, WHITE_KS_PATH, WHITE_QS_EMPTY, WHITE_QS_PATH, CastlingRights::WHITE_KING, CastlingRights::WHITE_QUEEN),
        Color::Black => (56u8, BLACK_KS_PATH, BLACK_QS_EMPTY, BLACK_QS_PATH, CastlingRights::BLACK_KING, CastlingRights::BLACK_QUEEN),
    };
    let ks = Bitboard(ks_path);
    let qe = Bitboard(qs_empty);
    let qp = Bitboard(qs_path);
    assert(ks@.contains(base + 5) && ks@.contains(base + 6) && qe@.contains(base + 2)
        && qe@.contains(base + 3));
    if rights.has(king_flag) && occ.and(ks).is_empty() && enemy_attacks.and(ks).is_empty()
        && king_sq.0 == base + 4 && holds(board, base + 4, king) && holds(board, base + 7, rook) {
        let m = Move::new(Square(base + 4), Square(base + 6), flag::KING_CASTLE);
        proof {
            lemma_move_bounds(m);
            assert(!occ@.intersect(ks@).contains(base + 5));
            assert(!occ@.intersect(ks@).contains(base + 6));
            assert(!enemy_attacks@.intersect(ks@).contains(base + 6));
            assert(move_fits(p, m));
            lemma_castle_safe(p, m);
        }
        push_move(board, m, true, list);
        proof {
            assert(list@[list@.len() - 1] == m);
            assert(m == castle_move(p, true));
        }
    } else {
        proof {
            if castle_ready(p, true) {
                assert(occ@.intersect(ks@) =~= Set::<int>::empty());
                assert(enemy_attacks@.intersect(ks@) =~= Set::<int>::empty());
            }
        }
    }
    let ghost mid = list@;
    proof {
        lemma_extends_refl(p, mid, true);
    }
    if rights.has(queen_flag) && occ.and(qe).is_empty() && enemy_attacks.and(qp).is_empty()
        && king_sq.0 == base + 4 && holds(board, base + 4, king) && holds(board, base, rook) {
        let m = Move::new(Square(base + 4), Square(base + 2), flag::QUEEN_CASTLE);
        proof {
            lemma_move_bounds(m);
            assert(!occ@.intersect(qe@).contains(base + 3));
            assert(!occ@.intersect(qe@).contains(base + 2));
            assert(qp@.contains(base + 2));
            assert(!enemy_attacks@.intersect(qp@).contains(base + 2));
            assert(move_fits(p, m));
            lemma_castle_safe(p, m);
        }
        push_move(board, m, true, list);
        proof {
            lemma_extends_trans(p, start, mid, list@, true);
            assert(list@[list@.len() - 1] == m);
            assert(m == castle_move(p, false));
        }
    } else {
        proof {
            if castle_ready(p, false) {
                assert(occ@.intersect(qe@) =~= Set::<int>::empty());
                assert(enemy_attacks@.intersect(qp@) =~= Set::<int>::empty());
            }
        }
    }
    proof {
        if castle_ready(p, true) {
            lemma_extends_keeps(p, mid, list@, true, castle_move(p, true));
        }
    }
}

/// A set with the elements of `b` toggled: those in `a` removed, the others
/// added.
pub open spec fn toggle(a: Set<int>, b: Set<int>) -> Set<int> {
    a.difference(b).union(b.difference(a))
}

/// The enemy pieces that would attack the king on `k` after an en-passant
/// capture that leaves occupancy `occ_after` and removes the pawn on `captured`.
pub open spec fn ep_attackers(p: Position, us: Color, k: int, occ_after: Set<int>, captured: int) -> Set<int> {
    let them = us.spec_flip();
    pawn_set(us, k).intersect(toggle(p.set_of(them, PieceType::Pawn), set![captured]))
        .union(knight_set(k).intersect(p.set_of(them, PieceType::Knight)))
        .union(king_set(k).intersect(p.set_of(them, PieceType::King)))
        .union(rook_set(k, occ_after).intersect(p.set_of(them, PieceType::Rook).union(p.set_of(them, PieceType::Queen))))
        .union(bishop_set(k, occ_after).intersect(p.set_of(them, PieceType::Bishop).union(p.set_of(them, PieceType::Queen))))
}

/// True if making the en-passant capture leaves our king safe. This single test
/// subsumes pins, check evasion, and the horizontal discovered-check edge case,
/// because both the moving pawn and the captured pawn are removed at once.
fn en_passant_is_legal(
    board: &Board,
    us: Color,
    them: Color,
    king_sq: Square,
    occ: Bitboard,
    from: Square,
    ep: Square,
    captured: Square,
) -> (r: bool)
    requires
        board.wf(),
        them == us.spec_flip(),
        king_sq.0 < 64,
        from.0 < 64,
        ep.0 < 64,
        captured.0 < 64,
    ensures
        r == (ep_attackers(
            board@,
            us,
            king_sq.0 as int,
            toggle(toggle(occ@, set![from.0 as int]), set![captured.0 as int]).union(set![ep.0 as int]),
            captured.0 as int,
        ) == Set::<int>::empty()),
{
    let occ_after = occ.xor(Bitboard::from_square(from)).xor(Bitboard::from_square(captured)).or(
        Bitboard::from_square(ep),
    );
    let enemy_pawns = board.pieces_colored(them, PieceType::Pawn).xor(Bitboard::from_square(captured));
    let rook_like = board.pieces_colored(them, PieceType::Rook).or(
        board.pieces_colored(them, PieceType::Queen),
    );
    let bishop_like = board.pieces_colored(them, PieceType::Bishop).or(
        board.pieces_colored(them, PieceType::Queen),
    );
    let attacked = pawn_attacks(us, king_sq).and(enemy_pawns).or(
        knight_attacks(king_sq).and(board.pieces_colored(them, PieceType::Knight)),
    ).or(king_attacks(king_sq).and(board.pieces_colored(them, PieceType::King))).or(
        rook_attacks(king_sq, occ_after).and(rook_like),
    ).or(bishop_attacks(king_sq, occ_after).and(bishop_like));
    attacked.is_empty()
}

/// Generate legal en-passant captures (rare, so each is fully verified). The
/// target square must be empty and the pawn to capture must stand beside the
/// capturing pawn.
fn generate_en_passant(
    board: &Board,
    us: Color,
    them: Color,
    king_sq: Square,
    occ: Bitboard,
    ep: Square,
    quiets: bool,
    list: &mut MoveList,
)
    requires
        board.wf(),
        us == board@.stm,
        them == us.spec_flip(),
        king_sq.0 < 64,
        ep.0 < 64,
    ensures
        extends(board@, old(list)@, final(list)@, quiets),
{
    let ghost p = board@;
    let ghost start = list@;
    proof {
        lemma_extends_refl(p, start, quiets);
        lemma_wf(*board);
        lemma_piece_parts();
    }
    let mut candidates = board.pieces_colored(us, PieceType::Pawn).and(pawn_attacks(them, ep));
    let victim = Piece::make(them, PieceType::Pawn);
    let target_empty = board.piece_on(ep).is_none();
    while candidates.any()
        invariant
            p == board@,
            p.valid(),
            board.wf(),
            us == p.stm,
            them == us.spec_flip(),
            king_sq.0 < 64,
            ep.0 < 64,
            victim == Piece::spec_make(them, PieceType::Pawn),
            target_empty == (p.squares[ep.0 as int] is None),
            forall|t: int| #[trigger] candidates@.contains(t) ==> p.set_of(us, PieceType::Pawn).contains(t)
                && pawn_step(them, ep.0 as int, t),
            extends(p, start, list@, quiets),
        decreases candidates.0,
    {
        let from = candidates.pop_lsb();
        let captured = Square::from_file_rank(ep.file(), from.rank());
        if target_empty && holds(board, captured.0, victim)
            && en_passant_is_legal(board, us, them, king_sq, occ, from, ep, captured) {
            let m = Move::new(from, ep, flag::EN_PASSANT);
            proof {
                lemma_move_bounds(m);
                lemma_piece_parts();
                assert(pawn_step(them, ep.0 as int, from.0 as int));
                assert(ep_victim(m) == captured.0 as int);
            }
            let ghost before = list@;
            push_move(board, m, quiets, list);
            proof {
                lemma_extends_trans(p, start, before, list@, quiets);
            }
        }
    }
}


/// Pawn moves for the side to move: unpinned pawns move freely, pinned pawns
/// only along the line through the king, plus en-passant captures.
fn generate_pawn_moves(
    board: &Board,
    us: Color,
    them: Color,
    occ: Bitboard,
    capt: Bitboard,
    check_mask: Bitboard,
    pinned: Bitboard,
    king_sq: Square,
    quiets: bool,
    list: &mut MoveList,
)
    requires
        board.wf(),
        us == board@.stm,
        them == us.spec_flip(),
        king_sq.0 < 64,
        occ@ == board@.occupied_set(),
        forall|t: int| #[trigger] capt@.contains(t) ==> landable(board@, t) && board@.squares[t] is Some,
    ensures
        extends(board@, old(list)@, final(list)@, quiets),
        quiets ==> forall|f: int, t: int|
            board@.set_of(us, PieceType::Pawn).contains(f) && !pinned@.contains(f) && t == f + pawn_push(us)
                && 0 <= t < 64 && board@.squares[t] is None && check_mask@.contains(t)
                && !promotion_square(us, t)
                ==> final(list)@.contains(#[trigger] piece_move(board@, f, t)),
        quiets ==> forall|f: int, t: int|
            board@.set_of(us, PieceType::Pawn).contains(f) && !pinned@.contains(f) && on_start_rank(us, f)
                && t == f + 2 * pawn_push(us) && board@.squares[f + pawn_push(us)] is None
                && board@.squares[t] is None && check_mask@.contains(t)
                ==> final(list)@.contains(#[trigger] double_push_move(f, t)),
        forall|f: int, t: int|
            board@.set_of(us, PieceType::Pawn).contains(f) && !pinned@.contains(f) && pawn_step(us, f, t)
                && capt@.contains(t) && check_mask@.contains(t) && !promotion_square(us, t)
                ==> final(list)@.contains(#[trigger] piece_move(board@, f, t)),
        forall|f: int, t: int, k: int|
            board@.set_of(us, PieceType::Pawn).contains(f) && !pinned@.contains(f) && t == f + pawn_push(us)
                && 0 <= t < 64 && board@.squares[t] is None && check_mask@.contains(t)
                && promotion_square(us, t) && 0 <= k < 4
                ==> final(list)@.contains(#[trigger] promotion_move(board@, f, t, k)),
        forall|f: int, t: int, k: int|
            board@.set_of(us, PieceType::Pawn).contains(f) && !pinned@.contains(f) && pawn_step(us, f, t)
                && capt@.contains(t) && check_mask@.contains(t) && promotion_square(us, t) && 0 <= k < 4
                ==> final(list)@.contains(#[trigger] promotion_move(board@, f, t, k)),
{
    let ghost p = board@;
    let ghost start = list@;
    proof {
        lemma_extends_refl(p, start, quiets);
        lemma_wf(*board);
    }
    let empty = occ.not();
    let all_pawns = board.pieces_colored(us, PieceType::Pawn);
    let free_pawns = all_pawns.minus(pinned);
    let everywhere = Bitboard::full();
    add_pawn_moves(board, free_pawns, everywhere, us, empty, capt, check_mask, quiets, list);
    let ghost l1 = list@;
    proof {
        lemma_extends_refl(p, l1, quiets);
    }
    let mut rest = all_pawns.and(pinned);
    while rest.any()
        invariant
            p == board@,
            board.wf(),
            us == p.stm,
            king_sq.0 < 64,
            occ@ == p.occupied_set(),
            empty@ == Set::new(|i: int| 0 <= i < 64 && !occ@.contains(i)),
            forall|t: int| #[trigger] capt@.contains(t) ==> landable(p, t) && p.squares[t] is Some,
            forall|t: int| #[trigger] rest@.contains(t) ==> p.set_of(us, PieceType::Pawn).contains(t),
            extends(p, start, list@, quiets),
            extends(p, l1, list@, quiets),
        decreases rest.0,
    {
        let from = rest.pop_lsb();
        let ray = line(king_sq, from);
        let ghost before = list@;
        add_pawn_moves(board, Bitboard::from_square(from), ray, us, empty, capt, check_mask, quiets, list);
        proof {
            lemma_extends_trans(p, start, before, list@, quiets);
            lemma_extends_trans(p, l1, before, list@, quiets);
        }
    }
    let ghost l2 = list@;
    match board.en_passant() {
        Some(ep) => {
            let ghost before = list@;
            generate_en_passant(board, us, them, king_sq, occ, ep, quiets, list);
            proof {
                lemma_extends_trans(p, start, before, list@, quiets);
                lemma_extends_trans(p, l1, before, list@, quiets);
            }
        },
        None => {},
    }
    proof {
        let lf = list@;
        if quiets {
            assert forall|f: int, t: int|
                p.set_of(us, PieceType::Pawn).contains(f) && !pinned@.contains(f) && t == f + pawn_push(us)
                    && 0 <= t < 64 && p.squares[t] is None && check_mask@.contains(t)
                    && !promotion_square(us, t)
                    implies lf.contains(#[trigger] piece_move(p, f, t)) by {
                assert(free_pawns@.contains(f));
                assert(empty@.contains(t));
                assert(l1.contains(piece_move(p, f, t)));
                lemma_extends_keeps(p, l1, lf, quiets, piece_move(p, f, t));
            }
            assert forall|f: int, t: int|
                p.set_of(us, PieceType::Pawn).contains(f) && !pinned@.contains(f) && on_start_rank(us, f)
                    && t == f + 2 * pawn_push(us) && p.squares[f + pawn_push(us)] is None
                    && p.squares[t] is None && check_mask@.contains(t)
                    implies lf.contains(#[trigger] double_push_move(f, t)) by {
                assert(free_pawns@.contains(f));
                assert(empty@.contains(t));
                assert(empty@.contains(f + pawn_push(us)));
                assert(l1.contains(double_push_move(f, t)));
                lemma_extends_keeps(p, l1, lf, quiets, double_push_move(f, t));
            }
        }
        assert forall|f: int, t: int|
            p.set_of(us, PieceType::Pawn).contains(f) && !pinned@.contains(f) && pawn_step(us, f, t)
                && capt@.contains(t) && check_mask@.contains(t) && !promotion_square(us, t)
                implies lf.contains(#[trigger] piece_move(p, f, t)) by {
            assert(free_pawns@.contains(f));
            assert(l1.contains(piece_move(p, f, t)));
            lemma_extends_keeps(p, l1, lf, quiets, piece_move(p, f, t));
        }
        assert forall|f: int, t: int, k: int|
            p.set_of(us, PieceType::Pawn).contains(f) && !pinned@.contains(f) && t == f + pawn_push(us)
                && 0 <= t < 64 && p.squares[t] is None && check_mask@.contains(t)
                && promotion_square(us, t) && 0 <= k < 4
                implies lf.contains(#[trigger] promotion_move(p, f, t, k)) by {
            assert(free_pawns@.contains(f));
            assert(empty@.contains(t));
            assert(l1.contains(promotion_move(p, f, t, k)));
            lemma_extends_keeps(p, l1, lf, quiets, promotion_move(p, f, t, k));
        }
        assert forall|f: int, t: int, k: int|
            p.set_of(us, PieceType::Pawn).contains(f) && !pinned@.contains(f) && pawn_step(us, f, t)
                && capt@.contains(t) && check_mask@.contains(t) && promotion_square(us, t) && 0 <= k < 4
                implies lf.contains(#[trigger] promotion_move(p, f, t, k)) by {
            assert(free_pawns@.contains(f));
            assert(l1.contains(promotion_move(p, f, t, k)));
            lemma_extends_keeps(p, l1, lf, quiets, promotion_move(p, f, t, k));
        }
    }
}

/// Moves of the pieces in `pieces` in the given mode (knight 0, diagonal
/// slider 1, orthogonal slider 2), restricted to `mask`, and pinned pieces to
/// the line through the king.
fn generate_piece_moves(
    board: &Board,
    pieces: Bitboard,
    mode: u8,
    occ: Bitboard,
    mask: Bitboard,
    pinned: Bitboard,
    king_sq: Square,
    them_bb: Bitboard,
    quiets: bool,
    list: &mut MoveList,
)
    requires
        board.wf(),
        mode < 3,
        king_sq.0 < 64,
        forall|t: int| #[trigger] pieces@.contains(t) ==> board@.color_set(board@.stm).contains(t)
            && board@.squares[t].unwrap().spec_piece_type() != PieceType::King,
        forall|t: int| #[trigger] mask@.contains(t) ==> landable(board@, t)
            && !board@.color_set(board@.stm).contains(t),
        them_bb@ == board@.color_set(board@.stm.spec_flip()),
    ensures
        extends(board@, old(list)@, final(list)@, quiets),
        forall|f: int, t: int|
            pieces@.contains(f) && !pinned@.contains(f) && mode_set(mode as int, f, occ@).contains(t)
                && mask@.contains(t) && (quiets || board@.squares[t] is Some)
                ==> final(list)@.contains(#[trigger] piece_move(board@, f, t)),
{
    let ghost p = board@;
    let ghost start = list@;
    proof {
        lemma_extends_refl(p, start, quiets);
        lemma_wf(*board);
    }
    let mut rest = pieces;
    while rest.any()
        invariant
            p == board@,
            board.wf(),
            mode < 3,
            king_sq.0 < 64,
            forall|t: int| #[trigger] rest@.contains(t) ==> pieces@.contains(t),
            forall|t: int| #[trigger] pieces@.contains(t) ==> p.color_set(p.stm).contains(t)
                && p.squares[t].unwrap().spec_piece_type() != PieceType::King,
            forall|t: int| #[trigger] mask@.contains(t) ==> landable(p, t) && !p.color_set(p.stm).contains(t),
            them_bb@ == p.color_set(p.stm.spec_flip()),
            extends(p, start, list@, quiets),
            forall|f: int, t: int|
                pieces@.contains(f) && !rest@.contains(f) && !pinned@.contains(f)
                    && mode_set(mode as int, f, occ@).contains(t) && mask@.contains(t)
                    && (quiets || p.squares[t] is Some)
                    ==> list@.contains(#[trigger] piece_move(p, f, t)),
        decreases rest.0,
    {
        let ghost rest0 = rest@;
        let from = rest.pop_lsb();
        let attacks = if mode == 0 {
            knight_attacks(from)
        } else if mode == 1 {
            bishop_attacks(from, occ)
        } else {
            rook_attacks(from, occ)
        };
        let mut targets = attacks.and(mask);
        if pinned.contains(from) {
            targets = targets.and(line(king_sq, from));
        }
        assert(p.color_set(p.stm).contains(from.0 as int));
        proof {
            lemma_piece_parts();
        }
        let ghost before = list@;
        add_piece_moves(board, from, targets, them_bb, quiets, list);
        proof {
            lemma_extends_trans(p, start, before, list@, quiets);
            let fr = from.0 as int;
            assert forall|f: int, t: int|
                pieces@.contains(f) && !rest@.contains(f) && !pinned@.contains(f)
                    && mode_set(mode as int, f, occ@).contains(t) && mask@.contains(t)
                    && (quiets || p.squares[t] is Some)
                    implies list@.contains(#[trigger] piece_move(p, f, t)) by {
                if f == fr {
                    assert(Square(f as u8) == from);
                    assert(targets@.contains(t));
                } else {
                    assert(!rest0.contains(f));
                    lemma_extends_keeps(p, before, list@, quiets, piece_move(p, f, t));
                }
            }
        }
    }
}

/// Core legal-move generator. When `quiets` is true it produces every legal
/// move; when false only captures, en passant and promotions. The moves are
/// appended to `list`.
///
/// No move captures the enemy king: its square is never a target.
/// Moving the king of the side to move onto `t` is a plain step onto a
/// neighbouring square that is empty or holds an enemy piece other than the
/// king, and that the opponent does not attack once the king has left its
/// square.
pub open spec fn safe_king_step(p: Position, t: int) -> bool {
    let k = king_square_spec(p, p.stm);
    &&& king_set(k).contains(t)
    &&& landable(p, t)
    &&& !attacked_by(p, p.stm.spec_flip(), p.occupied_set().remove(k)).contains(t)
}

/// The move of such a step: a capture when `t` is occupied.
pub open spec fn king_step_move(p: Position, t: int) -> Move {
    Move::spec_new(
        Square(king_square_spec(p, p.stm) as u8),
        Square(t as u8),
        if p.squares[t] is Some { flag::CAPTURE } else { flag::QUIET },
    )
}

/// Every safe king step (only the captures among them when `quiets` is
/// false) is among the moves `new` adds to `old`.
pub open spec fn lists_king_steps(p: Position, new: Seq<Move>, quiets: bool) -> bool {
    forall|t: int| #[trigger] safe_king_step(p, t) && (quiets || p.squares[t] is Some) ==> new.contains(
        king_step_move(p, t),
    )
}

/// The king of the side to move is not attacked.
pub open spec fn not_in_check(p: Position) -> bool {
    attackers_spec(p, king_square_spec(p, p.stm), p.occupied_set()).intersect(
        p.color_set(p.stm.spec_flip()),
    ) == Set::<int>::empty()
}

/// The square `f` lies strictly between the king of the side to move and an
/// enemy rook, bishop or queen on a common line with it, so a piece on `f`
/// may be pinned.
pub open spec fn shields_king(p: Position, f: int) -> bool {
    let k = king_square_spec(p, p.stm);
    exists|n: int| sniper(p, p.stm.spec_flip(), k, n) && #[trigger] between_set(k, n).contains(f)
}

/// A knight, bishop, rook or queen of the side to move on `f` attacks `t`.
pub open spec fn piece_reaches(p: Position, f: int, t: int) -> bool {
    let occ = p.occupied_set();
    &&& 0 <= f < 64
    &&& p.squares[f] is Some
    &&& p.squares[f].unwrap().spec_color() == p.stm
    &&& match p.squares[f].unwrap().spec_piece_type() {
        PieceType::Knight => knight_set(f).contains(t),
        PieceType::Bishop => bishop_set(f, occ).contains(t),
        PieceType::Rook => rook_set(f, occ).contains(t),
        PieceType::Queen => bishop_set(f, occ).contains(t) || rook_set(f, occ).contains(t),
        _ => false,
    }
}

/// A move of a knight, bishop, rook or queen that is legal for plain reasons:
/// the side to move is not in check, the piece shields its king from no
/// enemy line, and it lands on an empty square or on an enemy piece other
/// than the king.
pub open spec fn free_piece_move(p: Position, f: int, t: int) -> bool {
    &&& not_in_check(p)
    &&& !shields_king(p, f)
    &&& piece_reaches(p, f, t)
    &&& landable(p, t)
}

/// Every such move (only the captures among them when `quiets` is false) is
/// in `new`.
pub open spec fn lists_free_piece_moves(p: Position, new: Seq<Move>, quiets: bool) -> bool {
    forall|f: int, t: int| #[trigger] free_piece_move(p, f, t) && (quiets || p.squares[t] is Some) ==> new.contains(
        piece_move(p, f, t),
    )
}

/// A pawn move that does not promote and is legal for plain reasons: the
/// side to move is not in check, the pawn shields its king from no enemy
/// line, and it steps one square forward onto an empty square or captures
/// diagonally forward an enemy piece other than the king.
pub open spec fn free_pawn_move(p: Position, f: int, t: int) -> bool {
    &&& not_in_check(p)
    &&& !shields_king(p, f)
    &&& 0 <= f < 64
    &&& p.squares[f] == Some(Piece::spec_make(p.stm, PieceType::Pawn))
    &&& !promotion_square(p.stm, t)
    &&& {
        ||| (t == f + pawn_push(p.stm) && 0 <= t < 64 && p.squares[t] is None)
        ||| (pawn_step(p.stm, f, t) && landable(p, t) && p.squares[t] is Some)
    }
}

/// Every such move (only the captures among them when `quiets` is false) is
/// in `new`.
pub open spec fn lists_free_pawn_moves(p: Position, new: Seq<Move>, quiets: bool) -> bool {
    forall|f: int, t: int| #[trigger] free_pawn_move(p, f, t) && (quiets || p.squares[t] is Some) ==> new.contains(
        piece_move(p, f, t),
    )
}

/// A pawn move onto the last rank, legal for plain reasons: as
/// [`free_pawn_move`], but promoting.
pub open spec fn free_promotion(p: Position, f: int, t: int) -> bool {
    &&& not_in_check(p)
    &&& !shields_king(p, f)
    &&& 0 <= f < 64
    &&& p.squares[f] == Some(Piece::spec_make(p.stm, PieceType::Pawn))
    &&& promotion_square(p.stm, t)
    &&& {
        ||| (t == f + pawn_push(p.stm) && 0 <= t < 64 && p.squares[t] is None)
        ||| (pawn_step(p.stm, f, t) && landable(p, t) && p.squares[t] is Some)
    }
}

/// All four promotions of every such move are in `new`.
pub open spec fn lists_free_promotions(p: Position, new: Seq<Move>) -> bool {
    forall|f: int, t: int, k: int| free_promotion(p, f, t) && 0 <= k < 4 ==> new.contains(
        #[trigger] promotion_move(p, f, t, k),
    )
}

/// Castling on one side is legal: the side to move is not in check and
/// castling there is available.
pub open spec fn free_castle(p: Position, kingside: bool) -> bool {
    not_in_check(p) && castle_ready(p, kingside)
}

/// Every such castling is in `new` when quiet moves are wanted.
pub open spec fn lists_free_castles(p: Position, new: Seq<Move>, quiets: bool) -> bool {
    quiets ==> forall|kingside: bool| #[trigger] free_castle(p, kingside) ==> new.contains(castle_move(p, kingside))
}

/// A double step of a pawn from its starting rank over an empty square onto
/// an empty square, legal for plain reasons: the side to move is not in
/// check and the pawn shields its king from no enemy line.
pub open spec fn free_double_push(p: Position, f: int, t: int) -> bool {
    &&& not_in_check(p)
    &&& !shields_king(p, f)
    &&& p.squares[f] == Some(Piece::spec_make(p.stm, PieceType::Pawn))
    &&& on_start_rank(p.stm, f)
    &&& t == f + 2 * pawn_push(p.stm)
    &&& p.squares[f + pawn_push(p.stm)] is None
    &&& p.squares[t] is None
}

/// Every such move is in `new` when quiet moves are wanted.
pub open spec fn lists_free_double_pushes(p: Position, new: Seq<Move>, quiets: bool) -> bool {
    quiets ==> forall|f: int, t: int| #[trigger] free_double_push(p, f, t) ==> new.contains(double_push_move(f, t))
}

/// The side to move has a move that is plainly legal: a safe step of its
/// king, or a free move (or promotion) of a pawn, knight, bishop, rook or
/// queen.
pub open spec fn has_plain_move(p: Position) -> bool {
    ||| exists|t: int| #[trigger] safe_king_step(p, t)
    ||| exists|f: int, t: int| #[trigger] free_piece_move(p, f, t)
    ||| exists|f: int, t: int| #[trigger] free_pawn_move(p, f, t)
    ||| exists|f: int, t: int| #[trigger] free_promotion(p, f, t)
}

/// `s` is a list of moves as the generator produces it for `p` from an
/// empty list: every move is generated for `p`, and every plainly legal move
/// (safe king steps, and when not in check every available castling and every
/// free pawn, knight, bishop, rook or queen move) is in it.
pub open spec fn generated(p: Position, s: Seq<Move>) -> bool {
    &&& extends(p, Seq::empty(), s, true)
    &&& lists_king_steps(p, s, true)
    &&& lists_free_piece_moves(p, s, true)
    &&& lists_free_pawn_moves(p, s, true)
    &&& lists_free_double_pushes(p, s, true)
    &&& lists_free_promotions(p, s)
    &&& lists_free_castles(p, s, true)
}

/// No move fits the position for the side to move, with every king move
/// landing safely: the generator lists nothing.
pub open spec fn no_fitting_move(p: Position) -> bool {
    forall|m: Move| !#[trigger] gen_ok(p, m, true)
}

/// A move that fits a position is never the null move: it leaves its square.
pub proof fn lemma_fitting_move_not_null(p: Position, m: Move)
    requires
        move_fits(p, m),
    ensures
        m.0 != 0,
{
    let x = m.0;
    assert(x == 0 ==> (x & 0x3F) == ((x >> 6) & 0x3F)) by (bit_vector);
}

/// A list with every safe king step and every free piece move is not empty
/// when there is such a move.
pub proof fn lemma_plain_move_listed(p: Position, s: Seq<Move>)
    requires
        lists_king_steps(p, s, true),
        lists_free_piece_moves(p, s, true),
        lists_free_pawn_moves(p, s, true),
        lists_free_promotions(p, s),
        has_plain_move(p),
    ensures
        s.len() > 0,
{
    if exists|t: int| #[trigger] safe_king_step(p, t) {
        let t = choose|t: int| #[trigger] safe_king_step(p, t);
        assert(s.contains(king_step_move(p, t)));
    } else if exists|f: int, t: int| #[trigger] free_piece_move(p, f, t) {
        let (f, t) = choose|f: int, t: int| #[trigger] free_piece_move(p, f, t);
        assert(s.contains(piece_move(p, f, t)));
    } else if exists|f: int, t: int| #[trigger] free_pawn_move(p, f, t) {
        let (f, t) = choose|f: int, t: int| #[trigger] free_pawn_move(p, f, t);
        assert(s.contains(piece_move(p, f, t)));
    } else {
        let (f, t) = choose|f: int, t: int| #[trigger] free_promotion(p, f, t);
        assert(s.contains(promotion_move(p, f, t, 0)));
    }
}

proof fn lemma_extends_keeps(p: Position, a: Seq<Move>, b: Seq<Move>, quiets: bool, x: Move)
    requires
        extends(p, a, b, quiets),
        a.contains(x),
    ensures
        b.contains(x),
{
    let i = choose|i: int| 0 <= i < a.len() && a[i] == x;
    assert(b.subrange(0, a.len() as int)[i] == b[i]);
}

proof fn lemma_king_steps_kept(p: Position, a: Seq<Move>, b: Seq<Move>, quiets: bool)
    requires
        extends(p, a, b, quiets),
        lists_king_steps(p, a, quiets),
    ensures
        lists_king_steps(p, b, quiets),
{
    assert forall|t: int| #[trigger] safe_king_step(p, t) && (quiets || p.squares[t] is Some) implies b.contains(
        king_step_move(p, t)) by {
        lemma_extends_keeps(p, a, b, quiets, king_step_move(p, t));
    }
}

fn generate(board: &Board, list: &mut MoveList, quiets: bool)
    requires
        board.wf(),
        board@.has_king(board@.stm),
        board@.has_king(board@.stm.spec_flip()),
    ensures
        extends(board@, old(list)@, final(list)@, quiets),
        lists_king_steps(board@, final(list)@, quiets),
        lists_free_piece_moves(board@, final(list)@, quiets),
        lists_free_pawn_moves(board@, final(list)@, quiets),
        lists_free_double_pushes(board@, final(list)@, quiets),
        lists_free_promotions(board@, final(list)@),
        lists_free_castles(board@, final(list)@, quiets),
{
    let ghost p = board@;
    let ghost start = list@;
    proof {
        lemma_extends_refl(p, start, quiets);
        lemma_wf(*board);
        lemma_piece_parts();
    }
    let us = board.side_to_move();
    let them = us.flip();
    let occ = board.occupied();
    let us_bb = board.color_bb(us);
    let them_bb = board.color_bb(them);
    let enemy_kings = board.pieces_colored(them, PieceType::King);
    let capt = them_bb.minus(enemy_kings);
    let king_sq = board.king_square(us);

    // Enemy attacks with our king removed, so the king cannot step along the
    // continuation of a checking slider's ray.
    let without_king = occ.xor(Bitboard::from_square(king_sq));
    let enemy_attacks = attacks_by(board, them, without_king);

    // King moves: onto neither our own pieces nor attacked squares.
    let king_targets = king_attacks(king_sq).minus(us_bb).minus(enemy_attacks).minus(enemy_kings);
    proof {
        let k = king_sq.0 as int;
        assert(p.squares[k] == Some(Piece::spec_make(us, PieceType::King)));
        assert(without_king@ =~= p.occupied_set().remove(k));
    }
    add_piece_moves(board, king_sq, king_targets, them_bb, quiets, list);
    let ghost l1 = list@;
    proof {
        assert forall|t: int| #[trigger] safe_king_step(p, t) && (quiets || p.squares[t] is Some) implies l1.contains(
            king_step_move(p, t)) by {
            assert(king_targets@.contains(t));
        }
    }

    let checkers = board.attackers_to(king_sq, occ).and(them_bb);
    let num_checkers = checkers.count();
    proof {
        if not_in_check(p) {
            assert(checkers@ =~= Set::<int>::empty());
            assert forall|i: int| 0 <= i < 64 implies !#[trigger] bit(checkers.0, i) by {
                assert(!checkers@.contains(i));
            }
            crate::bits::lemma_count_below_zero(checkers.0, 64);
        }
    }

    // In double check only the king may move.
    if num_checkers >= 2 {
        return;
    }
    proof {
        lemma_extends_refl(p, l1, quiets);
    }

    // Squares that resolve a single check (block the ray or capture the
    // checker); unrestricted otherwise.
    let check_mask = if num_checkers == 1 {
        proof {
            if checkers.0 == 0 {
                crate::bits::lemma_zero_full();
                crate::bits::lemma_count_below_zero(0u64, 64);
            }
        }
        let checker = checkers.lsb();
        between(king_sq, checker).or(Bitboard::from_square(checker))
    } else {
        Bitboard::full()
    };

    let pinned = compute_pinned(board, us, them, king_sq, occ);

    // Castling is a quiet move and only possible when not in check.
    if quiets && num_checkers == 0 {
        generate_castling(board, us, occ, king_sq, enemy_attacks, list);
        proof {
            lemma_extends_trans(p, start, l1, list@, quiets);
            lemma_king_steps_kept(p, l1, list@, quiets);
        }
    }
    let ghost l2 = list@;

    generate_pawn_moves(board, us, them, occ, capt, check_mask, pinned, king_sq, quiets, list);
    let ghost l3 = list@;
    proof {
        lemma_extends_trans(p, start, l2, l3, quiets);
        lemma_king_steps_kept(p, l2, l3, quiets);
        lemma_extends_refl(p, l3, quiets);
    }

    let mask = check_mask.minus(us_bb).minus(enemy_kings);

    // Knights: a pinned knight has no legal moves (it cannot stay on the ray).
    let knights = board.pieces_colored(us, PieceType::Knight).minus(pinned);
    generate_piece_moves(board, knights, 0, occ, mask, pinned, king_sq, them_bb, quiets, list);
    let ghost l4 = list@;
    proof {
        lemma_extends_trans(p, start, l3, l4, quiets);
        lemma_king_steps_kept(p, l3, l4, quiets);
        lemma_extends_trans(p, l3, l3, l4, quiets);
    }

    // Bishops and queens: diagonal rays.
    let diagonal = board.pieces_colored(us, PieceType::Bishop).or(
        board.pieces_colored(us, PieceType::Queen),
    );
    generate_piece_moves(board, diagonal, 1, occ, mask, pinned, king_sq, them_bb, quiets, list);
    let ghost l5 = list@;
    proof {
        lemma_extends_trans(p, start, l4, l5, quiets);
        lemma_king_steps_kept(p, l4, l5, quiets);
        lemma_extends_trans(p, l3, l4, l5, quiets);
    }

    // Rooks and queens: orthogonal rays.
    let orthogonal = board.pieces_colored(us, PieceType::Rook).or(
        board.pieces_colored(us, PieceType::Queen),
    );
    generate_piece_moves(board, orthogonal, 2, occ, mask, pinned, king_sq, them_bb, quiets, list);
    proof {
        lemma_extends_trans(p, start, l5, list@, quiets);
        lemma_king_steps_kept(p, l5, list@, quiets);
        let l6 = list@;
        lemma_extends_trans(p, l3, l5, l6, quiets);
        lemma_extends_trans(p, l2, l3, l6, quiets);
        if quiets {
            assert forall|kingside: bool| #[trigger] free_castle(p, kingside) implies l6.contains(
                castle_move(p, kingside)) by {
                assert(num_checkers == 0);
                assert(l2.contains(castle_move(p, kingside)));
                lemma_extends_keeps(p, l2, l6, quiets, castle_move(p, kingside));
            }
        }
        assert forall|f: int, t: int| #[trigger] free_pawn_move(p, f, t) && (quiets || p.squares[t] is Some) implies l6.contains(
            piece_move(p, f, t)) by {
            assert(num_checkers == 0);
            assert(!pinned@.contains(f));
            assert(p.set_of(us, PieceType::Pawn).contains(f));
            assert(check_mask@.contains(t));
            if p.squares[t] is Some {
                assert(capt@.contains(t));
            }
            assert(l3.contains(piece_move(p, f, t)));
            lemma_extends_keeps(p, l3, l6, quiets, piece_move(p, f, t));
        }
        assert forall|f: int, t: int, k: int| free_promotion(p, f, t) && 0 <= k < 4 implies l6.contains(
            #[trigger] promotion_move(p, f, t, k)) by {
            assert(num_checkers == 0);
            assert(!pinned@.contains(f));
            assert(p.set_of(us, PieceType::Pawn).contains(f));
            assert(check_mask@.contains(t));
            if p.squares[t] is Some {
                assert(capt@.contains(t));
            }
            assert(l3.contains(promotion_move(p, f, t, k)));
            lemma_extends_keeps(p, l3, l6, quiets, promotion_move(p, f, t, k));
        }
        if quiets {
            assert forall|f: int, t: int| #[trigger] free_double_push(p, f, t) implies l6.contains(
                double_push_move(f, t)) by {
                assert(num_checkers == 0);
                assert(!pinned@.contains(f));
                assert(p.set_of(us, PieceType::Pawn).contains(f));
                assert(check_mask@.contains(t));
                assert(l3.contains(double_push_move(f, t)));
                lemma_extends_keeps(p, l3, l6, quiets, double_push_move(f, t));
            }
        }
        assert forall|f: int, t: int| #[trigger] free_piece_move(p, f, t) && (quiets || p.squares[t] is Some) implies l6.contains(
            piece_move(p, f, t)) by {
            assert(num_checkers == 0);
            assert(mask@.contains(t));
            assert(!pinned@.contains(f));
            let kind = p.squares[f].unwrap().spec_piece_type();
            assert(p.squares[f] == Some(Piece::spec_make(us, kind)));
            if kind == PieceType::Knight {
                assert(knights@.contains(f));
                assert(mode_set(0, f, occ@).contains(t));
                assert(l4.contains(piece_move(p, f, t)));
                lemma_extends_keeps(p, l4, l5, quiets, piece_move(p, f, t));
                lemma_extends_keeps(p, l5, l6, quiets, piece_move(p, f, t));
            } else if (kind == PieceType::Bishop || kind == PieceType::Queen) && bishop_set(f, occ@).contains(t) {
                assert(diagonal@.contains(f));
                assert(mode_set(1, f, occ@).contains(t));
                assert(l5.contains(piece_move(p, f, t)));
                lemma_extends_keeps(p, l5, l6, quiets, piece_move(p, f, t));
            } else {
                assert(orthogonal@.contains(f));
                assert(mode_set(2, f, occ@).contains(t));
            }
        }
    }
}

/// The requirements of move generation: a well-formed board on which both
/// sides have a king.
pub open spec fn gen_ready(board: Board) -> bool {
    &&& board.wf()
    &&& board@.has_king(board@.stm)
    &&& board@.has_king(board@.stm.spec_flip())
}

/// Generate all legal moves for the side to move into `list`.
pub fn generate_legal(board: &Board, list: &mut MoveList)
    requires
        gen_ready(*board),
    ensures
        extends(board@, old(list)@, final(list)@, true),
        lists_king_steps(board@, final(list)@, true),
        lists_free_piece_moves(board@, final(list)@, true),
        lists_free_pawn_moves(board@, final(list)@, true),
        lists_free_double_pushes(board@, final(list)@, true),
        lists_free_promotions(board@, final(list)@),
        lists_free_castles(board@, final(list)@, true),
{
    generate(board, list, true);
}

/// Generate only "noisy" legal moves (captures, en passant and promotions)
/// for quiescence search. Quiet moves (plain pushes, double pushes, castling
/// and quiet piece moves) are omitted.
pub fn generate_noisy(board: &Board, list: &mut MoveList)
    requires
        gen_ready(*board),
    ensures
        extends(board@, old(list)@, final(list)@, false),
        lists_king_steps(board@, final(list)@, false),
        lists_free_piece_moves(board@, final(list)@, false),
        lists_free_pawn_moves(board@, final(list)@, false),
        lists_free_promotions(board@, final(list)@),
{
    generate(board, list, false);
}

/// A fresh [`MoveList`] of all legal moves.
pub fn legal_moves(board: &Board) -> (r: MoveList)
    requires
        gen_ready(*board),
    ensures
        generated(board@, r@),
{
    let mut list = MoveList::new();
    generate_legal(board, &mut list);
    list
}

} // verus!
