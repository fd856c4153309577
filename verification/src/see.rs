//! Static Exchange Evaluation (SEE).
//!
//! SEE answers a single question about a move: if this capture (or move to a
//! square) starts a sequence of captures and recaptures on the destination
//! square, and both sides always recapture with their least valuable attacker
//! and stop as soon as continuing would lose material, what is the net material
//! outcome for the side that moved first?
//!
//! The result is in centipawns, from the mover's perspective: positive means the
//! exchange wins material, zero means it breaks even, negative means it loses
//! material.
//!
//! The implementation is the classic swap algorithm expressed recursively: at
//! each step the side to move either captures with its least valuable attacker
//! (and the opponent then gets the same choice on the now-occupied square) or
//! declines, whichever is better for it. Recapture attackers, including sliders
//! that only appear once a piece in front of them is removed ("x-ray"
//! attackers), are found by recomputing the attacker set against the shrinking
//! occupancy.

use vstd::prelude::*;
use crate::bitboard::Bitboard;
use crate::bits::bit;
use crate::board::{Board, attackers_spec, lemma_wf, lemma_occupancy_word};
use crate::eval::PIECE_VALUE;
use crate::moves::{flag, Move, lemma_move_bounds};
use crate::position::{Position, ep_victim};
use crate::types::{Color, PieceType, Square};

verus! {

/// The value SEE gives a piece kind.
pub open spec fn see_value(k: PieceType) -> int {
    PIECE_VALUE[k.spec_index() as int] as int
}

/// The pieces of `side` standing in `occ` that attack `to` under `occ`.
pub open spec fn side_attackers(p: Position, to: int, side: Color, occ: Set<int>) -> Set<int> {
    attackers_spec(p, to, occ).intersect(occ).intersect(p.color_set(side))
}

/// The least valuable kind among `a`, trying kinds from index `k` upward.
pub open spec fn cheapest_kind(p: Position, a: Set<int>, k: int) -> Option<PieceType>
    decreases 6 - k,
{
    if k >= 6 {
        None
    } else if a.intersect(p.type_set(PieceType::spec_from_index(k as usize))) != Set::<int>::empty() {
        Some(PieceType::spec_from_index(k as usize))
    } else {
        cheapest_kind(p, a, k + 1)
    }
}

/// The lowest square of a set.
pub open spec fn lowest(s: Set<int>) -> int {
    choose|x: int| s.contains(x) && forall|y: int| #[trigger] s.contains(y) ==> x <= y
}

/// The least valuable attacker of `side` on `to` (its square and kind), the
/// lowest square among attackers of that kind; `None` when there is none.
pub open spec fn cheapest_attacker(p: Position, to: int, side: Color, occ: Set<int>) -> Option<(int, PieceType)> {
    let a = side_attackers(p, to, side, occ);
    match cheapest_kind(p, a, 0) {
        Some(k) => Some((lowest(a.intersect(p.type_set(k))), k)),
        None => None,
    }
}

/// Clearing a set bit makes a word smaller.
pub proof fn lemma_clear_bit(x: u64, s: u64)
    by (bit_vector)
    requires
        s < 64,
        (x >> s) & 1u64 == 1u64,
    ensures
        x ^ (1u64 << s) < x,
{
}

/// The best material `side` can win by recapturing on `to` when occupancy is
/// `occ` and the piece standing there is worth `v`: it takes with its least
/// valuable attacker if what it gains, less the opponent's best reply, is
/// positive, and otherwise declines.
pub open spec fn exchange(p: Position, to: int, side: Color, occ: u64, v: int) -> int
    decreases occ,
{
    match cheapest_attacker(p, to, side, Bitboard(occ)@) {
        Some((s, k)) => {
            if 0 <= s < 64 && bit(occ, s) {
                proof {
                    lemma_clear_bit(occ, s as u64);
                }
                let gain = v - exchange(p, to, side.spec_flip(), occ ^ (1u64 << (s as u64)), see_value(k));
                if gain > 0 {
                    gain
                } else {
                    0
                }
            } else {
                0
            }
        },
        None => 0,
    }
}

/// With no attackers there is no cheapest kind.
proof fn lemma_no_kind(p: Position, a: Set<int>, k: int)
    requires
        a == Set::<int>::empty(),
    ensures
        cheapest_kind(p, a, k) is None,
    decreases 6 - k,
{
    if k < 6 {
        assert(a.intersect(p.type_set(PieceType::spec_from_index(k as usize))) =~= Set::<int>::empty());
        lemma_no_kind(p, a, k + 1);
    }
}

/// A piece kind is the kind at its own index.
proof fn lemma_kind_index(k: PieceType)
    ensures
        PieceType::spec_from_index(k.spec_index()) == k,
{
    match k {
        _ => {},
    }
}

/// The least valuable piece of `side` that attacks `to` under occupancy
/// `occ`, or `None` if there is none. Sliders seen only through a now-empty
/// square count because attackers are computed against `occ`.
fn least_valuable_attacker(board: &Board, to: Square, side: Color, occ: Bitboard) -> (r: Option<(Square, PieceType)>)
    requires
        board.wf(),
        to.0 < 64,
    ensures
        match cheapest_attacker(board@, to.0 as int, side, occ@) {
            Some((s, k)) => (r matches Some((sq, kk)) && sq.0 == s && kk == k && 0 <= s < 64
                && occ@.contains(s)),
            None => r is None,
        },
{
    let ghost p = board@;
    let attackers = board.attackers_to(to, occ).and(occ).and(board.color_bb(side));
    let ghost a = side_attackers(p, to.0 as int, side, occ@);
    assert(attackers@ == a);
    if attackers.is_empty() {
        proof {
            lemma_no_kind(p, a, 0);
        }
        return None;
    }
    let kinds = PieceType::all();
    let mut i: usize = 0;
    while i < 6
        invariant
            p == board@,
            board.wf(),
            to.0 < 64,
            i <= 6,
            attackers@ == a,
            a == side_attackers(p, to.0 as int, side, occ@),
            forall|j: int| 0 <= j < 6 ==> #[trigger] kinds[j].spec_index() == j,
            cheapest_kind(p, a, 0) == cheapest_kind(p, a, i as int),
        decreases 6 - i,
    {
        let pt = kinds[i];
        proof {
            lemma_kind_index(pt);
        }
        assert(pt == PieceType::spec_from_index(i));
        let bb = attackers.and(board.pieces(pt));
        if bb.any() {
            let s = bb.lsb();
            proof {
                let set = a.intersect(p.type_set(pt));
                assert(bb@ == set);
                assert(set.contains(s.0 as int) && forall|y: int| #[trigger] set.contains(y) ==> s.0 <= y);
                let l = lowest(set);
                assert(set.contains(l) && forall|y: int| #[trigger] set.contains(y) ==> l <= y);
                assert(l == s.0 as int);
                assert(cheapest_kind(p, a, i as int) == Some(pt));
            }
            return Some((s, pt));
        }
        i = i + 1;
    }
    None
}

/// Best material the `side` can extract by recapturing on `to`, given the
/// current `occ` and that the piece now standing on `to` is worth
/// `on_square_val`. The side may always decline (returning 0), so the result
/// is never negative.
fn capture_value(board: &Board, to: Square, side: Color, occ: Bitboard, on_square_val: i32) -> (r: i32)
    requires
        board.wf(),
        to.0 < 64,
        0 <= on_square_val <= 20000,
    ensures
        r == exchange(board@, to.0 as int, side, occ.0, on_square_val as int),
        0 <= r <= on_square_val,
    decreases occ.0,
{
    let ghost p = board@;
    match least_valuable_attacker(board, to, side, occ) {
        None => 0,
        Some((from_sq, attacker)) => {
            proof {
                lemma_clear_bit(occ.0, from_sq.0 as u64);
            }
            let next_occ = occ.xor(Bitboard::from_square(from_sq));
            let value = PIECE_VALUE[attacker.index()];
            assert(0 <= value <= 20000);
            let reply = capture_value(board, to, side.flip(), next_occ, value);
            let gain = on_square_val - reply;
            if gain > 0 {
                gain
            } else {
                0
            }
        },
    }
}

/// The exchange a move starts, from the mover's point of view: the value it
/// captures (a pawn for en passant, and for a promotion the pawn's upgrade
/// too), less what the opponent then wins by recapturing the piece that
/// arrived, with occupancy after the move (the origin, and for en passant the
/// captured pawn's square, emptied).
pub open spec fn see_spec(p: Position, mv: Move, occ: u64) -> int {
    let from = mv.spec_from().0 as int;
    let to = mv.spec_to().0 as int;
    let moving = p.squares[from].unwrap();
    let occ0 = occ ^ (1u64 << (from as u64));
    let ep = mv.spec_flag() == flag::EN_PASSANT;
    let occ1 = if ep {
        occ0 ^ (1u64 << (ep_victim(mv) as u64))
    } else {
        occ0
    };
    let captured = if ep {
        see_value(PieceType::Pawn)
    } else {
        match p.squares[to] {
            Some(pc) => see_value(pc.spec_piece_type()),
            None => 0,
        }
    };
    let (target, on_square) = match mv.spec_promotion() {
        Some(pr) => (captured + see_value(pr) - see_value(PieceType::Pawn), see_value(pr)),
        None => (captured, see_value(moving.spec_piece_type())),
    };
    target - exchange(p, to, p.stm.spec_flip(), occ1, on_square)
}

/// The occupancy word of a position: the bits of its occupied squares.
pub open spec fn occupancy(p: Position) -> u64 {
    choose|occ: u64| Bitboard(occ)@ == p.occupied_set()
}

/// The static exchange value of `mv` on `p`.
pub open spec fn see_value_of(p: Position, mv: Move) -> int {
    see_spec(p, mv, occupancy(p))
}

/// Only one word has a given set of squares.
proof fn lemma_occupancy(p: Position, occ: u64)
    requires
        Bitboard(occ)@ == p.occupied_set(),
    ensures
        occupancy(p) == occ,
{
    let o = occupancy(p);
    assert(Bitboard(o)@ == p.occupied_set());
    crate::bitboard::lemma_view_ext(Bitboard(o), Bitboard(occ));
}

/// Static exchange evaluation of `mv`: the net material outcome (centipawns,
/// from the moving side's perspective) of the capture sequence it begins on its
/// destination square. Works for quiet moves too (the move captures nothing,
/// so the result is `<= 0`: zero if the destination is safe, negative if the
/// piece can be won there).
pub fn see(board: &Board, mv: Move) -> (r: i32)
    requires
        board.wf(),
        board@.squares[mv.spec_from().0 as int] is Some,
    ensures
        r == see_value_of(board@, mv),
{
    let ghost p = board@;
    proof {
        lemma_move_bounds(mv);
        lemma_wf(*board);
    }
    let to = mv.to();
    let from = mv.from();
    let all = board.occupied();
    assert(Bitboard(all.0) == all);
    let mut occ = all.xor(Bitboard::from_square(from));
    let mut target_val: i32 = if mv.is_en_passant() {
        let cap_sq = Square::from_file_rank(to.file(), from.rank());
        assert(cap_sq.0 == ep_victim(mv));
        occ = occ.xor(Bitboard::from_square(cap_sq));
        PIECE_VALUE[PieceType::Pawn.index()]
    } else {
        match board.piece_on(to) {
            Some(pc) => PIECE_VALUE[pc.piece_type().index()],
            None => 0,
        }
    };
    let moving = board.piece_on(from).unwrap();
    let mut on_square_val = PIECE_VALUE[moving.piece_type().index()];
    match mv.promotion() {
        Some(promo) => {
            let gain = PIECE_VALUE[promo.index()] - PIECE_VALUE[PieceType::Pawn.index()];
            on_square_val = PIECE_VALUE[promo.index()];
            target_val = target_val + gain;
        },
        None => {},
    }
    let reply = capture_value(board, to, board.side_to_move().flip(), occ, on_square_val);
    assert(target_val - reply == see_spec(p, mv, all.0));
    proof {
        lemma_occupancy(p, all.0);
    }
    target_val - reply
}

/// A promotion onto a square that no enemy piece attacks once the pawn has
/// left wins what stands there plus the promoted piece, less the pawn: on an
/// empty square the promoted piece's value less the pawn's.
pub proof fn lemma_see_unanswered_promotion(b: Board, mv: Move)
    requires
        b.wf(),
        b@.squares[mv.spec_from().0 as int] is Some,
        mv.spec_promotion() is Some,
        attackers_spec(b@, mv.spec_to().0 as int, b@.occupied_set().remove(mv.spec_from().0 as int)).intersect(
            b@.color_set(b@.stm.spec_flip()),
        ) == Set::<int>::empty(),
    ensures
        see_value_of(b@, mv) == (match b@.squares[mv.spec_to().0 as int] {
            Some(pc) => PIECE_VALUE[pc.spec_piece_type().spec_index() as int] as int,
            None => 0int,
        }) + PIECE_VALUE[mv.spec_promotion().unwrap().spec_index() as int] - PIECE_VALUE[PieceType::Pawn.spec_index() as int],
        b@.squares[mv.spec_to().0 as int] is None ==> see_value_of(b@, mv)
            == PIECE_VALUE[mv.spec_promotion().unwrap().spec_index() as int] - PIECE_VALUE[PieceType::Pawn.spec_index() as int],
{
    let p = b@;
    lemma_move_bounds(mv);
    lemma_occupancy_word(b);
    let o = choose|o: u64| #[trigger] Bitboard(o)@ == p.occupied_set();
    lemma_occupancy(p, o);
    let from = mv.spec_from().0 as int;
    let to = mv.spec_to().0 as int;
    let occ1 = o ^ (1u64 << (from as u64));
    crate::bits::lemma_xor(o, 1u64 << (from as u64));
    crate::bits::lemma_single(from as u64);
    assert(Bitboard(occ1)@ =~= p.occupied_set().remove(from)) by {
        assert forall|i: int| #[trigger] Bitboard(occ1)@.contains(i) <==> p.occupied_set().remove(from).contains(i) by {
            assert(Bitboard(o)@.contains(i) == bit(o, i));
        }
    }
    let them = p.stm.spec_flip();
    let a = side_attackers(p, to, them, Bitboard(occ1)@);
    assert(a =~= Set::<int>::empty()) by {
        assert forall|i: int| !a.contains(i) by {
            if a.contains(i) {
                assert(attackers_spec(p, to, p.occupied_set().remove(from)).intersect(p.color_set(them)).contains(i));
            }
        }
    }
    lemma_no_kind(p, a, 0);
    assert(exchange(p, to, them, occ1, see_value(mv.spec_promotion().unwrap())) == 0);
}

/// A move that neither promotes nor captures en passant, onto a square that
/// no enemy piece attacks once the mover has left, wins exactly what stands
/// there: nothing on an empty square.
pub proof fn lemma_see_unanswered_move(b: Board, mv: Move)
    requires
        b.wf(),
        b@.squares[mv.spec_from().0 as int] is Some,
        mv.spec_promotion() is None,
        mv.spec_flag() != flag::EN_PASSANT,
        attackers_spec(b@, mv.spec_to().0 as int, b@.occupied_set().remove(mv.spec_from().0 as int)).intersect(
            b@.color_set(b@.stm.spec_flip()),
        ) == Set::<int>::empty(),
    ensures
        see_value_of(b@, mv) == (match b@.squares[mv.spec_to().0 as int] {
            Some(pc) => PIECE_VALUE[pc.spec_piece_type().spec_index() as int] as int,
            None => 0int,
        }),
{
    let p = b@;
    lemma_move_bounds(mv);
    lemma_occupancy_word(b);
    let o = choose|o: u64| #[trigger] Bitboard(o)@ == p.occupied_set();
    lemma_occupancy(p, o);
    let from = mv.spec_from().0 as int;
    let to = mv.spec_to().0 as int;
    let occ1 = o ^ (1u64 << (from as u64));
    crate::bits::lemma_xor(o, 1u64 << (from as u64));
    crate::bits::lemma_single(from as u64);
    assert(Bitboard(occ1)@ =~= p.occupied_set().remove(from)) by {
        assert forall|i: int| #[trigger] Bitboard(occ1)@.contains(i) <==> p.occupied_set().remove(from).contains(i) by {
            assert(Bitboard(o)@.contains(i) == bit(o, i));
        }
    }
    let them = p.stm.spec_flip();
    let a = side_attackers(p, to, them, Bitboard(occ1)@);
    assert(a =~= Set::<int>::empty()) by {
        assert forall|i: int| !a.contains(i) by {
            if a.contains(i) {
                assert(attackers_spec(p, to, p.occupied_set().remove(from)).intersect(p.color_set(them)).contains(i));
            }
        }
    }
    lemma_no_kind(p, a, 0);
    assert(exchange(p, to, them, occ1, see_value(p.squares[from].unwrap().spec_piece_type())) == 0);
}

/// What the opponent wins back by recapturing is never negative (it may
/// decline) and never more than the piece standing on the square.
proof fn lemma_exchange_bounds(p: Position, to: int, side: Color, occ: u64, v: int)
    requires
        v >= 0,
    ensures
        0 <= exchange(p, to, side, occ, v) <= v,
{
    match cheapest_attacker(p, to, side, Bitboard(occ)@) {
        Some((sq, k)) => {
            if 0 <= sq < 64 && bit(occ, sq) {
                lemma_clear_bit(occ, sq as u64);
                let inner = exchange(p, to, side.spec_flip(), occ ^ (1u64 << (sq as u64)), see_value(k));
                assert(inner >= 0);
            }
        },
        None => {},
    }
}

/// The exchange value of any move lies between what the move wins outright
/// (what it captures, plus a promotion's upgrade over the pawn) less the
/// piece that arrives on the square, and what it wins outright: the opponent
/// can at most win back the arriving piece, and may decline to recapture.
pub proof fn lemma_see_bounds(b: Board, mv: Move)
    requires
        b.wf(),
        b@.squares[mv.spec_from().0 as int] is Some,
    ensures
        ({
            let to = mv.spec_to().0 as int;
            let won = if mv.spec_flag() == flag::EN_PASSANT {
                PIECE_VALUE[PieceType::Pawn.spec_index() as int] as int
            } else {
                match b@.squares[to] {
                    Some(pc) => PIECE_VALUE[pc.spec_piece_type().spec_index() as int] as int,
                    None => 0int,
                }
            };
            let (gain, arriving) = match mv.spec_promotion() {
                Some(pr) => (won + PIECE_VALUE[pr.spec_index() as int] - PIECE_VALUE[PieceType::Pawn.spec_index() as int],
                    PIECE_VALUE[pr.spec_index() as int] as int),
                None => (won, PIECE_VALUE[b@.squares[mv.spec_from().0 as int].unwrap().spec_piece_type().spec_index() as int] as int),
            };
            gain - arriving <= see_value_of(b@, mv) <= gain
        }),
{
    let p = b@;
    lemma_move_bounds(mv);
    lemma_occupancy_word(b);
    let o = choose|o: u64| #[trigger] Bitboard(o)@ == p.occupied_set();
    lemma_occupancy(p, o);
    let from = mv.spec_from().0 as int;
    let to = mv.spec_to().0 as int;
    let occ0 = o ^ (1u64 << (from as u64));
    let occ1 = if mv.spec_flag() == flag::EN_PASSANT {
        occ0 ^ (1u64 << (ep_victim(mv) as u64))
    } else {
        occ0
    };
    let on_square = match mv.spec_promotion() {
        Some(pr) => see_value(pr),
        None => see_value(p.squares[from].unwrap().spec_piece_type()),
    };
    assert(on_square >= 0);
    lemma_exchange_bounds(p, to, p.stm.spec_flip(), occ1, on_square);
}

/// True if the static exchange evaluation of `mv` is at least `threshold`
/// centipawns.
pub fn see_ge(board: &Board, mv: Move, threshold: i32) -> (r: bool)
    requires
        board.wf(),
        board@.squares[mv.spec_from().0 as int] is Some,
    ensures
        r == (see_value_of(board@, mv) >= threshold),
{
    see(board, mv) >= threshold
}

} // verus!
