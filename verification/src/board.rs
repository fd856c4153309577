//! The board representation: bitboards plus a square-to-piece mailbox, full
//! game state, and `make`/`unmake` with incremental Zobrist hashing.

use vstd::prelude::*;
use crate::attacks::{king_attacks, knight_attacks, pawn_attacks, king_set, knight_set, pawn_set};
use crate::bitboard::{Bitboard, lemma_view_ext};
use crate::magic::{bishop_attacks, rook_attacks, bishop_set, rook_set};
use crate::moves::{flag, Move, lemma_move_bounds};
use crate::position::{Position, apply_move, apply_null, move_ok, null_ok, moved_squares, ep_victim, castle_mask, position_key, squares_hash, side_term, ep_term, lemma_xor, lemma_piece_parts, lemma_xor_cancel, lemma_key_square, lemma_key_fields};
use crate::types::{CastlingRights, Color, Piece, PieceType, Square};
use crate::zobrist::{key, CASTLING_BASE, EP_BASE, SIDE_INDEX};

verus! {

/// Information captured before a move so it can be exactly undone.
#[derive(Clone, Copy)]
pub struct Undo {
    captured: Option<Piece>,
    castling: CastlingRights,
    ep_square: Option<Square>,
    halfmove: u16,
    key: u64,
}

/// A full chess position.
///
/// Pieces are stored both as bitboards (by kind and by color) for fast set
/// operations and as a 64-entry mailbox for fast "what is on this square"
/// lookups; the two are kept consistent by the private add/remove/move
/// helpers, which also maintain the incremental Zobrist key.
#[derive(Clone, Copy, PartialEq, Eq)]
pub struct Board {
    by_type: [Bitboard; 6],
    by_color: [Bitboard; 2],
    mailbox: [Option<Piece>; 64],
    stm: Color,
    castling: CastlingRights,
    ep_square: Option<Square>,
    halfmove: u16,
    fullmove: u16,
    key: u64,
}

impl View for Board {
    type V = Position;

    closed spec fn view(&self) -> Position {
        Position {
            squares: self.mailbox@,
            stm: self.stm,
            castling: self.castling.0,
            ep: self.ep_square,
            halfmove: self.halfmove,
            fullmove: self.fullmove,
        }
    }
}

impl Board {
    /// The bitboards agree with the mailbox.
    pub closed spec fn bb_ok(&self) -> bool {
        &&& forall|k: int, i: int|
            0 <= k < 6 ==> (#[trigger] self.by_type[k]@.contains(i) <==> (0 <= i < 64
                && self.mailbox@[i] is Some && self.mailbox@[i].unwrap().spec_piece_type().spec_index() == k))
        &&& forall|c: int, i: int|
            0 <= c < 2 ==> (#[trigger] self.by_color[c]@.contains(i) <==> (0 <= i < 64
                && self.mailbox@[i] is Some && self.mailbox@[i].unwrap().spec_color().spec_index() == c))
    }

    /// Structural well-formedness: consistent bitboards and a valid position.
    pub closed spec fn wf(&self) -> bool {
        &&& self.bb_ok()
        &&& self@.valid()
    }

    /// The stored hash is the Zobrist hash of the position.
    pub closed spec fn key_ok(&self) -> bool {
        self.key == position_key(self@)
    }

    /// Two positions agree on everything but the squares.
    pub open spec fn same_game_state(a: Position, b: Position) -> bool {
        &&& a.stm == b.stm
        &&& a.castling == b.castling
        &&& a.ep == b.ep
        &&& a.halfmove == b.halfmove
        &&& a.fullmove == b.fullmove
    }

    /// A well-formed board whose hash is up to date.
    pub open spec fn valid(&self) -> bool {
        self.wf() && self.key_ok()
    }

    pub closed spec fn spec_key(&self) -> u64 {
        self.key
    }

    /// The state saved before playing `mv` on `p`.
    pub closed spec fn undo_of(p: Position, mv: Move) -> Undo {
        let to = mv.spec_to().0 as int;
        let f = mv.spec_flag();
        Undo {
            captured: if f == flag::EN_PASSANT {
                p.squares[ep_victim(mv)]
            } else if mv.spec_is_capture() {
                p.squares[to]
            } else {
                None
            },
            castling: CastlingRights(p.castling),
            ep_square: p.ep,
            halfmove: p.halfmove,
            key: position_key(p),
        }
    }

    /// The state saved before a null move on `p`.
    pub closed spec fn null_undo_of(p: Position) -> Undo {
        Undo {
            captured: None,
            castling: CastlingRights(p.castling),
            ep_square: p.ep,
            halfmove: p.halfmove,
            key: position_key(p),
        }
    }

    /// The squares before `mv` was played, reconstructed from those after it.
    pub closed spec fn unmoved_squares(q: Position, mv: Move, u: Undo) -> Seq<Option<Piece>> {
        let from = mv.spec_from().0 as int;
        let to = mv.spec_to().0 as int;
        let f = mv.spec_flag();
        let them = q.stm;
        let us = them.spec_flip();
        let sq = q.squares;
        let base = (from / 8) * 8;
        if f == flag::EN_PASSANT {
            sq.update(to, None).update(from, sq[to]).update(
                ep_victim(mv),
                Some(Piece::spec_make(them, PieceType::Pawn)),
            )
        } else if f == flag::KING_CASTLE {
            let s1 = sq.update(to, None).update(from, sq[to]);
            s1.update(base + 5, None).update(base + 7, s1[base + 5])
        } else if f == flag::QUEEN_CASTLE {
            let s1 = sq.update(to, None).update(from, sq[to]);
            s1.update(base + 3, None).update(base, s1[base + 3])
        } else {
            let s1 = if mv.spec_is_promotion() {
                sq.update(to, None).update(from, Some(Piece::spec_make(us, PieceType::Pawn)))
            } else {
                sq.update(to, None).update(from, sq[to])
            };
            if mv.spec_is_capture() {
                s1.update(to, u.captured)
            } else {
                s1
            }
        }
    }

    /// The position before `mv` was played, reconstructed from the position
    /// after it and the saved state.
    pub closed spec fn unapply(q: Position, mv: Move, u: Undo) -> Position {
        let us = q.stm.spec_flip();
        Position {
            squares: Self::unmoved_squares(q, mv, u),
            stm: us,
            castling: u.castling.0,
            ep: u.ep_square,
            halfmove: u.halfmove,
            fullmove: if us == Color::Black {
                (q.fullmove - 1) as u16
            } else {
                q.fullmove
            },
        }
    }

    /// `u` is the saved state of a legal-to-play move `mv` whose result is `q`.
    pub open spec fn undoable(q: Position, mv: Move, u: Undo) -> bool {
        let p0 = Self::unapply(q, mv, u);
        &&& move_ok(p0, mv)
        &&& apply_move(p0, mv) == q
        &&& u == Self::undo_of(p0, mv)
    }

    /// `u` is the saved state of a null move whose result is `q`.
    pub closed spec fn null_undoable(q: Position, u: Undo) -> bool {
        let p0 = Position {
            squares: q.squares,
            stm: q.stm.spec_flip(),
            castling: u.castling.0,
            ep: u.ep_square,
            halfmove: u.halfmove,
            fullmove: if q.stm.spec_flip() == Color::Black {
                (q.fullmove - 1) as u16
            } else {
                q.fullmove
            },
        };
        &&& p0.valid()
        &&& null_ok(p0)
        &&& apply_null(p0) == q
        &&& u == Self::null_undo_of(p0)
    }
}

proof fn lemma_inverse_squares_ep(p: Position, mv: Move)
    requires
        move_ok(p, mv),
        mv.spec_flag() == flag::EN_PASSANT,
    ensures
        Board::unmoved_squares(apply_move(p, mv), mv, Board::undo_of(p, mv)) =~= p.squares,
{
    lemma_move_bounds(mv);
    let from = mv.spec_from().0 as int;
    let to = mv.spec_to().0 as int;
    let v = ep_victim(mv);
    let sq = p.squares;
    let q = apply_move(p, mv).squares;
    assert(q == sq.update(v, None).update(from, None).update(to, sq[from]));
    assert(v != from);
    assert(v != to);
    let r = Board::unmoved_squares(apply_move(p, mv), mv, Board::undo_of(p, mv));
    assert(r == q.update(to, None).update(from, q[to]).update(
        v,
        Some(Piece::spec_make(p.stm.spec_flip(), PieceType::Pawn)),
    ));
    assert forall|i: int| 0 <= i < 64 implies r[i] == sq[i] by {
        if i == v {
        } else if i == from {
        } else if i == to {
        } else {
        }
    }
}

proof fn lemma_inverse_squares_king_castle(p: Position, mv: Move)
    requires
        move_ok(p, mv),
        mv.spec_flag() == flag::KING_CASTLE,
    ensures
        Board::unmoved_squares(apply_move(p, mv), mv, Board::undo_of(p, mv)) =~= p.squares,
{
    lemma_move_bounds(mv);
    let from = mv.spec_from().0 as int;
    let to = mv.spec_to().0 as int;
    let base = (from / 8) * 8;
    assert(base + 4 == from);
    let sq = p.squares;
    let s1 = sq.update(from, None).update(to, sq[from]);
    let q = apply_move(p, mv).squares;
    assert(q == s1.update(base + 7, None).update(base + 5, s1[base + 7]));
    let t1 = q.update(to, None).update(from, q[to]);
    let r = Board::unmoved_squares(apply_move(p, mv), mv, Board::undo_of(p, mv));
    assert(r == t1.update(base + 5, None).update(base + 7, t1[base + 5]));
    assert forall|i: int| 0 <= i < 64 implies r[i] == sq[i] by {
    }
}

proof fn lemma_inverse_squares_queen_castle(p: Position, mv: Move)
    requires
        move_ok(p, mv),
        mv.spec_flag() == flag::QUEEN_CASTLE,
    ensures
        Board::unmoved_squares(apply_move(p, mv), mv, Board::undo_of(p, mv)) =~= p.squares,
{
    lemma_move_bounds(mv);
    let from = mv.spec_from().0 as int;
    let to = mv.spec_to().0 as int;
    let base = (from / 8) * 8;
    assert(base + 4 == from);
    let sq = p.squares;
    let s1 = sq.update(from, None).update(to, sq[from]);
    let q = apply_move(p, mv).squares;
    assert(q == s1.update(base, None).update(base + 3, s1[base]));
    let t1 = q.update(to, None).update(from, q[to]);
    let r = Board::unmoved_squares(apply_move(p, mv), mv, Board::undo_of(p, mv));
    assert(r == t1.update(base + 3, None).update(base, t1[base + 3]));
    assert forall|i: int| 0 <= i < 64 implies r[i] == sq[i] by {
    }
}

proof fn lemma_inverse_squares_plain(p: Position, mv: Move)
    requires
        move_ok(p, mv),
        mv.spec_flag() != flag::EN_PASSANT,
        mv.spec_flag() != flag::KING_CASTLE,
        mv.spec_flag() != flag::QUEEN_CASTLE,
    ensures
        Board::unmoved_squares(apply_move(p, mv), mv, Board::undo_of(p, mv)) =~= p.squares,
{
    lemma_move_bounds(mv);
    let from = mv.spec_from().0 as int;
    let to = mv.spec_to().0 as int;
    let sq = p.squares;
    let us = p.stm;
    let s1 = if mv.spec_is_capture() {
        sq.update(to, None)
    } else {
        sq
    };
    let q = apply_move(p, mv).squares;
    let r = Board::unmoved_squares(apply_move(p, mv), mv, Board::undo_of(p, mv));
    let moving = sq[from].unwrap();
    if mv.spec_is_promotion() {
        let pt = mv.spec_promotion().unwrap();
        assert(q == s1.update(from, None).update(to, Some(Piece::spec_make(us, pt))));
        lemma_piece_parts();
        assert(Piece::spec_make(moving.spec_color(), moving.spec_piece_type()) == moving);
        assert(Piece::spec_make(us, PieceType::Pawn) == moving);
        let t1 = q.update(to, None).update(from, Some(Piece::spec_make(us, PieceType::Pawn)));
        if mv.spec_is_capture() {
            assert(r == t1.update(to, sq[to]));
        } else {
            assert(r == t1);
        }
    } else {
        assert(q == s1.update(from, None).update(to, sq[from]));
        let t1 = q.update(to, None).update(from, q[to]);
        if mv.spec_is_capture() {
            assert(r == t1.update(to, sq[to]));
        } else {
            assert(r == t1);
        }
    }
    assert forall|i: int| 0 <= i < 64 implies r[i] == sq[i] by {
    }
}

/// Playing a move and then taking it back with its saved state restores the
/// position it was played in exactly.
pub proof fn lemma_unmake_inverts_make(p: Position, mv: Move)
    requires
        move_ok(p, mv),
    ensures
        Board::unapply(apply_move(p, mv), mv, Board::undo_of(p, mv)) == p,
        Board::undoable(apply_move(p, mv), mv, Board::undo_of(p, mv)),
{
    let f = mv.spec_flag();
    if f == flag::EN_PASSANT {
        lemma_inverse_squares_ep(p, mv);
    } else if f == flag::KING_CASTLE {
        lemma_inverse_squares_king_castle(p, mv);
    } else if f == flag::QUEEN_CASTLE {
        lemma_inverse_squares_queen_castle(p, mv);
    } else {
        lemma_inverse_squares_plain(p, mv);
    }
    let r = Board::unapply(apply_move(p, mv), mv, Board::undo_of(p, mv));
    assert(r.squares == p.squares);
    assert(r == p);
}

/// Passing the turn and taking it back restores the position exactly.
pub proof fn lemma_unmake_null_inverts_make_null(p: Position)
    requires
        p.valid(),
        null_ok(p),
    ensures
        Board::null_undoable(apply_null(p), Board::null_undo_of(p)),
{
}

/// Taking back a null move restores the position it was played on.
pub proof fn lemma_null_restored(p: Position, q: Position)
    requires
        p.valid(),
        null_ok(p),
        apply_null(q) == apply_null(p),
        Board::null_undo_of(q) == Board::null_undo_of(p),
    ensures
        q == p,
{
    assert(q.stm == p.stm) by {
        assert(q.stm.spec_flip() == p.stm.spec_flip());
    }
    assert(q.squares == p.squares);
    assert(q.castling == p.castling);
    assert(q.fullmove == p.fullmove) by {
        if p.stm == Color::Black {
            let a = q.fullmove;
            let b = p.fullmove;
            assert((a + 1) as u16 == (b + 1) as u16);
            assert(a == b) by (bit_vector)
                requires
                    (a + 1) as u16 == (b + 1) as u16,
                    b < 65535,
            ;
        }
    }
}

/// Two well-formed boards with the same position and hash are the same board.
pub proof fn lemma_view_determines(a: Board, b: Board)
    requires
        a.wf(),
        b.wf(),
        a@ == b@,
        a.spec_key() == b.spec_key(),
    ensures
        a == b,
{
    assert forall|k: int| 0 <= k < 6 implies a.by_type[k] == b.by_type[k] by {
        assert(a.by_type[k]@ =~= b.by_type[k]@);
        lemma_view_ext(a.by_type[k], b.by_type[k]);
    }
    assert forall|c: int| 0 <= c < 2 implies a.by_color[c] == b.by_color[c] by {
        assert(a.by_color[c]@ =~= b.by_color[c]@);
        lemma_view_ext(a.by_color[c], b.by_color[c]);
    }
    assert(a.by_type =~= b.by_type);
    assert(a.by_color =~= b.by_color);
    assert(a.mailbox@ =~= b.mailbox@);
    assert(a.mailbox =~= b.mailbox);
}

/// A well-formed board's position is structurally valid.
pub proof fn lemma_wf(b: Board)
    requires
        b.wf(),
    ensures
        b@.valid(),
{
}

/// The occupied squares of a well-formed board form a bit word.
pub proof fn lemma_occupancy_word(b: Board)
    requires
        b.wf(),
    ensures
        exists|o: u64| #[trigger] Bitboard(o)@ == b@.occupied_set(),
{
    let o = b.by_color[0].0 | b.by_color[1].0;
    crate::bits::lemma_or(b.by_color[0].0, b.by_color[1].0);
    assert forall|i: int| #[trigger] Bitboard(o)@.contains(i) <==> b@.occupied_set().contains(i) by {
        assert(b.by_color[0]@.contains(i) == crate::bits::bit(b.by_color[0].0, i));
        assert(b.by_color[1]@.contains(i) == crate::bits::bit(b.by_color[1].0, i));
        if 0 <= i < 64 && b@.squares[i] is Some {
            let c = b@.squares[i].unwrap().spec_color().spec_index() as int;
            assert(b.by_color[c]@.contains(i));
        }
    }
    assert(Bitboard(o)@ =~= b@.occupied_set());
}

/// Equal positions have equal hashes.
pub proof fn lemma_key_determined(a: Board, b: Board)
    requires
        a.valid(),
        b.valid(),
        a@ == b@,
    ensures
        a.spec_key() == b.spec_key(),
        a == b,
{
    lemma_view_determines(a, b);
}


/// The pieces of either color that attack square `s` under occupancy `occ`:
/// pawns, knights and kings that attack it from their squares, and rooks,
/// bishops and queens whose lines reach it.
pub open spec fn attackers_spec(p: Position, s: int, occ: Set<int>) -> Set<int> {
    pawn_set(Color::White, s).intersect(p.set_of(Color::Black, PieceType::Pawn))
        .union(pawn_set(Color::Black, s).intersect(p.set_of(Color::White, PieceType::Pawn)))
        .union(knight_set(s).intersect(p.type_set(PieceType::Knight)))
        .union(king_set(s).intersect(p.type_set(PieceType::King)))
        .union(rook_set(s, occ).intersect(p.type_set(PieceType::Rook).union(p.type_set(PieceType::Queen))))
        .union(bishop_set(s, occ).intersect(p.type_set(PieceType::Bishop).union(p.type_set(PieceType::Queen))))
}

/// The square of `c`'s king as [`Board::king_square`] finds it: the lowest
/// square holding that king, or square 64 when there is none.
pub open spec fn king_square_spec(p: Position, c: Color) -> int {
    if p.has_king(c) {
        choose|i: int| 0 <= i < 64 && p.squares[i] == Some(Piece::spec_make(c, PieceType::King))
            && forall|j: int| 0 <= j < i ==> p.squares[j] != Some(Piece::spec_make(c, PieceType::King))
    } else {
        64
    }
}

impl Board {
    /// An empty board with White to move and no rights, hashed as that
    /// position.
    pub fn empty() -> (r: Board)
        ensures
            r.wf(),
            r@.squares == Seq::new(64, |i: int| None::<Piece>),
            r@.stm == Color::White,
            r@.castling == 0,
            r@.ep is None,
            r@.halfmove == 0,
            r@.fullmove == 1,
            r.valid(),
    {
        let mut r = Board {
            by_type: [Bitboard::empty(); 6],
            by_color: [Bitboard::empty(); 2],
            mailbox: [None; 64],
            stm: Color::White,
            castling: CastlingRights::none(),
            ep_square: None,
            halfmove: 0,
            fullmove: 1,
            key: 0,
        };
        assert(r.mailbox@ =~= Seq::new(64, |i: int| None::<Piece>));
        r.key = r.compute_key();
        r
    }

    /// Side to move.
    pub fn side_to_move(&self) -> (r: Color)
        ensures
            r == self@.stm,
    {
        self.stm
    }

    /// Castling rights.
    pub fn castling_rights(&self) -> (r: CastlingRights)
        ensures
            r.0 == self@.castling,
    {
        self.castling
    }

    /// The en-passant target square, if any.
    pub fn en_passant(&self) -> (r: Option<Square>)
        ensures
            r == self@.ep,
    {
        self.ep_square
    }

    /// The halfmove clock (plies since the last pawn move or capture).
    pub fn halfmove_clock(&self) -> (r: u16)
        ensures
            r == self@.halfmove,
    {
        self.halfmove
    }

    /// The fullmove number (starts at 1, increments after Black moves).
    pub fn fullmove_number(&self) -> (r: u16)
        ensures
            r == self@.fullmove,
    {
        self.fullmove
    }

    /// The incrementally-maintained Zobrist hash of the position.
    pub fn zobrist_key(&self) -> (r: u64)
        ensures
            r == self.spec_key(),
            self.key_ok() ==> r == position_key(self@),
    {
        self.key
    }

    /// The piece on `sq`, if any.
    pub fn piece_on(&self, sq: Square) -> (r: Option<Piece>)
        requires
            sq.0 < 64,
        ensures
            r == self@.squares[sq.0 as int],
    {
        self.mailbox[sq.index()]
    }

    /// All occupied squares.
    pub fn occupied(&self) -> (r: Bitboard)
        requires
            self.wf(),
        ensures
            r@ == self@.occupied_set(),
    {
        let r = self.by_color[0].or(self.by_color[1]);
        assert forall|i: int| #[trigger] r@.contains(i) <==> self@.occupied_set().contains(i) by {
            assert(self.by_color[0]@.contains(i) == self.by_color[0]@.contains(i));
            assert(self.by_color[1]@.contains(i) == self.by_color[1]@.contains(i));
        }
        assert(r@ =~= self@.occupied_set());
        r
    }

    /// All squares occupied by `color`.
    pub fn color_bb(&self, color: Color) -> (r: Bitboard)
        requires
            self.wf(),
        ensures
            r@ == self@.color_set(color),
    {
        let r = self.by_color[color.index()];
        assert forall|i: int| #[trigger] r@.contains(i) <==> self@.color_set(color).contains(i) by {
            assert(self.by_color[color.spec_index() as int]@.contains(i) == r@.contains(i));
        }
        assert(r@ =~= self@.color_set(color));
        r
    }

    /// All pieces of a kind, both colors.
    pub fn pieces(&self, kind: PieceType) -> (r: Bitboard)
        requires
            self.wf(),
        ensures
            r@ == self@.type_set(kind),
    {
        let r = self.by_type[kind.index()];
        assert forall|i: int| #[trigger] r@.contains(i) <==> self@.type_set(kind).contains(i) by {
            assert(self.by_type[kind.spec_index() as int]@.contains(i) == r@.contains(i));
        }
        assert(r@ =~= self@.type_set(kind));
        r
    }

    /// All pieces of a kind belonging to `color`.
    pub fn pieces_colored(&self, color: Color, kind: PieceType) -> (r: Bitboard)
        requires
            self.wf(),
        ensures
            r@ == self@.set_of(color, kind),
    {
        let r = self.pieces(kind).and(self.color_bb(color));
        proof {
            lemma_piece_parts();
            assert forall|i: int| #[trigger] r@.contains(i) <==> self@.set_of(color, kind).contains(i) by {
                if r@.contains(i) {
                    let p = self@.squares[i].unwrap();
                    assert(Piece::spec_make(p.spec_color(), p.spec_piece_type()) == p);
                }
            }
        }
        assert(r@ =~= self@.set_of(color, kind));
        r
    }

    /// The square of `color`'s king (the lowest one if there are several), or
    /// square 64 when `color` has no king.
    pub fn king_square(&self, color: Color) -> (r: Square)
        requires
            self.wf(),
        ensures
            r.0 == king_square_spec(self@, color),
            self@.has_king(color) ==> r.0 < 64 && self@.squares[r.0 as int] == Some(
                Piece::spec_make(color, PieceType::King),
            ),
            !self@.has_king(color) ==> r.0 == 64,
    {
        let kings = self.pieces_colored(color, PieceType::King);
        let r = kings.lsb();
        proof {
            let kp = Piece::spec_make(color, PieceType::King);
            if self@.has_king(color) {
                let w = choose|i: int| 0 <= i < 64 && self@.squares[i] == Some(kp);
                assert(kings@.contains(w));
                assert(kings.0 != 0);
                let c = king_square_spec(self@, color);
                assert(0 <= r.0 < 64 && self@.squares[r.0 as int] == Some(kp) && forall|j: int|
                    0 <= j < r.0 ==> self@.squares[j] != Some(kp)) by {
                    assert forall|j: int| 0 <= j < r.0 implies self@.squares[j] != Some(kp) by {
                        if self@.squares[j] == Some(kp) {
                            assert(kings@.contains(j));
                        }
                    }
                }
                assert(c == r.0 as int);
            } else {
                if kings.0 != 0 {
                    assert(kings@.contains(r.0 as int));
                }
            }
        }
        r
    }

    /// All pieces of either color that attack `sq` given occupancy `occ`.
    pub fn attackers_to(&self, sq: Square, occ: Bitboard) -> (r: Bitboard)
        requires
            self.wf(),
            sq.0 < 64,
        ensures
            r@ == attackers_spec(self@, sq.0 as int, occ@),
    {
        let a = pawn_attacks(Color::White, sq).and(self.pieces_colored(Color::Black, PieceType::Pawn));
        let b = pawn_attacks(Color::Black, sq).and(self.pieces_colored(Color::White, PieceType::Pawn));
        let c = knight_attacks(sq).and(self.pieces(PieceType::Knight));
        let d = king_attacks(sq).and(self.pieces(PieceType::King));
        let e = rook_attacks(sq, occ).and(self.pieces(PieceType::Rook).or(self.pieces(PieceType::Queen)));
        let f = bishop_attacks(sq, occ).and(self.pieces(PieceType::Bishop).or(self.pieces(PieceType::Queen)));
        a.or(b).or(c).or(d).or(e).or(f)
    }

    /// Enemy pieces giving check to the side to move.
    pub fn checkers(&self) -> (r: Bitboard)
        requires
            self.wf(),
            self@.has_king(self@.stm),
        ensures
            r@ == attackers_spec(self@, king_square_spec(self@, self@.stm), self@.occupied_set())
                .intersect(self@.color_set(self@.stm.spec_flip())),
    {
        let king = self.king_square(self.stm);
        self.attackers_to(king, self.occupied()).and(self.color_bb(self.stm.flip()))
    }

    /// True if the side to move is in check.
    pub fn in_check(&self) -> (r: bool)
        requires
            self.wf(),
            self@.has_king(self@.stm),
        ensures
            r == (attackers_spec(self@, king_square_spec(self@, self@.stm), self@.occupied_set())
                .intersect(self@.color_set(self@.stm.spec_flip())) != Set::<int>::empty()),
    {
        self.checkers().any()
    }
}


impl Board {
    /// Everything but the squares and the hash is unchanged.
    closed spec fn same_state(a: Board, b: Board) -> bool {
        &&& a.stm == b.stm
        &&& a.castling == b.castling
        &&& a.ep_square == b.ep_square
        &&& a.halfmove == b.halfmove
        &&& a.fullmove == b.fullmove
    }

    fn add_piece(&mut self, pc: Piece, sq: Square)
        requires
            old(self).bb_ok(),
            sq.0 < 64,
            old(self).mailbox@[sq.0 as int] is None,
        ensures
            final(self).bb_ok(),
            final(self).mailbox@ == old(self).mailbox@.update(sq.0 as int, Some(pc)),
            Self::same_state(*old(self), *final(self)),
            final(self).key_ok() == old(self).key_ok(),
    {
        let ghost old_self = *self;
        let bb = Bitboard::from_square(sq);
        let t = pc.piece_type().index();
        let c = pc.color().index();
        let nt = self.by_type[t].or(bb);
        self.by_type[t] = nt;
        let nc = self.by_color[c].or(bb);
        self.by_color[c] = nc;
        self.mailbox[sq.index()] = Some(pc);
        let k = key(pc.index() as u64 * 64 + sq.0 as u64);
        self.key = self.key ^ k;
        proof {
            let s = sq.0 as int;
            assert forall|kk: int, i: int|
                0 <= kk < 6 implies (#[trigger] self.by_type[kk]@.contains(i) <==> (0 <= i < 64
                && self.mailbox@[i] is Some && self.mailbox@[i].unwrap().spec_piece_type().spec_index()
                == kk)) by {
                assert(old_self.by_type[kk]@.contains(i) <==> (0 <= i < 64 && old_self.mailbox@[i] is Some
                    && old_self.mailbox@[i].unwrap().spec_piece_type().spec_index() == kk));
            }
            assert forall|cc: int, i: int|
                0 <= cc < 2 implies (#[trigger] self.by_color[cc]@.contains(i) <==> (0 <= i < 64
                && self.mailbox@[i] is Some && self.mailbox@[i].unwrap().spec_color().spec_index() == cc)) by {
                assert(old_self.by_color[cc]@.contains(i) <==> (0 <= i < 64 && old_self.mailbox@[i] is Some
                    && old_self.mailbox@[i].unwrap().spec_color().spec_index() == cc));
            }
            lemma_key_square(old_self@, s, Some(pc));
            assert(self@ == Position { squares: old_self@.squares.update(s, Some(pc)), ..old_self@ });
            lemma_xor(position_key(old_self@), 0, k);
            lemma_xor_cancel(old_self.key, position_key(old_self@), k);
        }
    }

    fn remove_piece(&mut self, sq: Square) -> (r: Piece)
        requires
            old(self).bb_ok(),
            sq.0 < 64,
            old(self).mailbox@[sq.0 as int] is Some,
        ensures
            r == old(self).mailbox@[sq.0 as int].unwrap(),
            final(self).bb_ok(),
            final(self).mailbox@ == old(self).mailbox@.update(sq.0 as int, None),
            Self::same_state(*old(self), *final(self)),
            final(self).key_ok() == old(self).key_ok(),
    {
        let ghost old_self = *self;
        let pc = self.mailbox[sq.index()].unwrap();
        let bb = Bitboard::from_square(sq);
        let t = pc.piece_type().index();
        let c = pc.color().index();
        let nt = self.by_type[t].xor(bb);
        self.by_type[t] = nt;
        let nc = self.by_color[c].xor(bb);
        self.by_color[c] = nc;
        self.mailbox[sq.index()] = None;
        let k = key(pc.index() as u64 * 64 + sq.0 as u64);
        self.key = self.key ^ k;
        proof {
            let s = sq.0 as int;
            assert forall|kk: int, i: int|
                0 <= kk < 6 implies (#[trigger] self.by_type[kk]@.contains(i) <==> (0 <= i < 64
                && self.mailbox@[i] is Some && self.mailbox@[i].unwrap().spec_piece_type().spec_index()
                == kk)) by {
                assert(old_self.by_type[kk]@.contains(i) <==> (0 <= i < 64 && old_self.mailbox@[i] is Some
                    && old_self.mailbox@[i].unwrap().spec_piece_type().spec_index() == kk));
                assert(old_self.by_type[kk]@.contains(s) <==> (old_self.mailbox@[s].unwrap().spec_piece_type().spec_index() == kk));
            }
            assert forall|cc: int, i: int|
                0 <= cc < 2 implies (#[trigger] self.by_color[cc]@.contains(i) <==> (0 <= i < 64
                && self.mailbox@[i] is Some && self.mailbox@[i].unwrap().spec_color().spec_index() == cc)) by {
                assert(old_self.by_color[cc]@.contains(i) <==> (0 <= i < 64 && old_self.mailbox@[i] is Some
                    && old_self.mailbox@[i].unwrap().spec_color().spec_index() == cc));
                assert(old_self.by_color[cc]@.contains(s) <==> (old_self.mailbox@[s].unwrap().spec_color().spec_index() == cc));
            }
            lemma_key_square(old_self@, s, None);
            assert(self@ == Position { squares: old_self@.squares.update(s, None), ..old_self@ });
            lemma_xor(position_key(old_self@) ^ k, 0, 0);
            lemma_xor_cancel(old_self.key, position_key(old_self@), k);
        }
        pc
    }

    fn move_piece(&mut self, from: Square, to: Square)
        requires
            old(self).bb_ok(),
            from.0 < 64,
            to.0 < 64,
            from.0 != to.0,
            old(self).mailbox@[from.0 as int] is Some,
            old(self).mailbox@[to.0 as int] is None,
        ensures
            final(self).bb_ok(),
            final(self).mailbox@ == old(self).mailbox@.update(from.0 as int, None).update(
                to.0 as int,
                old(self).mailbox@[from.0 as int],
            ),
            Self::same_state(*old(self), *final(self)),
            final(self).key_ok() == old(self).key_ok(),
    {
        let pc = self.remove_piece(from);
        self.add_piece(pc, to);
    }
}


/// The castling bits that survive a move touching square `sq`.
fn castle_mask_of(sq: Square) -> (r: u8)
    ensures
        r == castle_mask(sq.0 as int),
{
    if sq.0 == 0 {
        13
    } else if sq.0 == 4 {
        12
    } else if sq.0 == 7 {
        14
    } else if sq.0 == 56 {
        7
    } else if sq.0 == 60 {
        3
    } else if sq.0 == 63 {
        11
    } else {
        15
    }
}

impl Board {
    /// Replace the en-passant square, keeping the hash in step.
    fn set_ep(&mut self, ep: Option<Square>)
        requires
            (old(self).ep_square matches Some(e) ==> e.0 < 64),
            (ep matches Some(e) ==> e.0 < 64),
        ensures
            final(self)@ == (Position { ep, ..old(self)@ }),
            final(self).by_type == old(self).by_type,
            final(self).by_color == old(self).by_color,
            final(self).key_ok() == old(self).key_ok(),
    {
        let ghost old_self = *self;
        let mut k = self.key;
        if let Some(e) = self.ep_square {
            k = k ^ key(EP_BASE + e.file() as u64);
        }
        if let Some(e) = ep {
            k = k ^ key(EP_BASE + e.file() as u64);
        }
        self.key = k;
        self.ep_square = ep;
        proof {
            lemma_key_fields(old_self@);
            let a = ep_term(old_self.ep_square);
            let b = ep_term(ep);
            assert(k == (old_self.key ^ a) ^ b) by {
                lemma_xor(old_self.key, 0, 0);
                lemma_xor(old_self.key ^ a, 0, 0);
                lemma_xor(old_self.key, a, 0);
            }
            lemma_xor_cancel(old_self.key, position_key(old_self@), a);
            lemma_xor_cancel(old_self.key ^ a, position_key(old_self@) ^ a, b);
        }
    }

    /// Replace the castling rights, keeping the hash in step.
    fn set_castling(&mut self, rights: CastlingRights)
        ensures
            final(self)@ == (Position { castling: rights.0, ..old(self)@ }),
            final(self).by_type == old(self).by_type,
            final(self).by_color == old(self).by_color,
            final(self).key_ok() == old(self).key_ok(),
    {
        let ghost old_self = *self;
        if rights.0 != self.castling.0 {
            let a = key(CASTLING_BASE + self.castling.0 as u64);
            let b = key(CASTLING_BASE + rights.0 as u64);
            self.key = self.key ^ a ^ b;
            self.castling = rights;
            proof {
                lemma_key_fields(old_self@);
                lemma_xor_cancel(old_self.key, position_key(old_self@), a);
                lemma_xor_cancel(old_self.key ^ a, position_key(old_self@) ^ a, b);
            }
        } else {
            self.castling = rights;
            assert(self@ == old_self@);
        }
    }

    /// Pass the turn to the other side, keeping the hash in step.
    fn flip_side(&mut self)
        ensures
            final(self)@ == (Position { stm: old(self)@.stm.spec_flip(), ..old(self)@ }),
            final(self).by_type == old(self).by_type,
            final(self).by_color == old(self).by_color,
            final(self).key_ok() == old(self).key_ok(),
    {
        let ghost old_self = *self;
        let s = key(SIDE_INDEX);
        self.key = self.key ^ s;
        self.stm = self.stm.flip();
        proof {
            lemma_key_fields(old_self@);
            let a = side_term(old_self.stm);
            let b = side_term(self.stm);
            lemma_xor(position_key(old_self@), a, b);
            if old_self.stm == Color::White {
                lemma_xor(s, 0, 0);
                lemma_xor(position_key(old_self@), 0, 0);
                assert(a ^ b == s);
            } else {
                lemma_xor(0, s, 0);
                lemma_xor(s, 0, 0);
                assert(a ^ b == s);
            }
            lemma_xor_cancel(old_self.key, position_key(old_self@), s);
        }
    }

    /// Move the pieces a move displaces, returning the piece it captures.
    fn play_pieces(&mut self, mv: Move) -> (captured: Option<Piece>)
        requires
            old(self).bb_ok(),
            move_ok(old(self)@, mv),
        ensures
            final(self).bb_ok(),
            final(self)@ == (Position { squares: moved_squares(old(self)@, mv), ..old(self)@ }),
            final(self).key_ok() == old(self).key_ok(),
            captured == Board::undo_of(old(self)@, mv).captured,
    {
        let ghost p0 = self@;
        proof {
            lemma_move_bounds(mv);
        }
        let us = self.stm;
        let from = mv.from();
        let to = mv.to();
        let move_flag = mv.flag();
        let mut captured: Option<Piece> = None;
        if move_flag == flag::EN_PASSANT {
            let cap_sq = Square::from_file_rank(to.file(), from.rank());
            assert(cap_sq.0 == ep_victim(mv));
            captured = Some(self.remove_piece(cap_sq));
            self.move_piece(from, to);
        } else if move_flag == flag::KING_CASTLE {
            self.move_piece(from, to);
            let rank = from.rank();
            self.move_piece(Square::from_file_rank(7, rank), Square::from_file_rank(5, rank));
        } else if move_flag == flag::QUEEN_CASTLE {
            self.move_piece(from, to);
            let rank = from.rank();
            self.move_piece(Square::from_file_rank(0, rank), Square::from_file_rank(3, rank));
        } else {
            if mv.is_capture() {
                captured = Some(self.remove_piece(to));
            }
            match mv.promotion() {
                Some(promo) => {
                    self.remove_piece(from);
                    self.add_piece(Piece::make(us, promo), to);
                },
                None => {
                    self.move_piece(from, to);
                },
            }
        }
        assert(self.mailbox@ =~= moved_squares(p0, mv));
        captured
    }

    /// Apply a move, returning the information needed to undo it.
    pub fn make_move(&mut self, mv: Move) -> (undo: Undo)
        requires
            old(self).valid(),
            move_ok(old(self)@, mv),
        ensures
            final(self).valid(),
            final(self)@ == apply_move(old(self)@, mv),
            undo == Board::undo_of(old(self)@, mv),
    {
        let ghost p0 = self@;
        proof {
            lemma_move_bounds(mv);
        }
        let us = self.stm;
        let from = mv.from();
        let to = mv.to();
        let move_flag = mv.flag();
        let moving = self.mailbox[from.index()].unwrap();

        let saved_castling = self.castling;
        let saved_ep = self.ep_square;
        let saved_halfmove = self.halfmove;
        let saved_key = self.key;

        self.set_ep(None);
        let captured = self.play_pieces(mv);
        if move_flag == flag::DOUBLE_PAWN {
            let ep = Square::new(((from.index() + to.index()) / 2) as u8);
            self.set_ep(Some(ep));
        }
        assert(self.mailbox@ == moved_squares(p0, mv));

        let m1 = castle_mask_of(from);
        let m2 = castle_mask_of(to);
        let old_rights = self.castling.0;
        let new_castling = CastlingRights(old_rights & m1 & m2);
        assert(old_rights & m1 & m2 < 16) by (bit_vector)
            requires
                old_rights < 16,
        ;
        self.set_castling(new_castling);

        if moving.piece_type() == PieceType::Pawn || mv.is_capture() {
            self.halfmove = 0;
        } else {
            self.halfmove = self.halfmove + 1;
        }
        if us == Color::Black {
            self.fullmove = self.fullmove + 1;
        }
        proof {
            lemma_key_fields(self@);
        }
        self.flip_side();
        assert(self@ == apply_move(p0, mv));
        Undo {
            captured,
            castling: saved_castling,
            ep_square: saved_ep,
            halfmove: saved_halfmove,
            key: saved_key,
        }
    }
}


impl Board {
    /// Put back the pieces a move displaced.
    fn unplay_pieces(&mut self, mv: Move, undo: Undo)
        requires
            old(self).bb_ok(),
            old(self)@.valid(),
            Board::undoable(old(self)@, mv, undo),
        ensures
            final(self).bb_ok(),
            final(self).mailbox@ == Board::unmoved_squares(old(self)@, mv, undo),
            Self::same_state(*old(self), *final(self)),
    {
        let ghost q = self@;
        let ghost p0 = Board::unapply(q, mv, undo);
        proof {
            lemma_move_bounds(mv);
            assert(q.squares == moved_squares(p0, mv));
        }
        let them = self.stm;
        let us = them.flip();
        let from = mv.from();
        let to = mv.to();
        let move_flag = mv.flag();
        if move_flag == flag::EN_PASSANT {
            self.move_piece(to, from);
            let cap_sq = Square::from_file_rank(to.file(), from.rank());
            assert(cap_sq.0 == ep_victim(mv));
            self.add_piece(Piece::make(them, PieceType::Pawn), cap_sq);
        } else if move_flag == flag::KING_CASTLE {
            self.move_piece(to, from);
            let rank = from.rank();
            self.move_piece(Square::from_file_rank(5, rank), Square::from_file_rank(7, rank));
        } else if move_flag == flag::QUEEN_CASTLE {
            self.move_piece(to, from);
            let rank = from.rank();
            self.move_piece(Square::from_file_rank(3, rank), Square::from_file_rank(0, rank));
        } else {
            if mv.is_promotion() {
                self.remove_piece(to);
                self.add_piece(Piece::make(us, PieceType::Pawn), from);
            } else {
                self.move_piece(to, from);
            }
            if mv.is_capture() {
                self.add_piece(undo.captured.unwrap(), to);
            }
        }
        assert(self.mailbox@ =~= Board::unmoved_squares(q, mv, undo));
    }

    /// Undo a move previously applied with [`make_move`](Self::make_move),
    /// given the state it returned.
    pub fn unmake_move(&mut self, mv: Move, undo: Undo)
        requires
            old(self).valid(),
            Board::undoable(old(self)@, mv, undo),
        ensures
            final(self).valid(),
            final(self)@ == Board::unapply(old(self)@, mv, undo),
    {
        let ghost q = self@;
        let them = self.stm;
        let us = them.flip();
        self.unplay_pieces(mv, undo);
        self.stm = us;
        if us == Color::Black {
            self.fullmove = self.fullmove - 1;
        }
        self.castling = undo.castling;
        self.ep_square = undo.ep_square;
        self.halfmove = undo.halfmove;
        self.key = undo.key;
        assert(self@ == Board::unapply(q, mv, undo));
    }

    /// Pass the turn (a null move), returning the state needed to undo it.
    /// Never part of legal move generation.
    pub fn make_null(&mut self) -> (undo: Undo)
        requires
            old(self).valid(),
            null_ok(old(self)@),
        ensures
            final(self).valid(),
            final(self)@ == apply_null(old(self)@),
            undo == Board::null_undo_of(old(self)@),
    {
        let ghost p0 = self@;
        let saved = Undo {
            captured: None,
            castling: self.castling,
            ep_square: self.ep_square,
            halfmove: self.halfmove,
            key: self.key,
        };
        self.set_ep(None);
        self.halfmove = self.halfmove + 1;
        if self.stm == Color::Black {
            self.fullmove = self.fullmove + 1;
        }
        proof {
            lemma_key_fields(self@);
        }
        self.flip_side();
        assert(self@ == apply_null(p0));
        saved
    }

    /// Undo a [`make_null`](Self::make_null).
    pub fn unmake_null(&mut self, undo: Undo)
        requires
            old(self).valid(),
            Board::null_undoable(old(self)@, undo),
        ensures
            final(self).valid(),
            apply_null(final(self)@) == old(self)@,
            undo == Board::null_undo_of(final(self)@),
    {
        let us = self.stm.flip();
        if us == Color::Black {
            self.fullmove = self.fullmove - 1;
        }
        self.stm = us;
        self.castling = undo.castling;
        self.ep_square = undo.ep_square;
        self.halfmove = undo.halfmove;
        self.key = undo.key;
    }
}


impl Board {
    /// Recompute the Zobrist key from scratch.
    fn compute_key(&self) -> (r: u64)
        requires
            self.wf(),
        ensures
            r == position_key(self@),
    {
        let mut k: u64 = 0;
        let mut i: usize = 0;
        while i < 64
            invariant
                0 <= i <= 64,
                self.wf(),
                k == squares_hash(self.mailbox@, i as int),
            decreases 64 - i,
        {
            match self.mailbox[i] {
                Some(pc) => {
                    k = k ^ key(pc.index() as u64 * 64 + i as u64);
                },
                None => {
                    proof {
                        lemma_xor(k, 0, 0);
                    }
                },
            }
            i = i + 1;
        }
        let ghost h = k;
        if self.stm == Color::Black {
            k = k ^ key(SIDE_INDEX);
        } else {
            proof {
                lemma_xor(k, 0, 0);
            }
        }
        k = k ^ key(CASTLING_BASE + self.castling.0 as u64);
        let ghost h2 = k;
        match self.ep_square {
            Some(e) => {
                k = k ^ key(EP_BASE + e.file() as u64);
            },
            None => {
                proof {
                    lemma_xor(k, 0, 0);
                }
            },
        }
        k
    }

    /// Put a piece on an empty square of a board being set up.
    pub(crate) fn place_piece(&mut self, pc: Piece, sq: Square)
        requires
            old(self).wf(),
            sq.0 < 64,
            old(self)@.squares[sq.0 as int] is None,
        ensures
            final(self).wf(),
            final(self)@ == (Position { squares: old(self)@.squares.update(sq.0 as int, Some(pc)), ..old(self)@ }),
    {
        self.add_piece(pc, sq);
    }

    /// Set the game state of a board being set up and compute its hash.
    pub(crate) fn set_state(
        &mut self,
        stm: Color,
        castling: CastlingRights,
        ep: Option<Square>,
        halfmove: u16,
        fullmove: u16,
    )
        requires
            old(self).wf(),
            castling.0 < 16,
            (ep matches Some(e) ==> e.0 < 64),
        ensures
            final(self).valid(),
            final(self)@ == (Position {
                squares: old(self)@.squares,
                stm,
                castling: castling.0,
                ep,
                halfmove,
                fullmove,
            }),
    {
        self.stm = stm;
        self.castling = castling;
        self.ep_square = ep;
        self.halfmove = halfmove;
        self.fullmove = fullmove;
        self.key = self.compute_key();
    }
}


/// The standard chess starting position in FEN.
pub const STARTPOS_FEN: &'static str = "rnbqkbnr/pppppppp/8/8/8/8/PPPPPPPP/RNBQKBNR w KQkq - 0 1";

/// The kind of piece that starts on file `f` of a back rank.
pub open spec fn back_rank_kind(f: int) -> PieceType {
    if f == 0 || f == 7 {
        PieceType::Rook
    } else if f == 1 || f == 6 {
        PieceType::Knight
    } else if f == 2 || f == 5 {
        PieceType::Bishop
    } else if f == 3 {
        PieceType::Queen
    } else {
        PieceType::King
    }
}

/// What stands on square `i` in the starting position.
pub open spec fn start_square(i: int) -> Option<Piece> {
    if i < 8 {
        Some(Piece::spec_make(Color::White, back_rank_kind(i)))
    } else if i < 16 {
        Some(Piece::spec_make(Color::White, PieceType::Pawn))
    } else if i < 48 {
        None
    } else if i < 56 {
        Some(Piece::spec_make(Color::Black, PieceType::Pawn))
    } else {
        Some(Piece::spec_make(Color::Black, back_rank_kind(i - 56)))
    }
}

/// The standard starting position.
pub open spec fn start_position() -> Position {
    Position {
        squares: Seq::new(64, |i: int| start_square(i)),
        stm: Color::White,
        castling: 15,
        ep: None,
        halfmove: 0,
        fullmove: 1,
    }
}

fn back_rank_kind_of(f: u8) -> (r: PieceType)
    ensures
        r == back_rank_kind(f as int),
{
    if f == 0 || f == 7 {
        PieceType::Rook
    } else if f == 1 || f == 6 {
        PieceType::Knight
    } else if f == 2 || f == 5 {
        PieceType::Bishop
    } else if f == 3 {
        PieceType::Queen
    } else {
        PieceType::King
    }
}

impl Board {
    /// The standard starting position.
    pub fn startpos() -> (r: Board)
        ensures
            r.valid(),
            r@ == start_position(),
    {
        let mut b = Board::empty();
        let mut f: u8 = 0;
        while f < 8
            invariant
                f <= 8,
                b.wf(),
                b@.squares.len() == 64,
                b@.stm == Color::White,
                b@.castling == 0,
                b@.ep is None,
                b@.halfmove == 0,
                b@.fullmove == 1,
                forall|i: int| 0 <= i < 64 ==> #[trigger] b@.squares[i] == (if i % 8 < f {
                    start_square(i)
                } else {
                    None
                }),
            decreases 8 - f,
        {
            let kind = back_rank_kind_of(f);
            b.place_piece(Piece::make(Color::White, kind), Square(f));
            b.place_piece(Piece::make(Color::White, PieceType::Pawn), Square(8 + f));
            b.place_piece(Piece::make(Color::Black, PieceType::Pawn), Square(48 + f));
            b.place_piece(Piece::make(Color::Black, kind), Square(56 + f));
            f = f + 1;
        }
        b.set_state(Color::White, CastlingRights(15), None, 0, 1);
        assert(b@.squares =~= start_position().squares);
        b
    }
}

} // verus!
