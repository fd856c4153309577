//! The mathematical model of a chess position and the rules for playing a
//! move on it, against which the concrete [`Board`](crate::board::Board) is
//! specified.

use vstd::prelude::*;
use crate::moves::{flag, Move};
use crate::types::{Color, Piece, PieceType, Square};
use crate::zobrist::{key_at, CASTLING_BASE, EP_BASE, SIDE_INDEX};

verus! {

/// A position: what stands on each of the 64 squares plus the game state.
pub struct Position {
    pub squares: Seq<Option<Piece>>,
    pub stm: Color,
    pub castling: u8,
    pub ep: Option<Square>,
    pub halfmove: u16,
    pub fullmove: u16,
}

impl Position {
    /// The structural sanity every board position has: 64 squares, castling
    /// bits within the four flags, and an en-passant square on the board.
    pub open spec fn valid(self) -> bool {
        &&& self.squares.len() == 64
        &&& self.castling < 16
        &&& (self.ep matches Some(e) ==> e.0 < 64)
    }

    /// The squares holding `piece`.
    pub open spec fn piece_set(self, piece: Piece) -> Set<int> {
        Set::new(|i: int| 0 <= i < 64 && self.squares[i] == Some(piece))
    }

    /// The squares holding a piece of color `c` and kind `k`.
    pub open spec fn set_of(self, c: Color, k: PieceType) -> Set<int> {
        self.piece_set(Piece::spec_make(c, k))
    }

    /// The squares holding a piece of color `c`.
    pub open spec fn color_set(self, c: Color) -> Set<int> {
        Set::new(|i: int| 0 <= i < 64 && self.squares[i] is Some && self.squares[i].unwrap().spec_color() == c)
    }

    /// The squares holding a piece of kind `k`, of either color.
    pub open spec fn type_set(self, k: PieceType) -> Set<int> {
        Set::new(|i: int| 0 <= i < 64 && self.squares[i] is Some && self.squares[i].unwrap().spec_piece_type() == k)
    }

    /// The occupied squares.
    pub open spec fn occupied_set(self) -> Set<int> {
        Set::new(|i: int| 0 <= i < 64 && self.squares[i] is Some)
    }

    /// True if color `c` has a king on the board.
    pub open spec fn has_king(self, c: Color) -> bool {
        exists|i: int| 0 <= i < 64 && self.squares[i] == Some(Piece::spec_make(c, PieceType::King))
    }
}

/// Composing a piece from its color and kind gives the piece back, and a
/// composed piece has the color and kind it was made from.
pub proof fn lemma_piece_parts()
    ensures
        forall|p: Piece| #[trigger] Piece::spec_make(p.spec_color(), p.spec_piece_type()) == p,
        forall|c: Color, k: PieceType| #[trigger] Piece::spec_make(c, k).spec_color() == c,
        forall|c: Color, k: PieceType| #[trigger] Piece::spec_make(c, k).spec_piece_type() == k,
{
    assert forall|p: Piece| #[trigger] Piece::spec_make(p.spec_color(), p.spec_piece_type()) == p by {
        match p {
            _ => {},
        }
    }
}

/// Zobrist term of what stands on square `i`.
pub open spec fn piece_term(squares: Seq<Option<Piece>>, i: int) -> u64 {
    match squares[i] {
        Some(p) => key_at((p.spec_index() * 64 + i) as nat),
        None => 0,
    }
}

/// XOR of the terms of the first `n` squares.
pub open spec fn squares_hash(squares: Seq<Option<Piece>>, n: int) -> u64
    decreases n,
{
    if n <= 0 {
        0
    } else {
        squares_hash(squares, n - 1) ^ piece_term(squares, n - 1)
    }
}

pub open spec fn side_term(c: Color) -> u64 {
    if c == Color::Black {
        key_at(SIDE_INDEX as nat)
    } else {
        0
    }
}

pub open spec fn castling_term(c: u8) -> u64 {
    key_at((CASTLING_BASE + c) as nat)
}

pub open spec fn ep_term(ep: Option<Square>) -> u64 {
    match ep {
        Some(e) => key_at((EP_BASE + e.0 % 8) as nat),
        None => 0,
    }
}

/// The Zobrist hash of a position: the XOR of the keys of every
/// piece-on-square, the side to move (when Black), the castling rights and the
/// en-passant file.
pub open spec fn position_key(p: Position) -> u64 {
    squares_hash(p.squares, 64) ^ side_term(p.stm) ^ castling_term(p.castling) ^ ep_term(p.ep)
}

pub proof fn lemma_xor(a: u64, b: u64, c: u64)
    by (bit_vector)
    ensures
        (a ^ b) ^ c == a ^ (b ^ c),
        a ^ b == b ^ a,
        a ^ 0 == a,
        a ^ a == 0,
{
}

/// Squares before `i` do not see an update at `i`.
proof fn lemma_hash_prefix(s: Seq<Option<Piece>>, i: int, x: Option<Piece>, n: int)
    requires
        0 <= i < s.len(),
        n <= i,
    ensures
        squares_hash(s.update(i, x), n) == squares_hash(s, n),
    decreases n,
{
    if n > 0 {
        lemma_hash_prefix(s, i, x, n - 1);
    }
}

/// Updating one square changes the hash by the old and new terms of that square.
pub proof fn lemma_hash_update(s: Seq<Option<Piece>>, i: int, x: Option<Piece>, n: int)
    requires
        0 <= i < n <= s.len(),
    ensures
        squares_hash(s.update(i, x), n) == squares_hash(s, n) ^ piece_term(s, i) ^ piece_term(
            s.update(i, x),
            i,
        ),
    decreases n,
{
    let u = s.update(i, x);
    let a = piece_term(s, i);
    let b = piece_term(u, i);
    if n - 1 == i {
        lemma_hash_prefix(s, i, x, i);
        let h = squares_hash(s, i);
        lemma_xor(h, a, a);
        lemma_xor(h, 0, b);
        lemma_xor(h ^ a, a, b);
        lemma_xor(a, a, b);
        lemma_xor(0, b, 0);
        lemma_xor(b, 0, 0);
    } else {
        lemma_hash_update(s, i, x, n - 1);
        let h = squares_hash(s, n - 1);
        let t = piece_term(s, n - 1);
        assert(piece_term(u, n - 1) == t);
        lemma_xor(h ^ a, b, t);
        lemma_xor(h, a, b ^ t);
        lemma_xor(b, t, 0);
        lemma_xor(h, t, a ^ b);
        lemma_xor(t, a, b);
        lemma_xor(a, t, b);
        lemma_xor(t, b, 0);
        lemma_xor(a, b, t);
        lemma_xor(h, a ^ b, t);
        lemma_xor(h ^ t, a, b);
        lemma_xor(h, a, b);
    }
}

/// For each square, the castling-rights bits that survive a move touching it:
/// a king or rook leaving home, or a home rook being captured, clears rights.
pub open spec fn castle_mask(i: int) -> u8 {
    if i == 0 {
        13
    } else if i == 4 {
        12
    } else if i == 7 {
        14
    } else if i == 56 {
        7
    } else if i == 60 {
        3
    } else if i == 63 {
        11
    } else {
        15
    }
}

/// The square of the pawn an en-passant capture removes: on the destination
/// file, on the origin rank.
pub open spec fn ep_victim(mv: Move) -> int {
    (mv.spec_from().0 / 8) * 8 + mv.spec_to().0 % 8
}

/// What a move needs of a position to be played on it: it fits the pieces
/// (see [`move_fits`]) and the clocks can advance: the halfmove clock when
/// the move neither moves a pawn nor captures, the fullmove number when
/// Black moves.
pub open spec fn move_ok(p: Position, mv: Move) -> bool {
    &&& move_fits(p, mv)
    &&& (p.squares[mv.spec_from().0 as int].unwrap().spec_piece_type() == PieceType::Pawn
        || mv.spec_is_capture() || p.halfmove < 65535)
    &&& (p.stm == Color::White || p.fullmove < 65535)
}

/// What a null move needs of a position: the halfmove clock can advance, and
/// the fullmove number when Black passes.
pub open spec fn null_ok(p: Position) -> bool {
    &&& p.halfmove < 65535
    &&& (p.stm == Color::White || p.fullmove < 65535)
}

/// A move fits a position when the origin holds a piece of the side to move,
/// the destination is empty or (for a capture) holds an enemy piece other
/// than the king, special moves find their pieces where they expect them, and
/// promotions move a pawn.
pub open spec fn move_fits(p: Position, mv: Move) -> bool {
    let from = mv.spec_from().0 as int;
    let to = mv.spec_to().0 as int;
    let f = mv.spec_flag();
    let us = p.stm;
    &&& p.valid()
    &&& from != to
    &&& p.squares[from] is Some
    &&& p.squares[from].unwrap().spec_color() == us
    &&& if f == flag::EN_PASSANT {
        &&& p.squares[to] is None
        &&& from % 8 != to % 8
        &&& p.squares[ep_victim(mv)] == Some(Piece::spec_make(us.spec_flip(), PieceType::Pawn))
    } else if f == flag::KING_CASTLE {
        &&& from % 8 == 4
        &&& to == from + 2
        &&& p.squares[to] is None
        &&& p.squares[from + 1] is None
        &&& p.squares[from + 3] is Some
    } else if f == flag::QUEEN_CASTLE {
        &&& from % 8 == 4
        &&& to == from - 2
        &&& p.squares[to] is None
        &&& p.squares[from - 1] is None
        &&& p.squares[from - 4] is Some
    } else {
        &&& (if mv.spec_is_capture() {
            &&& p.squares[to] is Some
            &&& p.squares[to].unwrap().spec_color() != us
            &&& p.squares[to].unwrap().spec_piece_type() != PieceType::King
        } else {
            p.squares[to] is None
        })
        &&& (mv.spec_is_promotion() ==> p.squares[from].unwrap().spec_piece_type() == PieceType::Pawn)
    }
}

/// The squares after playing `mv`.
pub open spec fn moved_squares(p: Position, mv: Move) -> Seq<Option<Piece>> {
    let from = mv.spec_from().0 as int;
    let to = mv.spec_to().0 as int;
    let f = mv.spec_flag();
    let moving = p.squares[from];
    let sq = p.squares;
    let base = (from / 8) * 8;
    if f == flag::EN_PASSANT {
        sq.update(ep_victim(mv), None).update(from, None).update(to, moving)
    } else if f == flag::KING_CASTLE {
        let s1 = sq.update(from, None).update(to, moving);
        s1.update(base + 7, None).update(base + 5, s1[base + 7])
    } else if f == flag::QUEEN_CASTLE {
        let s1 = sq.update(from, None).update(to, moving);
        s1.update(base, None).update(base + 3, s1[base])
    } else {
        let s1 = if mv.spec_is_capture() {
            sq.update(to, None)
        } else {
            sq
        };
        match mv.spec_promotion() {
            Some(pt) => s1.update(from, None).update(to, Some(Piece::spec_make(p.stm, pt))),
            None => s1.update(from, None).update(to, moving),
        }
    }
}

/// The position after playing `mv`: pieces moved (with the castling rook,
/// the en-passant victim or the promotion), the en-passant square set only by
/// a double pawn push, castling rights cleared by moves touching a king or
/// rook home square, the halfmove clock reset by pawn moves and captures, the
/// fullmove number advanced after Black moves, and the turn passed.
pub open spec fn apply_move(p: Position, mv: Move) -> Position {
    let from = mv.spec_from().0 as int;
    let to = mv.spec_to().0 as int;
    let f = mv.spec_flag();
    let moving = p.squares[from].unwrap();
    Position {
        squares: moved_squares(p, mv),
        stm: p.stm.spec_flip(),
        castling: (p.castling & castle_mask(from) & castle_mask(to)) as u8,
        ep: if f == flag::DOUBLE_PAWN {
            Some(Square(((from + to) / 2) as u8))
        } else {
            None
        },
        halfmove: if moving.spec_piece_type() == PieceType::Pawn || mv.spec_is_capture() {
            0
        } else {
            (p.halfmove + 1) as u16
        },
        fullmove: if p.stm == Color::Black {
            (p.fullmove + 1) as u16
        } else {
            p.fullmove
        },
    }
}

/// What a move does to the board: the origin empties; the destination holds
/// the moving piece (or, for a promotion, the promoted piece of the mover's
/// color); an en-passant capture also empties the victim's square; castling
/// also carries the rook from its corner to the square the king crossed; no
/// other square changes. The turn passes, a double push alone sets the
/// en-passant square (the square the pawn crossed), the halfmove clock
/// restarts on a pawn move or a capture and counts up otherwise, and the
/// fullmove number advances after Black's move.
pub proof fn lemma_move_effects(p: Position, mv: Move)
    requires
        move_ok(p, mv),
    ensures
        ({
            let q = apply_move(p, mv);
            let from = mv.spec_from().0 as int;
            let to = mv.spec_to().0 as int;
            let f = mv.spec_flag();
            &&& q.squares.len() == 64
            &&& q.squares[from] is None
            &&& q.squares[to] == match mv.spec_promotion() {
                Some(pt) => Some(Piece::spec_make(p.stm, pt)),
                None => p.squares[from],
            }
            &&& f == flag::EN_PASSANT ==> q.squares[ep_victim(mv)] is None
            &&& f == flag::KING_CASTLE ==> q.squares[from + 3] is None && q.squares[from + 1] == p.squares[from + 3]
            &&& f == flag::QUEEN_CASTLE ==> q.squares[from - 4] is None && q.squares[from - 1] == p.squares[from - 4]
            &&& forall|s: int| 0 <= s < 64 && s != from && s != to && !(f == flag::EN_PASSANT && s == ep_victim(mv))
                && !(f == flag::KING_CASTLE && (s == from + 3 || s == from + 1)) && !(f == flag::QUEEN_CASTLE && (s
                == from - 4 || s == from - 1)) ==> #[trigger] q.squares[s] == p.squares[s]
            &&& q.stm == p.stm.spec_flip()
            &&& q.ep == (if f == flag::DOUBLE_PAWN { Some(Square(((from + to) / 2) as u8)) } else { None })
            &&& q.halfmove == (if p.squares[from].unwrap().spec_piece_type() == PieceType::Pawn || mv.spec_is_capture() {
                0
            } else {
                p.halfmove + 1
            })
            &&& q.fullmove == (if p.stm == Color::Black { p.fullmove + 1 } else { p.fullmove as int })
        }),
{
    crate::moves::lemma_move_bounds(mv);
    let from = mv.spec_from().0 as int;
    assert((from / 8) * 8 + 7 == from + 3 || mv.spec_flag() != flag::KING_CASTLE);
    assert((from / 8) * 8 == from - 4 || mv.spec_flag() != flag::QUEEN_CASTLE);
}

/// The home squares of the kings and rooks: a1, e1, h1, a8, e8, h8.
pub open spec fn castling_home(s: int) -> bool {
    s == 0 || s == 4 || s == 7 || s == 56 || s == 60 || s == 63
}

/// Castling rights after a move: none is ever gained; a move from or onto a
/// rook's home corner clears the right of that corner (a1: White's queenside,
/// h1: White's kingside, a8: Black's queenside, h8: Black's kingside), a move
/// from a king's home square clears both rights of that side, and a move that
/// touches none of these squares keeps the rights as they were.
pub proof fn lemma_castling_rights_after(p: Position, mv: Move)
    requires
        p.valid(),
    ensures
        apply_move(p, mv).castling & p.castling == apply_move(p, mv).castling,
        (mv.spec_from().0 == 0 || mv.spec_to().0 == 0) ==> apply_move(p, mv).castling & 2 == 0,
        (mv.spec_from().0 == 7 || mv.spec_to().0 == 7) ==> apply_move(p, mv).castling & 1 == 0,
        (mv.spec_from().0 == 56 || mv.spec_to().0 == 56) ==> apply_move(p, mv).castling & 8 == 0,
        (mv.spec_from().0 == 63 || mv.spec_to().0 == 63) ==> apply_move(p, mv).castling & 4 == 0,
        mv.spec_from().0 == 4 ==> apply_move(p, mv).castling & 3 == 0,
        mv.spec_from().0 == 60 ==> apply_move(p, mv).castling & 12 == 0,
        !castling_home(mv.spec_from().0 as int) && !castling_home(mv.spec_to().0 as int)
            ==> apply_move(p, mv).castling == p.castling,
{
    let c = p.castling;
    let from = mv.spec_from().0 as int;
    let to = mv.spec_to().0 as int;
    let a = castle_mask(from);
    let b = castle_mask(to);
    let r = apply_move(p, mv).castling;
    assert(r == c & a & b);
    assert((c & a & b) & c == c & a & b) by (bit_vector);
    if from == 0 || to == 0 {
        assert((c & a & b) & 2 == 0) by (bit_vector)
            requires a == 13u8 || b == 13u8;
    }
    if from == 7 || to == 7 {
        assert((c & a & b) & 1 == 0) by (bit_vector)
            requires a == 14u8 || b == 14u8;
    }
    if from == 56 || to == 56 {
        assert((c & a & b) & 8 == 0) by (bit_vector)
            requires a == 7u8 || b == 7u8;
    }
    if from == 63 || to == 63 {
        assert((c & a & b) & 4 == 0) by (bit_vector)
            requires a == 11u8 || b == 11u8;
    }
    if from == 4 {
        assert((c & a & b) & 3 == 0) by (bit_vector)
            requires a == 12u8;
    }
    if from == 60 {
        assert((c & a & b) & 12 == 0) by (bit_vector)
            requires a == 3u8;
    }
    if !castling_home(from) && !castling_home(to) {
        assert(c & a & b == c) by (bit_vector)
            requires a == 15u8, b == 15u8, c < 16u8;
    }
}

/// The position after passing the turn (a null move): the en-passant square is
/// cleared, the halfmove clock advances, the fullmove number advances after
/// Black, and the other side moves.
pub open spec fn apply_null(p: Position) -> Position {
    Position {
        squares: p.squares,
        stm: p.stm.spec_flip(),
        castling: p.castling,
        ep: None,
        halfmove: (p.halfmove + 1) as u16,
        fullmove: if p.stm == Color::Black {
            (p.fullmove + 1) as u16
        } else {
            p.fullmove
        },
    }
}


pub proof fn lemma_xor_cancel(x: u64, y: u64, k: u64)
    by (bit_vector)
    ensures
        (x ^ k == y ^ k) == (x == y),
        (x ^ k) ^ k == x,
{
}

proof fn lemma_xor_square(a: u64, b: u64, c: u64, d: u64, t1: u64, t2: u64)
    by (bit_vector)
    ensures
        ((((a ^ t1) ^ t2) ^ b) ^ c) ^ d == (((((a ^ b) ^ c) ^ d) ^ t1) ^ t2),
{
}

proof fn lemma_xor_replace(a: u64, b: u64, c: u64, d: u64, x: u64)
    by (bit_vector)
    ensures
        ((a ^ x) ^ c) ^ d == ((((a ^ b) ^ c) ^ d) ^ b) ^ x,
        ((a ^ b) ^ x) ^ d == ((((a ^ b) ^ c) ^ d) ^ c) ^ x,
        ((a ^ b) ^ c) ^ x == ((((a ^ b) ^ c) ^ d) ^ d) ^ x,
{
}

/// Changing one square changes the hash by that square's old and new terms.
pub proof fn lemma_key_square(p: Position, i: int, x: Option<Piece>)
    requires
        p.squares.len() == 64,
        0 <= i < 64,
    ensures
        position_key(Position { squares: p.squares.update(i, x), ..p }) == (position_key(p)
            ^ piece_term(p.squares, i)) ^ piece_term(p.squares.update(i, x), i),
{
    lemma_hash_update(p.squares, i, x, 64);
    lemma_xor_square(
        squares_hash(p.squares, 64),
        side_term(p.stm),
        castling_term(p.castling),
        ep_term(p.ep),
        piece_term(p.squares, i),
        piece_term(p.squares.update(i, x), i),
    );
}

/// Changing the side to move, the castling rights or the en-passant square
/// changes the hash by the old and new terms of that component.
pub proof fn lemma_key_fields(p: Position)
    ensures
        forall|c: Color| #[trigger] position_key(Position { stm: c, ..p }) == (position_key(p)
            ^ side_term(p.stm)) ^ side_term(c),
        forall|c: u8| #[trigger] position_key(Position { castling: c, ..p }) == (position_key(p)
            ^ castling_term(p.castling)) ^ castling_term(c),
        forall|e: Option<Square>| #[trigger] position_key(Position { ep: e, ..p }) == (position_key(p)
            ^ ep_term(p.ep)) ^ ep_term(e),
        forall|h: u16, f: u16| #[trigger] position_key(Position { halfmove: h, fullmove: f, ..p })
            == position_key(p),
{
    let a = squares_hash(p.squares, 64);
    let b = side_term(p.stm);
    let c0 = castling_term(p.castling);
    let d = ep_term(p.ep);
    assert forall|c: Color| #[trigger] position_key(Position { stm: c, ..p }) == (position_key(p)
        ^ side_term(p.stm)) ^ side_term(c) by {
        lemma_xor_replace(a, b, c0, d, side_term(c));
    }
    assert forall|c: u8| #[trigger] position_key(Position { castling: c, ..p }) == (position_key(p)
        ^ castling_term(p.castling)) ^ castling_term(c) by {
        lemma_xor_replace(a, b, c0, d, castling_term(c));
    }
    assert forall|e: Option<Square>| #[trigger] position_key(Position { ep: e, ..p }) == (
    position_key(p) ^ ep_term(p.ep)) ^ ep_term(e) by {
        lemma_xor_replace(a, b, c0, d, ep_term(e));
    }
}


/// A king of color `c` still stands somewhere after a fitting move: it either
/// stays where it is, moves with the move, or (castling with a king in the
/// rook's corner) moves with the rook; moves never capture kings.
pub proof fn lemma_king_survives(p: Position, mv: Move, c: Color)
    requires
        move_fits(p, mv),
        p.has_king(c),
    ensures
        apply_move(p, mv).has_king(c),
{
    crate::moves::lemma_move_bounds(mv);
    lemma_piece_parts();
    let kp = Piece::spec_make(c, PieceType::King);
    let i = choose|i: int| 0 <= i < 64 && p.squares[i] == Some(kp);
    let from = mv.spec_from().0 as int;
    let to = mv.spec_to().0 as int;
    let f = mv.spec_flag();
    let q = apply_move(p, mv);
    let base = (from / 8) * 8;
    if f == flag::KING_CASTLE {
        let s1 = p.squares.update(from, None).update(to, p.squares[from]);
        if i == from {
            assert(q.squares[to] == Some(kp));
        } else if i == base + 7 {
            assert(s1[base + 7] == Some(kp));
            assert(q.squares[base + 5] == Some(kp));
        } else {
            assert(q.squares[i] == Some(kp));
        }
    } else if f == flag::QUEEN_CASTLE {
        let s1 = p.squares.update(from, None).update(to, p.squares[from]);
        if i == from {
            assert(q.squares[to] == Some(kp));
        } else if i == base {
            assert(s1[base] == Some(kp));
            assert(q.squares[base + 3] == Some(kp));
        } else {
            assert(q.squares[i] == Some(kp));
        }
    } else if f == flag::EN_PASSANT {
        if i == from {
            assert(q.squares[to] == Some(kp));
        } else {
            assert(q.squares[i] == Some(kp));
        }
    } else {
        if i == from {
            assert(mv.spec_promotion() is None);
            assert(q.squares[to] == Some(kp));
        } else {
            assert(q.squares[i] == Some(kp));
        }
    }
}

/// The square a square maps to when the board is turned upside down.
pub open spec fn mirror_square(s: int) -> int {
    (7 - s / 8) * 8 + s % 8
}

/// A piece of the other color.
pub open spec fn color_swapped(pc: Piece) -> Piece {
    Piece::spec_make(pc.spec_color().spec_flip(), pc.spec_piece_type())
}

/// `p` with the board turned upside down and the colors swapped: White's
/// pieces become Black's on the mirrored squares, and the other side moves.
pub open spec fn mirrored(p: Position) -> Position {
    Position {
        squares: Seq::new(
            64,
            |t: int|
                match p.squares[mirror_square(t)] {
                    Some(pc) => Some(color_swapped(pc)),
                    None => None,
                },
        ),
        stm: p.stm.spec_flip(),
        ..p
    }
}

pub proof fn lemma_swapped_piece(pc: Piece)
    ensures
        color_swapped(pc).spec_color() == pc.spec_color().spec_flip(),
        color_swapped(pc).spec_piece_type() == pc.spec_piece_type(),
{
    match pc {
        Piece::WhitePawn => {},
        Piece::WhiteKnight => {},
        Piece::WhiteBishop => {},
        Piece::WhiteRook => {},
        Piece::WhiteQueen => {},
        Piece::WhiteKing => {},
        Piece::BlackPawn => {},
        Piece::BlackKnight => {},
        Piece::BlackBishop => {},
        Piece::BlackRook => {},
        Piece::BlackQueen => {},
        Piece::BlackKing => {},
    }
}

} // verus!
