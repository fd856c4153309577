//! Compact 16-bit move encoding and a growable move list.
//!
//! A [`Move`] packs the origin square, destination square and a 4-bit flag:
//!
//! ```text
//! bits  0..6   from square (0..64)
//! bits  6..12  to square   (0..64)
//! bits 12..16  flag        (see the `flag` module)
//! ```

pub mod flag;

use vstd::prelude::*;
use crate::text::{all_ascii, ascii_chars, ascii_string};
use crate::types::{PieceType, Square};

verus! {

/// A chess move encoded in 16 bits.
#[derive(Clone, Copy, PartialEq, Eq, Hash, Debug, Structural)]
pub struct Move(pub u16);

proof fn lemma_pack_roundtrip(f: u16, t: u16, fl: u16)
    by (bit_vector)
    requires
        f < 64,
        t < 64,
        fl < 16,
    ensures
        (f | (t << 6) | (fl << 12)) & 0x3F == f,
        ((f | (t << 6) | (fl << 12)) >> 6) & 0x3F == t,
        (f | (t << 6) | (fl << 12)) >> 12 == fl,
{
}

proof fn lemma_unpack_bounds(b: u16)
    by (bit_vector)
    ensures
        b & 0x3F < 64,
        (b >> 6) & 0x3F < 64,
        b >> 12 < 16,
        (b >> 12) & 3 < 4,
        (b >> 12) & 3 == (b >> 12) % 4,
        (b >> 12) & 4 != 0 <==> ((b >> 12) / 4) % 2 == 1,
        (b >> 12) & 8 != 0 <==> b >> 12 >= 8,
{
}

/// The squares and flag of any move are in range.
pub proof fn lemma_move_bounds(m: Move)
    ensures
        m.spec_from().0 < 64,
        m.spec_to().0 < 64,
        m.spec_flag() < 16,
        m.spec_is_capture() == ((m.spec_flag() / 4) % 2 == 1),
        m.spec_is_promotion() == (m.spec_flag() >= 8),
        m.spec_flag() & 3 == m.spec_flag() % 4,
{
    lemma_unpack_bounds(m.0);
}

/// The letter a promotion adds to a UCI move.
pub open spec fn promo_suffix(m: Move) -> Seq<u8> {
    match m.spec_promotion() {
        Some(pt) => seq![pt.spec_to_char() as u8],
        None => Seq::empty(),
    }
}

impl Move {
    /// The raw 16-bit encoding.
    pub open spec fn bits(self) -> u16 {
        self.0
    }

    pub open spec fn spec_from(self) -> Square {
        Square((self.0 & 0x3F) as u8)
    }

    pub open spec fn spec_to(self) -> Square {
        Square(((self.0 >> 6) & 0x3F) as u8)
    }

    pub open spec fn spec_flag(self) -> u16 {
        self.0 >> 12
    }

    pub open spec fn spec_is_capture(self) -> bool {
        self.spec_flag() & 4 != 0
    }

    pub open spec fn spec_is_promotion(self) -> bool {
        self.spec_flag() & 8 != 0
    }

    pub open spec fn spec_promotion(self) -> Option<PieceType> {
        if self.spec_is_promotion() {
            Some(PieceType::spec_from_index(((self.spec_flag() & 3) + 1) as usize))
        } else {
            None
        }
    }

    /// The move that encodes `from`, `to` and `flag`.
    pub open spec fn spec_new(from: Square, to: Square, flag: u16) -> Move {
        Move(((from.0 as u16) | ((to.0 as u16) << 6) | (flag << 12)) as u16)
    }

    /// A sentinel "no move" value (encodes a1->a1 quiet).
    pub fn null() -> (r: Move)
        ensures
            r.0 == 0,
    {
        Move(0)
    }

    /// Build a move from origin, destination and a flag value.
    pub fn new(from: Square, to: Square, flag: u16) -> (r: Move)
        requires
            from.0 < 64,
            to.0 < 64,
            flag < 16,
        ensures
            r == Self::spec_new(from, to, flag),
            r.spec_from() == from,
            r.spec_to() == to,
            r.spec_flag() == flag,
    {
        proof {
            lemma_pack_roundtrip(from.0 as u16, to.0 as u16, flag);
        }
        Move((from.0 as u16) | ((to.0 as u16) << 6) | (flag << 12))
    }

    /// Origin square.
    #[verifier::when_used_as_spec(spec_from)]
    pub fn from(self) -> (r: Square)
        ensures
            r == self.spec_from(),
            r.0 < 64,
    {
        proof {
            lemma_unpack_bounds(self.0);
        }
        Square((self.0 & 0x3F) as u8)
    }

    /// Destination square.
    #[verifier::when_used_as_spec(spec_to)]
    pub fn to(self) -> (r: Square)
        ensures
            r == self.spec_to(),
            r.0 < 64,
    {
        proof {
            lemma_unpack_bounds(self.0);
        }
        Square(((self.0 >> 6) & 0x3F) as u8)
    }

    /// The 4-bit flag.
    #[verifier::when_used_as_spec(spec_flag)]
    pub fn flag(self) -> (r: u16)
        ensures
            r == self.spec_flag(),
            r < 16,
    {
        proof {
            lemma_unpack_bounds(self.0);
        }
        self.0 >> 12
    }

    /// The raw 16-bit encoding (for serialization, e.g. into a hash table).
    pub fn to_bits(self) -> (r: u16)
        ensures
            r == self.0,
    {
        self.0
    }

    /// Reconstruct a move from its raw 16-bit encoding.
    pub fn from_bits(bits: u16) -> (r: Move)
        ensures
            r.0 == bits,
    {
        Move(bits)
    }

    /// True if this move captures (including en passant and promotion captures).
    #[verifier::when_used_as_spec(spec_is_capture)]
    pub fn is_capture(self) -> (r: bool)
        ensures
            r == self.spec_is_capture(),
    {
        self.flag() & 4 != 0
    }

    /// True if this move promotes a pawn.
    #[verifier::when_used_as_spec(spec_is_promotion)]
    pub fn is_promotion(self) -> (r: bool)
        ensures
            r == self.spec_is_promotion(),
    {
        self.flag() & 8 != 0
    }

    /// True if this move is an en-passant capture.
    pub fn is_en_passant(self) -> (r: bool)
        ensures
            r == (self.spec_flag() == flag::EN_PASSANT),
    {
        self.flag() == flag::EN_PASSANT
    }

    /// True if this move is a double pawn push.
    pub fn is_double_pawn(self) -> (r: bool)
        ensures
            r == (self.spec_flag() == flag::DOUBLE_PAWN),
    {
        self.flag() == flag::DOUBLE_PAWN
    }

    /// True if this move castles.
    pub fn is_castle(self) -> (r: bool)
        ensures
            r == (self.spec_flag() == flag::KING_CASTLE || self.spec_flag()
                == flag::QUEEN_CASTLE),
    {
        let f = self.flag();
        f == flag::KING_CASTLE || f == flag::QUEEN_CASTLE
    }

    /// True if this move is the null sentinel.
    pub fn is_null(self) -> (r: bool)
        ensures
            r == (self.0 == 0),
    {
        self.0 == 0
    }

    /// The promoted-to piece kind, if this is a promotion.
    #[verifier::when_used_as_spec(spec_promotion)]
    pub fn promotion(self) -> (r: Option<PieceType>)
        ensures
            r == self.spec_promotion(),
            r matches Some(pt) ==> pt != PieceType::Pawn && pt != PieceType::King,
    {
        if self.is_promotion() {
            proof {
                lemma_unpack_bounds(self.0);
            }
            Some(PieceType::from_index(((self.flag() & 3) + 1) as usize))
        } else {
            None
        }
    }

    /// The UCI long algebraic notation of this move, as ASCII bytes.
    pub open spec fn spec_uci(self) -> Seq<u8> {
        if self.0 == 0 {
            seq![48u8, 48u8, 48u8, 48u8]
        } else {
            self.spec_from().spec_name() + self.spec_to().spec_name() + promo_suffix(self)
        }
    }

    /// Render in UCI long algebraic notation (e.g. `e2e4`, `e7e8q`, `0000`).
    pub fn uci_bytes(self) -> (r: Vec<u8>)
        ensures
            r@ == self.spec_uci(),
            all_ascii(r@),
    {
        let mut v: Vec<u8> = Vec::new();
        if self.is_null() {
            v.push(48);
            v.push(48);
            v.push(48);
            v.push(48);
            assert(v@ =~= self.spec_uci());
            return v;
        }
        let f = self.from().name_bytes();
        let t = self.to().name_bytes();
        v.push(f[0]);
        v.push(f[1]);
        v.push(t[0]);
        v.push(t[1]);
        match self.promotion() {
            Some(pt) => {
                let c = pt.to_char();
                v.push(c as u8);
            },
            None => {},
        }
        assert(v@ =~= self.spec_uci());
        v
    }

    /// Render in UCI long algebraic notation (e.g. `e2e4`, `e7e8q`, `0000`).
    pub fn to_uci(self) -> (r: String)
        ensures
            r@ == ascii_chars(self.spec_uci()),
    {
        ascii_string(self.uci_bytes())
    }
}

/// A list of moves, in generation order.
pub struct MoveList {
    moves: Vec<Move>,
}

impl View for MoveList {
    type V = Seq<Move>;

    closed spec fn view(&self) -> Seq<Move> {
        self.moves@
    }
}

impl Default for MoveList {
    fn default() -> (r: MoveList)
        ensures
            r@ == Seq::<Move>::empty(),
    {
        MoveList::new()
    }
}

impl MoveList {
    /// Create an empty list.
    pub fn new() -> (r: MoveList)
        ensures
            r@ == Seq::<Move>::empty(),
    {
        MoveList { moves: Vec::new() }
    }

    /// Append a move.
    pub fn push(&mut self, m: Move)
        ensures
            final(self)@ == old(self)@.push(m),
    {
        self.moves.push(m);
    }

    /// Number of moves in the list.
    pub fn len(&self) -> (r: usize)
        ensures
            r == self@.len(),
    {
        self.moves.len()
    }

    /// True if the list is empty.
    pub fn is_empty(&self) -> (r: bool)
        ensures
            r == (self@.len() == 0),
    {
        self.moves.len() == 0
    }

    /// The move at position `i`.
    pub fn get(&self, i: usize) -> (r: Move)
        requires
            i < self@.len(),
        ensures
            r == self@[i as int],
    {
        self.moves[i]
    }

    /// The moves as a slice.
    pub fn as_slice(&self) -> (r: &[Move])
        ensures
            r@ == self@,
    {
        self.moves.as_slice()
    }

    /// The moves as a mutable slice (used for in-place move ordering).
    pub fn as_mut_slice(&mut self) -> (r: &mut [Move])
        ensures
            r@ == old(self)@,
            final(self)@ == final(r)@,
    {
        self.moves.as_mut_slice()
    }

    /// Replace the move at position `i`.
    pub fn set(&mut self, i: usize, m: Move)
        requires
            i < old(self)@.len(),
        ensures
            final(self)@ == old(self)@.update(i as int, m),
    {
        self.moves.set(i, m);
    }
}

} // verus!
