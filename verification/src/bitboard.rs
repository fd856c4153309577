//! A `u64`-backed set of squares with the LERF square mapping.
//!
//! Bit `i` corresponds to the square with index `i`; the view of a bitboard is
//! the set of indices of its set bits.

use vstd::prelude::*;
use crate::bits::{bit, popcount, count_below, lemma_and, lemma_or, lemma_xor, lemma_not, lemma_single, lemma_shl, lemma_shr, lemma_zero_full, lemma_lowest, lemma_clear_lowest, lemma_bits_ext};
use crate::types::Square;

verus! {

use vstd::std_specs::bits::u64_trailing_zeros;

/// A set of squares represented as a 64-bit mask.
#[derive(Clone, Copy, PartialEq, Eq, Hash, Debug, Structural)]
pub struct Bitboard(pub u64);

/// Every square except the a-file.
pub const NOT_FILE_A: u64 = 0xFEFE_FEFE_FEFE_FEFE;
/// Every square except the h-file.
pub const NOT_FILE_H: u64 = 0x7F7F_7F7F_7F7F_7F7F;
/// The a-file.
pub const FILE_A_BITS: u64 = 0x0101_0101_0101_0101;
/// The h-file.
pub const FILE_H_BITS: u64 = 0x8080_8080_8080_8080;
/// Rank 1.
pub const RANK_1_BITS: u64 = 0x0000_0000_0000_00FF;
/// Rank 3: white pawns reach it on a single push from the start.
pub const RANK_3_BITS: u64 = 0x0000_0000_00FF_0000;
/// Rank 6: black pawns reach it on a single push from the start.
pub const RANK_6_BITS: u64 = 0x0000_FF00_0000_0000;
/// Rank 8.
pub const RANK_8_BITS: u64 = 0xFF00_0000_0000_0000;

proof fn lemma_bit_not_file_a(i: u64)
    by (bit_vector)
    requires
        i < 64,
    ensures
        (0xFEFE_FEFE_FEFE_FEFEu64 >> i) & 1u64 == 1u64 <==> i % 8 != 0,
        (0x7F7F_7F7F_7F7F_7F7Fu64 >> i) & 1u64 == 1u64 <==> i % 8 != 7,
{
}

proof fn lemma_bit_ranks(i: u64)
    by (bit_vector)
    requires
        i < 64,
    ensures
        (0x0000_0000_0000_00FFu64 >> i) & 1u64 == 1u64 <==> i / 8 == 0,
        (0x0000_0000_00FF_0000u64 >> i) & 1u64 == 1u64 <==> i / 8 == 2,
        (0x0000_FF00_0000_0000u64 >> i) & 1u64 == 1u64 <==> i / 8 == 5,
        (0xFF00_0000_0000_0000u64 >> i) & 1u64 == 1u64 <==> i / 8 == 7,
{
}

/// Which squares the file and rank masks hold.
pub proof fn lemma_masks()
    ensures
        forall|i: int| #[trigger] bit(NOT_FILE_A, i) <==> (0 <= i < 64 && i % 8 != 0),
        forall|i: int| #[trigger] bit(NOT_FILE_H, i) <==> (0 <= i < 64 && i % 8 != 7),
        forall|i: int| #[trigger] bit(RANK_1_BITS, i) <==> (0 <= i < 64 && i / 8 == 0),
        forall|i: int| #[trigger] bit(RANK_3_BITS, i) <==> (0 <= i < 64 && i / 8 == 2),
        forall|i: int| #[trigger] bit(RANK_6_BITS, i) <==> (0 <= i < 64 && i / 8 == 5),
        forall|i: int| #[trigger] bit(RANK_8_BITS, i) <==> (0 <= i < 64 && i / 8 == 7),
{
    assert forall|i: int| 0 <= i < 64 implies (#[trigger] bit(NOT_FILE_A, i) <==> i % 8 != 0) by {
        lemma_bit_not_file_a(i as u64);
    }
    assert forall|i: int| 0 <= i < 64 implies (#[trigger] bit(NOT_FILE_H, i) <==> i % 8 != 7) by {
        lemma_bit_not_file_a(i as u64);
    }
    assert forall|i: int| 0 <= i < 64 implies (#[trigger] bit(RANK_1_BITS, i) <==> i / 8 == 0) by {
        lemma_bit_ranks(i as u64);
    }
    assert forall|i: int| 0 <= i < 64 implies (#[trigger] bit(RANK_3_BITS, i) <==> i / 8 == 2) by {
        lemma_bit_ranks(i as u64);
    }
    assert forall|i: int| 0 <= i < 64 implies (#[trigger] bit(RANK_6_BITS, i) <==> i / 8 == 5) by {
        lemma_bit_ranks(i as u64);
    }
    assert forall|i: int| 0 <= i < 64 implies (#[trigger] bit(RANK_8_BITS, i) <==> i / 8 == 7) by {
        lemma_bit_ranks(i as u64);
    }
}

impl View for Bitboard {
    type V = Set<int>;

    open spec fn view(&self) -> Set<int> {
        Set::new(|i: int| bit(self.0, i))
    }
}

/// Bitboards with the same squares are the same bitboard.
pub proof fn lemma_view_ext(a: Bitboard, b: Bitboard)
    requires
        a@ =~= b@,
    ensures
        a == b,
{
    assert forall|i: int| 0 <= i < 64 implies #[trigger] bit(a.0, i) == bit(b.0, i) by {
        assert(a@.contains(i) == b@.contains(i));
    }
    lemma_bits_ext(a.0, b.0);
}

/// A bitboard whose population count is one holds a single square.
pub proof fn lemma_single_count(a: Bitboard)
    requires
        popcount(a.0) == 1,
    ensures
        forall|i: int, j: int| a@.contains(i) && a@.contains(j) ==> i == j,
{
    assert forall|i: int, j: int| a@.contains(i) && a@.contains(j) implies i == j by {
        crate::bits::lemma_count_below_one(a.0, 64, i, j);
    }
}

impl Bitboard {
    /// The empty set.
    pub fn empty() -> (r: Bitboard)
        ensures
            r@ == Set::<int>::empty(),
            r.0 == 0,
    {
        proof {
            lemma_zero_full();
        }
        let r = Bitboard(0);
        assert(r@ =~= Set::<int>::empty());
        r
    }

    /// Every square set.
    pub fn full() -> (r: Bitboard)
        ensures
            r@ == Set::new(|i: int| 0 <= i < 64),
            r.0 == !0u64,
    {
        proof {
            lemma_zero_full();
        }
        let r = Bitboard(!0u64);
        assert(r@ =~= Set::new(|i: int| 0 <= i < 64));
        r
    }

    /// A bitboard containing only `sq`.
    pub fn from_square(sq: Square) -> (r: Bitboard)
        requires
            sq.0 < 64,
        ensures
            r@ == set![sq.0 as int],
            r.0 == 1u64 << sq.0,
    {
        proof {
            lemma_single(sq.0 as u64);
        }
        let r = Bitboard(1u64 << sq.0);
        assert(r@ =~= set![sq.0 as int]);
        r
    }

    /// True if no squares are set.
    pub fn is_empty(self) -> (r: bool)
        ensures
            r == (self@ == Set::<int>::empty()),
            r == (self.0 == 0),
    {
        proof {
            lemma_zero_full();
            if self.0 != 0 {
                lemma_lowest(self.0);
                assert(self@.contains(u64_trailing_zeros(self.0) as int));
            } else {
                assert(self@ =~= Set::<int>::empty());
            }
        }
        self.0 == 0
    }

    /// True if at least one square is set.
    pub fn any(self) -> (r: bool)
        ensures
            r == (self@ != Set::<int>::empty()),
            r == (self.0 != 0),
    {
        !self.is_empty()
    }

    /// True if `sq` is a member of the set.
    pub fn contains(self, sq: Square) -> (r: bool)
        requires
            sq.0 < 64,
        ensures
            r == self@.contains(sq.0 as int),
    {
        proof {
            lemma_single(sq.0 as u64);
            lemma_and(self.0, 1u64 << sq.0);
            lemma_zero_full();
            let x = self.0 & (1u64 << sq.0);
            if x != 0 {
                lemma_lowest(x);
            }
            if self@.contains(sq.0 as int) {
                assert(bit(x, sq.0 as int));
            }
        }
        self.0 & (1u64 << sq.0) != 0
    }

    /// Number of squares in the set (population count).
    pub fn count(self) -> (r: u32)
        ensures
            r == popcount(self.0),
    {
        count_ones(self.0)
    }

    /// The least-significant set square (`Square(64)` for the empty set).
    pub fn lsb(self) -> (r: Square)
        ensures
            r.0 == u64_trailing_zeros(self.0),
            self.0 != 0 ==> r.0 < 64 && self@.contains(r.0 as int),
            self.0 != 0 ==> forall|j: int| #[trigger] self@.contains(j) ==> r.0 <= j,
            self.0 == 0 ==> r.0 == 64,
    {
        proof {
            vstd::std_specs::bits::axiom_u64_trailing_zeros(self.0);
            if self.0 != 0 {
                lemma_lowest(self.0);
            }
        }
        Square(self.0.trailing_zeros() as u8)
    }

    /// Remove and return the least-significant set square.
    pub fn pop_lsb(&mut self) -> (r: Square)
        requires
            old(self).0 != 0,
        ensures
            r.0 < 64,
            old(self)@.contains(r.0 as int),
            forall|j: int| #[trigger] old(self)@.contains(j) ==> r.0 <= j,
            final(self)@ == old(self)@.remove(r.0 as int),
            final(self).0 < old(self).0,
    {
        let sq = self.lsb();
        let x = self.0;
        assert(x & ((x - 1) as u64) < x) by (bit_vector)
            requires
                x != 0,
        ;
        proof {
            lemma_clear_lowest(self.0);
        }
        let ghost before = self@;
        self.0 = self.0 & (self.0 - 1);
        assert(self@ =~= before.remove(sq.0 as int));
        sq
    }

    /// The set squares in ascending order.
    pub fn squares(self) -> (r: Vec<Square>)
        ensures
            forall|i: int| 0 <= i < r@.len() ==> (#[trigger] r@[i]).0 < 64 && self@.contains(r@[i].0 as int),
            forall|i: int, j: int| 0 <= i < j < r@.len() ==> (#[trigger] r@[i]).0 < (#[trigger] r@[j]).0,
            forall|k: int| #[trigger] self@.contains(k) ==> exists|i: int| 0 <= i < r@.len() && r@[i].0 == k,
    {
        let mut rest = self;
        let mut out: Vec<Square> = Vec::new();
        while rest.0 != 0
            invariant
                forall|i: int| 0 <= i < out@.len() ==> (#[trigger] out@[i]).0 < 64 && self@.contains(out@[i].0 as int),
                forall|i: int, j: int| 0 <= i < j < out@.len() ==> (#[trigger] out@[i]).0 < (#[trigger] out@[j]).0,
                forall|k: int| #[trigger] rest@.contains(k) ==> self@.contains(k) && forall|i: int|
                    0 <= i < out@.len() ==> (#[trigger] out@[i]).0 < k,
                forall|k: int| #[trigger] self@.contains(k) ==> rest@.contains(k) || exists|i: int|
                    0 <= i < out@.len() && out@[i].0 == k,
            decreases rest.0,
        {
            let ghost before = rest@;
            let ghost prev = out@;
            let sq = rest.pop_lsb();
            out.push(sq);
            assert forall|k: int| #[trigger] self@.contains(k) implies rest@.contains(k) || exists|i: int|
                0 <= i < out@.len() && out@[i].0 == k by {
                if k == sq.0 as int {
                    assert(out@[prev.len() as int].0 == k);
                } else if before.contains(k) {
                    assert(rest@.contains(k));
                } else {
                    let i = choose|i: int| 0 <= i < prev.len() && prev[i].0 == k;
                    assert(out@[i] == prev[i]);
                }
            }
            assert forall|i: int, j: int| 0 <= i < j < out@.len() implies (#[trigger] out@[i]).0 < (#[trigger] out@[j]).0 by {
                if j == prev.len() {
                    assert(before.contains(sq.0 as int));
                    assert(out@[i] == prev[i]);
                } else {
                    assert(out@[i] == prev[i] && out@[j] == prev[j]);
                }
            }
            assert forall|k: int| #[trigger] rest@.contains(k) implies self@.contains(k) && forall|i: int|
                0 <= i < out@.len() ==> (#[trigger] out@[i]).0 < k by {
                assert(before.contains(k));
                assert forall|i: int| 0 <= i < out@.len() implies (#[trigger] out@[i]).0 < k by {
                    if i < prev.len() {
                        assert(out@[i] == prev[i]);
                    }
                }
            }
        }
        proof {
            lemma_zero_full();
        }
        out
    }

    /// Set intersection.
    pub fn and(self, other: Bitboard) -> (r: Bitboard)
        ensures
            r@ == self@.intersect(other@),
            r.0 == self.0 & other.0,
    {
        proof {
            lemma_and(self.0, other.0);
        }
        let r = Bitboard(self.0 & other.0);
        assert(r@ =~= self@.intersect(other@));
        r
    }

    /// Set union.
    pub fn or(self, other: Bitboard) -> (r: Bitboard)
        ensures
            r@ == self@.union(other@),
            r.0 == self.0 | other.0,
    {
        proof {
            lemma_or(self.0, other.0);
        }
        let r = Bitboard(self.0 | other.0);
        assert(r@ =~= self@.union(other@));
        r
    }

    /// Symmetric difference.
    pub fn xor(self, other: Bitboard) -> (r: Bitboard)
        ensures
            r@ == self@.difference(other@).union(other@.difference(self@)),
            r.0 == self.0 ^ other.0,
    {
        proof {
            lemma_xor(self.0, other.0);
        }
        let r = Bitboard(self.0 ^ other.0);
        assert(r@ =~= self@.difference(other@).union(other@.difference(self@)));
        r
    }

    /// Complement within the 64 squares.
    pub fn not(self) -> (r: Bitboard)
        ensures
            r@ == Set::new(|i: int| 0 <= i < 64 && !self@.contains(i)),
            r.0 == !self.0,
    {
        proof {
            lemma_not(self.0);
        }
        let r = Bitboard(!self.0);
        assert(r@ =~= Set::new(|i: int| 0 <= i < 64 && !self@.contains(i)));
        r
    }

    /// The squares of `self` not in `other`.
    pub fn minus(self, other: Bitboard) -> (r: Bitboard)
        ensures
            r@ == self@.difference(other@),
    {
        proof {
            lemma_not(other.0);
            lemma_and(self.0, !other.0);
        }
        let r = Bitboard(self.0 & !other.0);
        assert(r@ =~= self@.difference(other@));
        r
    }

    /// Shift one rank toward rank 8.
    pub fn north(self) -> (r: Bitboard)
        ensures
            r@ == Set::new(|i: int| 8 <= i < 64 && self@.contains(i - 8)),
    {
        proof {
            lemma_shl(self.0, 8);
        }
        let r = Bitboard(self.0 << 8);
        assert(r@ =~= Set::new(|i: int| 8 <= i < 64 && self@.contains(i - 8)));
        r
    }

    /// Shift one rank toward rank 1.
    pub fn south(self) -> (r: Bitboard)
        ensures
            r@ == Set::new(|i: int| 0 <= i < 56 && self@.contains(i + 8)),
    {
        proof {
            lemma_shr(self.0, 8);
        }
        let r = Bitboard(self.0 >> 8);
        assert(r@ =~= Set::new(|i: int| 0 <= i < 56 && self@.contains(i + 8)));
        r
    }

    /// Shift one file toward the h-file.
    pub fn east(self) -> (r: Bitboard)
        ensures
            r@ == Set::new(|i: int| 0 <= i < 64 && i % 8 != 0 && self@.contains(i - 1)),
    {
        proof {
            lemma_shl(self.0, 1);
            lemma_masks();
            lemma_and(self.0 << 1, NOT_FILE_A);
        }
        let r = Bitboard((self.0 << 1) & NOT_FILE_A);
        assert(r@ =~= Set::new(|i: int| 0 <= i < 64 && i % 8 != 0 && self@.contains(i - 1)));
        r
    }

    /// Shift one file toward the a-file.
    pub fn west(self) -> (r: Bitboard)
        ensures
            r@ == Set::new(|i: int| 0 <= i < 64 && i % 8 != 7 && self@.contains(i + 1)),
    {
        proof {
            lemma_shr(self.0, 1);
            lemma_masks();
            lemma_and(self.0 >> 1, NOT_FILE_H);
        }
        let r = Bitboard((self.0 >> 1) & NOT_FILE_H);
        assert(r@ =~= Set::new(|i: int| 0 <= i < 64 && i % 8 != 7 && self@.contains(i + 1)));
        r
    }

    /// Shift one square toward h8.
    pub fn north_east(self) -> (r: Bitboard)
        ensures
            r@ == Set::new(|i: int| 0 <= i < 64 && i % 8 != 0 && self@.contains(i - 9)),
    {
        proof {
            lemma_shl(self.0, 9);
            lemma_masks();
            lemma_and(self.0 << 9, NOT_FILE_A);
        }
        let r = Bitboard((self.0 << 9) & NOT_FILE_A);
        assert(r@ =~= Set::new(|i: int| 0 <= i < 64 && i % 8 != 0 && self@.contains(i - 9)));
        r
    }

    /// Shift one square toward a8.
    pub fn north_west(self) -> (r: Bitboard)
        ensures
            r@ == Set::new(|i: int| 0 <= i < 64 && i % 8 != 7 && self@.contains(i - 7)),
    {
        proof {
            lemma_shl(self.0, 7);
            lemma_masks();
            lemma_and(self.0 << 7, NOT_FILE_H);
        }
        let r = Bitboard((self.0 << 7) & NOT_FILE_H);
        assert(r@ =~= Set::new(|i: int| 0 <= i < 64 && i % 8 != 7 && self@.contains(i - 7)));
        r
    }

    /// Shift one square toward h1.
    pub fn south_east(self) -> (r: Bitboard)
        ensures
            r@ == Set::new(|i: int| 0 <= i < 64 && i % 8 != 0 && self@.contains(i + 7)),
    {
        proof {
            lemma_shr(self.0, 7);
            lemma_masks();
            lemma_and(self.0 >> 7, NOT_FILE_A);
        }
        let r = Bitboard((self.0 >> 7) & NOT_FILE_A);
        assert(r@ =~= Set::new(|i: int| 0 <= i < 64 && i % 8 != 0 && self@.contains(i + 7)));
        r
    }

    /// Shift one square toward a1.
    pub fn south_west(self) -> (r: Bitboard)
        ensures
            r@ == Set::new(|i: int| 0 <= i < 64 && i % 8 != 7 && self@.contains(i + 9)),
    {
        proof {
            lemma_shr(self.0, 9);
            lemma_masks();
            lemma_and(self.0 >> 9, NOT_FILE_H);
        }
        let r = Bitboard((self.0 >> 9) & NOT_FILE_H);
        assert(r@ =~= Set::new(|i: int| 0 <= i < 64 && i % 8 != 7 && self@.contains(i + 9)));
        r
    }

    /// Rank 1 (`a1..h1`).
    pub fn rank_1() -> (r: Bitboard)
        ensures
            r@ == Set::new(|i: int| 0 <= i < 8),
    {
        proof {
            lemma_masks();
        }
        let r = Bitboard(RANK_1_BITS);
        assert(r@ =~= Set::new(|i: int| 0 <= i < 8));
        r
    }

    /// Rank 3.
    pub fn rank_3() -> (r: Bitboard)
        ensures
            r@ == Set::new(|i: int| 16 <= i < 24),
    {
        proof {
            lemma_masks();
        }
        let r = Bitboard(RANK_3_BITS);
        assert(r@ =~= Set::new(|i: int| 16 <= i < 24));
        r
    }

    /// Rank 6.
    pub fn rank_6() -> (r: Bitboard)
        ensures
            r@ == Set::new(|i: int| 40 <= i < 48),
    {
        proof {
            lemma_masks();
        }
        let r = Bitboard(RANK_6_BITS);
        assert(r@ =~= Set::new(|i: int| 40 <= i < 48));
        r
    }

    /// Rank 8.
    pub fn rank_8() -> (r: Bitboard)
        ensures
            r@ == Set::new(|i: int| 56 <= i < 64),
    {
        proof {
            lemma_masks();
        }
        let r = Bitboard(RANK_8_BITS);
        assert(r@ =~= Set::new(|i: int| 56 <= i < 64));
        r
    }
}

/// `u64::count_ones`: the number of ones in the binary representation of
/// `x`, stated here as the number of set bits among its 64 bits.
/// The number of set bits, counted bit by bit.
fn count_ones(x: u64) -> (r: u32)
    ensures
        r == popcount(x),
{
    let mut c: u32 = 0;
    let mut i: u64 = 0;
    while i < 64
        invariant
            i <= 64,
            c == count_below(x, i as int),
            c <= i,
        decreases 64 - i,
    {
        let b = (x >> i) & 1;
        assert(b == 0 || b == 1) by (bit_vector)
            requires
                b == (x >> i) & 1,
        ;
        c = c + b as u32;
        i = i + 1;
    }
    c
}

} // verus!
