//! Bit-level facts about `u64` words used by the bitboard layer.
//!
//! Every lemma here relates a machine operation on a 64-bit word to the
//! per-bit predicate [`bit`], so that set-level reasoning about bitboards can
//! be carried out without the bit-vector solver.

use vstd::prelude::*;

verus! {

use vstd::std_specs::bits::{u64_trailing_zeros, axiom_u64_trailing_zeros};

/// Bit `i` of `x` is set (`i` outside `0..64` is never set).
pub open spec fn bit(x: u64, i: int) -> bool {
    0 <= i < 64 && (x >> (i as u64)) & 1u64 == 1u64
}

/// Number of set bits among the lowest `n` bits of `x`.
pub open spec fn count_below(x: u64, n: int) -> nat
    decreases n,
{
    if n <= 0 {
        0
    } else {
        count_below(x, n - 1) + if bit(x, n - 1) { 1nat } else { 0nat }
    }
}

/// Population count of `x`.
pub open spec fn popcount(x: u64) -> nat {
    count_below(x, 64)
}

pub proof fn lemma_bit_and(a: u64, b: u64, i: u64)
    by (bit_vector)
    requires
        i < 64,
    ensures
        ((a & b) >> i) & 1u64 == 1u64 <==> ((a >> i) & 1u64 == 1u64 && (b >> i) & 1u64 == 1u64),
{
}

pub proof fn lemma_bit_or(a: u64, b: u64, i: u64)
    by (bit_vector)
    requires
        i < 64,
    ensures
        ((a | b) >> i) & 1u64 == 1u64 <==> ((a >> i) & 1u64 == 1u64 || (b >> i) & 1u64 == 1u64),
{
}

pub proof fn lemma_bit_xor(a: u64, b: u64, i: u64)
    by (bit_vector)
    requires
        i < 64,
    ensures
        ((a ^ b) >> i) & 1u64 == 1u64 <==> (((a >> i) & 1u64 == 1u64) != ((b >> i) & 1u64
            == 1u64)),
{
}

pub proof fn lemma_bit_not(a: u64, i: u64)
    by (bit_vector)
    requires
        i < 64,
    ensures
        ((!a) >> i) & 1u64 == 1u64 <==> !((a >> i) & 1u64 == 1u64),
{
}

pub proof fn lemma_bit_single(s: u64, i: u64)
    by (bit_vector)
    requires
        s < 64,
        i < 64,
    ensures
        ((1u64 << s) >> i) & 1u64 == 1u64 <==> i == s,
{
}

pub proof fn lemma_bit_shl(x: u64, k: u64, i: u64)
    by (bit_vector)
    requires
        k < 64,
        i < 64,
    ensures
        ((x << k) >> i) & 1u64 == 1u64 <==> (i >= k && (x >> (i - k) as u64) & 1u64 == 1u64),
{
}

pub proof fn lemma_bit_shr(x: u64, k: u64, i: u64)
    by (bit_vector)
    requires
        k < 64,
        i < 64,
    ensures
        ((x >> k) >> i) & 1u64 == 1u64 <==> (i + k < 64 && (x >> (i + k) as u64) & 1u64
            == 1u64),
{
}

pub proof fn lemma_bit_zero(i: u64)
    by (bit_vector)
    requires
        i < 64,
    ensures
        !((0u64 >> i) & 1u64 == 1u64),
        ((!0u64) >> i) & 1u64 == 1u64,
{
}

/// Clearing the lowest set bit.
pub proof fn lemma_bit_clear_lowest(x: u64, t: u64, i: u64)
    by (bit_vector)
    requires
        t < 64,
        i < 64,
        (x >> t) & 1u64 == 1u64,
        x << (64 - t) as u64 == 0,
    ensures
        ((x & (x - 1) as u64) >> i) & 1u64 == 1u64 <==> (i != t && (x >> i) & 1u64 == 1u64),
{
}

/// Set-level restatements with integer indices.
pub proof fn lemma_and(a: u64, b: u64)
    ensures
        forall|i: int| #[trigger] bit(a & b, i) <==> (bit(a, i) && bit(b, i)),
{
    assert forall|i: int| #[trigger] bit(a & b, i) <==> (bit(a, i) && bit(b, i)) by {
        if 0 <= i < 64 {
            lemma_bit_and(a, b, i as u64);
        }
    }
}

pub proof fn lemma_or(a: u64, b: u64)
    ensures
        forall|i: int| #[trigger] bit(a | b, i) <==> (bit(a, i) || bit(b, i)),
{
    assert forall|i: int| #[trigger] bit(a | b, i) <==> (bit(a, i) || bit(b, i)) by {
        if 0 <= i < 64 {
            lemma_bit_or(a, b, i as u64);
        }
    }
}

pub proof fn lemma_xor(a: u64, b: u64)
    ensures
        forall|i: int| #[trigger] bit(a ^ b, i) <==> (bit(a, i) != bit(b, i)),
{
    assert forall|i: int| #[trigger] bit(a ^ b, i) <==> (bit(a, i) != bit(b, i)) by {
        if 0 <= i < 64 {
            lemma_bit_xor(a, b, i as u64);
        }
    }
}

pub proof fn lemma_not(a: u64)
    ensures
        forall|i: int| #[trigger] bit(!a, i) <==> (0 <= i < 64 && !bit(a, i)),
{
    assert forall|i: int| #[trigger] bit(!a, i) <==> (0 <= i < 64 && !bit(a, i)) by {
        if 0 <= i < 64 {
            lemma_bit_not(a, i as u64);
        }
    }
}

pub proof fn lemma_single(s: u64)
    requires
        s < 64,
    ensures
        forall|i: int| #[trigger] bit(1u64 << s, i) <==> i == s,
{
    assert forall|i: int| #[trigger] bit(1u64 << s, i) <==> i == s by {
        if 0 <= i < 64 {
            lemma_bit_single(s, i as u64);
        }
    }
}

pub proof fn lemma_shl(x: u64, k: u64)
    requires
        k < 64,
    ensures
        forall|i: int| #[trigger] bit(x << k, i) <==> (0 <= i < 64 && bit(x, i - k)),
{
    assert forall|i: int| #[trigger] bit(x << k, i) <==> (0 <= i < 64 && bit(x, i - k)) by {
        if 0 <= i < 64 {
            lemma_bit_shl(x, k, i as u64);
        }
    }
}

pub proof fn lemma_shr(x: u64, k: u64)
    requires
        k < 64,
    ensures
        forall|i: int| #[trigger] bit(x >> k, i) <==> (0 <= i && bit(x, i + k)),
{
    assert forall|i: int| #[trigger] bit(x >> k, i) <==> (0 <= i && bit(x, i + k)) by {
        if 0 <= i < 64 {
            lemma_bit_shr(x, k, i as u64);
        }
    }
}

pub proof fn lemma_zero_full()
    ensures
        forall|i: int| !#[trigger] bit(0u64, i),
        forall|i: int| #[trigger] bit(!0u64, i) <==> 0 <= i < 64,
{
    assert forall|i: int| !#[trigger] bit(0u64, i) by {
        if 0 <= i < 64 {
            lemma_bit_zero(i as u64);
        }
    }
    assert forall|i: int| #[trigger] bit(!0u64, i) <==> 0 <= i < 64 by {
        if 0 <= i < 64 {
            lemma_bit_zero(i as u64);
        }
    }
}

/// The lowest set bit of a nonzero word is at its trailing-zero count.
pub proof fn lemma_lowest(x: u64)
    requires
        x != 0,
    ensures
        u64_trailing_zeros(x) < 64,
        bit(x, u64_trailing_zeros(x) as int),
        forall|j: int| 0 <= j < u64_trailing_zeros(x) ==> !#[trigger] bit(x, j),
{
    axiom_u64_trailing_zeros(x);
    let t = u64_trailing_zeros(x);
    assert forall|j: int| 0 <= j < t implies !#[trigger] bit(x, j) by {
        assert((x >> (j as u64)) & 1u64 == 0u64);
    }
}

/// Clearing the lowest set bit removes exactly that bit.
pub proof fn lemma_clear_lowest(x: u64)
    requires
        x != 0,
    ensures
        forall|i: int| #[trigger] bit(x & (x - 1) as u64, i) <==> (bit(x, i) && i != u64_trailing_zeros(x)),
{
    axiom_u64_trailing_zeros(x);
    let t = u64_trailing_zeros(x) as u64;
    assert forall|i: int| #[trigger] bit(x & (x - 1) as u64, i) <==> (bit(x, i) && i != t) by {
        if 0 <= i < 64 {
            lemma_bit_clear_lowest(x, t, i as u64);
        }
    }
}

/// Two words with the same bits are equal.
pub proof fn lemma_bits_ext(a: u64, b: u64)
    requires
        forall|i: int| 0 <= i < 64 ==> #[trigger] bit(a, i) == bit(b, i),
    ensures
        a == b,
{
    if a != b {
        let x = a ^ b;
        assert(x != 0) by (bit_vector)
            requires
                a != b,
                x == a ^ b,
        ;
        lemma_lowest(x);
        let t = u64_trailing_zeros(x) as int;
        lemma_xor(a, b);
        assert(bit(a, t) == bit(b, t));
        assert(false);
    }
}

/// The population count counts exactly the set bits below each bound.
pub proof fn lemma_count_below_zero(x: u64, n: int)
    requires
        forall|i: int| 0 <= i < n ==> !#[trigger] bit(x, i),
    ensures
        count_below(x, n) == 0,
    decreases n,
{
    if n > 0 {
        lemma_count_below_zero(x, n - 1);
    }
}


/// A word with no set bits below `m` has none at any `i < m`.
pub proof fn lemma_count_below_empty(x: u64, m: int, i: int)
    requires
        count_below(x, m) == 0,
        0 <= i < m,
    ensures
        !bit(x, i),
    decreases m,
{
    if i < m - 1 {
        lemma_count_below_empty(x, m - 1, i);
    }
}

/// A word with exactly one set bit below `n` has no two distinct set bits
/// there.
pub proof fn lemma_count_below_one(x: u64, n: int, i: int, j: int)
    requires
        count_below(x, n) == 1,
        0 <= i < n,
        0 <= j < n,
        bit(x, i),
        bit(x, j),
    ensures
        i == j,
    decreases n,
{
    if bit(x, n - 1) {
        if i < n - 1 {
            lemma_count_below_empty(x, n - 1, i);
        }
        if j < n - 1 {
            lemma_count_below_empty(x, n - 1, j);
        }
    } else {
        lemma_count_below_one(x, n - 1, i, j);
    }
}

} // verus!
