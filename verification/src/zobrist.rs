//! Zobrist hashing keys for incremental position hashing.
//!
//! Every component of the position (piece-on-square, side to move, castling
//! rights, en-passant file) has a pseudo-random 64-bit key. The position hash
//! is the XOR of all active keys, which lets the board update the hash
//! incrementally by XOR-ing only what changed.
//!
//! The keys are the outputs of a SplitMix64 generator with a fixed seed, taken
//! in order: 768 piece-square keys (piece-major), 16 castling keys, 8
//! en-passant file keys, then the side key. Key number `k` is the generator's
//! `k + 1`-th state passed through the SplitMix64 output mix, so any key can be
//! computed directly from its number.

use vstd::prelude::*;

verus! {

use vstd::wrapping::u64_specs::{wrapping_add, wrapping_mul};

/// Fixed seed for the key generator.
pub const SEED: u64 = 0x9E37_79B9_7F4A_7C15;
/// The SplitMix64 state increment.
pub const GAMMA: u64 = 0x9E37_79B9_7F4A_7C15;
pub const MIX1: u64 = 0xBF58_476D_1CE4_E5B9;
pub const MIX2: u64 = 0x94D0_49BB_1331_11EB;

/// Number of the first castling key.
pub const CASTLING_BASE: u64 = 768;
/// Number of the first en-passant file key.
pub const EP_BASE: u64 = 784;
/// Number of the side-to-move key.
pub const SIDE_INDEX: u64 = 792;

/// The SplitMix64 output function.
pub open spec fn mix(state: u64) -> u64 {
    let z1 = wrapping_mul(state ^ (state >> 30u64), MIX1);
    let z2 = wrapping_mul(z1 ^ (z1 >> 27u64), MIX2);
    z2 ^ (z2 >> 31u64)
}

/// The generator state after `n` steps.
pub open spec fn state_after(n: nat) -> u64 {
    ((SEED as nat + n * (GAMMA as nat)) % 0x1_0000_0000_0000_0000) as u64
}

/// Key number `k` of the sequence.
pub open spec fn key_at(k: nat) -> u64 {
    mix(state_after(k + 1))
}

/// One step of the SplitMix64 generator. Returns `(value, next_state)`.
fn splitmix64(state: u64) -> (r: (u64, u64))
    ensures
        r.1 == wrapping_add(state, GAMMA),
        r.0 == mix(r.1),
{
    let next_state = state.wrapping_add(GAMMA);
    let mut z = next_state;
    z = (z ^ (z >> 30)).wrapping_mul(MIX1);
    z = (z ^ (z >> 27)).wrapping_mul(MIX2);
    (z ^ (z >> 31), next_state)
}

/// Reducing a value below twice the modulus subtracts the modulus at most once.
proof fn lemma_wrap_once(x: int, m: int)
    requires
        0 < m,
        0 <= x < 2 * m,
    ensures
        x % m == (if x >= m { x - m } else { x }),
{
    if x >= m {
        vstd::arithmetic::div_mod::lemma_mod_sub_multiples_vanish(x, m);
        vstd::arithmetic::div_mod::lemma_small_mod((x - m) as nat, m as nat);
    } else {
        vstd::arithmetic::div_mod::lemma_small_mod(x as nat, m as nat);
    }
}

/// Adding to a reduced value and reducing again.
proof fn lemma_wrapping_add_mod(a: int, s: u64, y: u64)
    requires
        a >= 0,
        s as int == a % 0x1_0000_0000_0000_0000,
    ensures
        wrapping_add(s, y) as int == (a + y) % 0x1_0000_0000_0000_0000,
{
    let m: int = 0x1_0000_0000_0000_0000;
    vstd::arithmetic::div_mod::lemma_add_mod_noop(a, y as int, m);
    vstd::arithmetic::div_mod::lemma_small_mod(y as nat, m as nat);
    lemma_wrap_once(s + y, m);
}

proof fn lemma_state_step(n: nat)
    ensures
        wrapping_add(state_after(n), GAMMA) == state_after(n + 1),
{
    let a: int = SEED as int + n * (GAMMA as int);
    assert(a + GAMMA as int == SEED as int + (n + 1) * (GAMMA as int)) by (nonlinear_arith)
        requires
            a == SEED as int + n * (GAMMA as int),
    ;
    lemma_wrapping_add_mod(a, state_after(n), GAMMA);
}

/// The state reached after `k` steps, computed directly.
fn state_at(k: u64) -> (r: u64)
    ensures
        r == state_after(k as nat),
{
    let prod = k.wrapping_mul(GAMMA);
    let r = SEED.wrapping_add(prod);
    proof {
        let m: int = 0x1_0000_0000_0000_0000;
        let p: int = k as int * GAMMA as int;
        assert(p >= 0) by (nonlinear_arith)
            requires
                p == k as int * GAMMA as int,
        ;
        lemma_wrapping_add_mod(p, prod, SEED);
        assert(p + SEED == SEED as int + k * (GAMMA as int));
    }
    r
}

/// Key number `k` of the sequence, computed directly.
pub fn key(k: u64) -> (r: u64)
    requires
        k < u64::MAX,
    ensures
        r == key_at(k as nat),
{
    let (value, _) = splitmix64(state_at(k));
    proof {
        lemma_state_step(k as nat);
    }
    value
}

/// All Zobrist keys for a position.
pub struct Zobrist {
    /// `piece[piece_index * 64 + square]`.
    pub piece: Vec<u64>,
    /// `castling[rights_bits]`, indexed by the 4-bit castling mask (`0..16`).
    pub castling: Vec<u64>,
    /// `ep_file[file]`, keyed by the file (`0..8`) of the en-passant square.
    pub ep_file: Vec<u64>,
    /// XOR-ed into the hash when it is Black to move.
    pub side: u64,
}

impl Zobrist {
    /// Generate every key by running the generator from the seed.
    pub fn new() -> (r: Zobrist)
        ensures
            r.piece@.len() == 768,
            r.castling@.len() == 16,
            r.ep_file@.len() == 8,
            forall|i: int| 0 <= i < 768 ==> #[trigger] r.piece@[i] == key_at(i as nat),
            forall|i: int| 0 <= i < 16 ==> #[trigger] r.castling@[i] == key_at(
                (CASTLING_BASE + i) as nat,
            ),
            forall|i: int| 0 <= i < 8 ==> #[trigger] r.ep_file@[i] == key_at((EP_BASE + i) as nat),
            r.side == key_at(SIDE_INDEX as nat),
    {
        let mut state = SEED;
        let mut n: u64 = 0;
        proof {
            vstd::arithmetic::div_mod::lemma_small_mod(SEED as nat, 0x1_0000_0000_0000_0000nat);
        }
        let mut piece: Vec<u64> = Vec::new();
        while n < 768
            invariant
                state == state_after(n as nat),
                n <= 768,
                piece@.len() == n,
                forall|i: int| 0 <= i < n ==> #[trigger] piece@[i] == key_at(i as nat),
            decreases 768 - n,
        {
            let (value, next) = splitmix64(state);
            proof {
                lemma_state_step(n as nat);
            }
            state = next;
            piece.push(value);
            n = n + 1;
        }
        let mut castling: Vec<u64> = Vec::new();
        while n < 784
            invariant
                state == state_after(n as nat),
                768 <= n <= 784,
                castling@.len() == n - 768,
                forall|i: int| 0 <= i < n - 768 ==> #[trigger] castling@[i] == key_at(
                    (768 + i) as nat,
                ),
            decreases 784 - n,
        {
            let (value, next) = splitmix64(state);
            proof {
                lemma_state_step(n as nat);
            }
            state = next;
            castling.push(value);
            n = n + 1;
        }
        let mut ep_file: Vec<u64> = Vec::new();
        while n < 792
            invariant
                state == state_after(n as nat),
                784 <= n <= 792,
                ep_file@.len() == n - 784,
                forall|i: int| 0 <= i < n - 784 ==> #[trigger] ep_file@[i] == key_at(
                    (784 + i) as nat,
                ),
            decreases 792 - n,
        {
            let (value, next) = splitmix64(state);
            proof {
                lemma_state_step(n as nat);
            }
            state = next;
            ep_file.push(value);
            n = n + 1;
        }
        let (side, _) = splitmix64(state);
        proof {
            lemma_state_step(n as nat);
        }
        Zobrist { piece, castling, ep_file, side }
    }
}

} // verus!
