//! Zobrist-keyed transposition table.
//!
//! The table caches the result of searching a position so that transpositions
//! (the same position reached by different move orders) and re-searches across
//! iterative-deepening iterations can reuse prior work. Each entry records the
//! best move, the score, the search depth it was obtained at, and a bound
//! describing whether the score is exact or only an alpha/beta bound.
//!
//! Each slot holds two words: the packed entry and the key XOR-ed with it, so a
//! slot written for another position (or half-written) reads as a miss.

use vstd::prelude::*;
use crate::moves::Move;

verus! {

/// The kind of score stored: exact, or a lower/upper bound from a cutoff.
#[derive(Clone, Copy, PartialEq, Eq, Debug, Structural)]
pub enum Bound {
    /// Empty slot / no information.
    Empty,
    /// Exact score (a PV node).
    Exact,
    /// Lower bound (a fail-high / beta cutoff).
    Lower,
    /// Upper bound (a fail-low / no move beat alpha).
    Upper,
}

/// The two bits a bound is stored as.
pub open spec fn bound_bits(b: Bound) -> u64 {
    match b {
        Bound::Empty => 0,
        Bound::Exact => 1,
        Bound::Lower => 2,
        Bound::Upper => 3,
    }
}

/// The bound held in the low two bits of `bits`.
pub open spec fn bound_of(bits: u64) -> Bound {
    let b = bits & 3;
    if b == 1 {
        Bound::Exact
    } else if b == 2 {
        Bound::Lower
    } else if b == 3 {
        Bound::Upper
    } else {
        Bound::Empty
    }
}

impl Bound {
    fn to_bits(self) -> (r: u64)
        ensures
            r == bound_bits(self),
    {
        match self {
            Bound::Empty => 0,
            Bound::Exact => 1,
            Bound::Lower => 2,
            Bound::Upper => 3,
        }
    }

    fn from_bits(bits: u64) -> (r: Bound)
        ensures
            r == bound_of(bits),
    {
        let b = bits & 3;
        if b == 1 {
            Bound::Exact
        } else if b == 2 {
            Bound::Lower
        } else if b == 3 {
            Bound::Upper
        } else {
            Bound::Empty
        }
    }
}

/// A decoded transposition-table entry.
#[derive(Clone, Copy, PartialEq, Eq, Debug, Structural)]
pub struct TtEntry {
    /// Best move found in this position (may be the null move).
    pub mv: Move,
    /// Stored score (node-relative; the search adjusts mate scores by ply).
    pub score: i32,
    /// Depth the score was searched to.
    pub depth: i32,
    /// Bound type of the score.
    pub bound: Bound,
}

/// One table slot: `key ^ data` and `data`.
#[derive(Clone, Copy)]
struct Slot {
    key: u64,
    data: u64,
}

/// The packed form of an entry: move in bits 0..16, score in 16..32, depth in
/// 32..40, bound in 40..42, generation in 42..50.
pub open spec fn pack_spec(mv: u16, score: u16, depth: u8, bound: u64, generation: u8) -> u64 {
    (mv as u64) | ((score as u64) << 16u64) | ((depth as u64) << 32u64) | (bound << 40u64) | ((generation as u64) << 42u64)
}

pub open spec fn unpack_move(data: u64) -> u16 {
    (data & 0xFFFF) as u16
}

pub open spec fn unpack_score(data: u64) -> i16 {
    (((data >> 16u64) & 0xFFFF) as u16) as i16
}

pub open spec fn unpack_depth(data: u64) -> u8 {
    ((data >> 32u64) & 0xFF) as u8
}

pub open spec fn unpack_gen(data: u64) -> u8 {
    ((data >> 42u64) & 0xFF) as u8
}

/// Unpacking a packed entry gives its fields back, and a key XOR-ed with the
/// data is recovered by XOR-ing the data again.
proof fn lemma_pack(mv: u16, score: i16, depth: u8, bound: u64, generation: u8, key: u64)
    by (bit_vector)
    requires
        bound < 4,
    ensures
        unpack_move(pack_spec(mv, score as u16, depth, bound, generation)) == mv,
        unpack_score(pack_spec(mv, score as u16, depth, bound, generation)) == score,
        unpack_depth(pack_spec(mv, score as u16, depth, bound, generation)) == depth,
        (pack_spec(mv, score as u16, depth, bound, generation) >> 40u64) & 3 == bound,
        unpack_gen(pack_spec(mv, score as u16, depth, bound, generation)) == generation,
        (key ^ pack_spec(mv, score as u16, depth, bound, generation)) ^ pack_spec(mv, score as u16, depth, bound, generation) == key,
{
}

/// What a probe of `key` reads from a slot: a miss when the slot was written
/// for another key or is empty, else the decoded entry.
pub open spec fn decode(key_word: u64, data: u64, key: u64) -> Option<TtEntry> {
    if key_word ^ data != key || bound_of(data >> 40u64) == Bound::Empty {
        None
    } else {
        Some(TtEntry {
            mv: Move(unpack_move(data)),
            score: unpack_score(data) as i32,
            depth: unpack_depth(data) as i32,
            bound: bound_of(data >> 40u64),
        })
    }
}

/// True if `n` is a power of two.
pub open spec fn is_pow2(n: int) -> bool
    decreases n,
{
    if n <= 0 {
        false
    } else if n == 1 {
        true
    } else {
        n % 2 == 0 && is_pow2(n / 2)
    }
}

/// Largest power of two not exceeding `n` (for `n >= 1`).
fn prev_power_of_two(n: usize) -> (r: usize)
    ensures
        is_pow2(r as int),
        n >= 1 ==> r <= n < 2 * r,
        n == 0 ==> r == 1,
{
    let mut p: usize = 1;
    while p <= n / 2
        invariant
            is_pow2(p as int),
            1 <= p,
            n == 0 ==> p == 1,
            n >= 1 ==> p <= n,
        decreases n - p,
    {
        assert(is_pow2((2 * p) as int)) by {
            assert((2 * p) as int / 2 == p);
        }
        p = p * 2;
    }
    p
}

proof fn lemma_mask(x: usize, m: usize)
    by (bit_vector)
    ensures
        x & m <= m,
{
}

/// An all-zero slot holds nothing.
proof fn lemma_zero_slot()
    by (bit_vector)
    ensures
        0u64 ^ 0u64 == 0u64,
        (0u64 >> 40u64) & 3 == 0,
        0u64 & 0xFFFFu64 == 0u64,
{
}

/// A table whose slots are all zero has no used slot.
proof fn lemma_zero_used(t: Tt, n: int)
    requires
        forall|j: int| 0 <= j < t.slots@.len() ==> #[trigger] t.slots@[j] == (Slot { key: 0, data: 0 }),
        n <= t.slots@.len(),
    ensures
        t.used_count(n) == 0,
    decreases n,
{
    if n > 0 {
        lemma_zero_used(t, n - 1);
        lemma_zero_slot();
    }
}

/// The transposition table.
pub struct Tt {
    slots: Vec<Slot>,
    mask: usize,
    generation: u8,
}

impl Tt {
    /// The slots number a power of two and the mask selects among them.
    pub closed spec fn wf(&self) -> bool {
        &&& self.slots@.len() == self.mask + 1
        &&& is_pow2(self.slots@.len() as int)
    }

    /// Number of slots.
    pub closed spec fn spec_len(&self) -> nat {
        self.slots@.len()
    }

    /// The slot a key maps to.
    pub closed spec fn slot_of(&self, key: u64) -> int {
        ((key as usize) & self.mask) as int
    }

    /// The current search generation.
    pub closed spec fn spec_generation(&self) -> u8 {
        self.generation
    }

    /// What a probe of `key` finds.
    pub closed spec fn lookup(&self, key: u64) -> Option<TtEntry> {
        let s = self.slots@[self.slot_of(key)];
        decode(s.key, s.data, key)
    }

    /// True if the slot `key` maps to was last written for `key`.
    pub closed spec fn holds_key(&self, key: u64) -> bool {
        let s = self.slots@[self.slot_of(key)];
        s.key ^ s.data == key
    }

    /// The move stored in the slot `key` maps to.
    pub closed spec fn stored_move(&self, key: u64) -> Move {
        Move(unpack_move(self.slots@[self.slot_of(key)].data))
    }

    /// True if the slot `key` maps to holds no entry.
    pub closed spec fn slot_free(&self, key: u64) -> bool {
        bound_of(self.slots@[self.slot_of(key)].data >> 40u64) == Bound::Empty
    }

    /// The depth of the entry in the slot `key` maps to.
    pub closed spec fn slot_depth(&self, key: u64) -> int {
        unpack_depth(self.slots@[self.slot_of(key)].data) as int
    }

    /// The search generation of the entry in the slot `key` maps to.
    pub closed spec fn slot_generation(&self, key: u64) -> u8 {
        unpack_gen(self.slots@[self.slot_of(key)].data)
    }

    /// The slot of a key is its low bits: the key masked by the number of
    /// slots less one.
    pub proof fn lemma_slot_index(&self, key: u64)
        requires
            self.wf(),
        ensures
            self.slot_of(key) == ((key as usize) & ((self.spec_len() - 1) as usize)) as int,
            0 <= self.slot_of(key) < self.spec_len(),
    {
        lemma_mask(key as usize, self.mask);
    }

    /// A probe hits exactly when the slot holds an entry written for the key.
    pub proof fn lemma_lookup_hit(&self, key: u64)
        ensures
            self.lookup(key) is Some <==> !self.slot_free(key) && self.holds_key(key),
    {
    }

    /// The replacement rule: a store replaces the slot's entry when the slot
    /// is free, holds the same position, holds an entry of an older search,
    /// or holds an entry no deeper than the new one (an exact bound counting
    /// two plies deeper).
    pub proof fn lemma_replaces(&self, key: u64, depth: i32, bound: Bound)
        ensures
            self.replaces(key, depth, bound) == (self.slot_free(key) || self.holds_key(key)
                || self.slot_generation(key) != self.spec_generation() || depth + (if bound == Bound::Exact {
                2int
            } else {
                0int
            }) >= self.slot_depth(key)),
    {
    }

    /// True if slot `i` holds an entry of the current generation.
    pub closed spec fn used(&self, i: int) -> bool {
        let d = self.slots@[i].data;
        bound_of(d >> 40u64) != Bound::Empty && unpack_gen(d) == self.generation
    }

    /// The number of used slots among the first `n`.
    pub closed spec fn used_count(&self, n: int) -> int
        decreases n,
    {
        if n <= 0 {
            0
        } else {
            self.used_count(n - 1) + if self.used(n - 1) { 1int } else { 0int }
        }
    }

    /// Create a table sized to about `mb` mebibytes (rounded down to a power of
    /// two number of 16-byte slots; at least one mebibyte).
    pub fn new(mb: usize) -> (r: Tt)
        requires
            mb <= usize::MAX / 1048576,
        ensures
            r.wf(),
            is_pow2(r.spec_len() as int),
            r.spec_len() <= (if mb == 0 { 1 } else { mb }) * 65536 < 2 * r.spec_len(),
            r.spec_generation() == 0,
            forall|k: u64| (#[trigger] r.lookup(k)) is None,
            forall|k: u64| (#[trigger] r.slot_free(k)),
            forall|k: u64| #[trigger] r.holds_key(k) <==> k == 0,
            forall|k: u64| (#[trigger] r.stored_move(k)).0 == 0,
            forall|n: int| n <= r.spec_len() ==> #[trigger] r.used_count(n) == 0,
    {
        let m = if mb == 0 {
            1
        } else {
            mb
        };
        let bytes = m * 1024 * 1024;
        let count = prev_power_of_two(bytes / 16);
        let mut slots: Vec<Slot> = Vec::new();
        let mut i: usize = 0;
        while i < count
            invariant
                i <= count,
                slots@.len() == i,
                forall|j: int| 0 <= j < i ==> #[trigger] slots@[j] == (Slot { key: 0, data: 0 }),
            decreases count - i,
        {
            slots.push(Slot { key: 0, data: 0 });
            i = i + 1;
        }
        let r = Tt { slots, mask: count - 1, generation: 0 };
        proof {
            assert forall|k: u64| (#[trigger] r.lookup(k)) is None by {
                lemma_mask(k as usize, (count - 1) as usize);
                lemma_zero_slot();
            }
            assert forall|k: u64| #[trigger] r.holds_key(k) <==> k == 0 by {
                lemma_mask(k as usize, (count - 1) as usize);
                lemma_zero_slot();
            }
            assert forall|k: u64| (#[trigger] r.stored_move(k)).0 == 0 by {
                lemma_mask(k as usize, (count - 1) as usize);
                lemma_zero_slot();
            }
            assert forall|k: u64| #[trigger] r.slot_free(k) by {
                lemma_mask(k as usize, (count - 1) as usize);
                lemma_zero_slot();
            }
            assert forall|n: int| n <= r.spec_len() implies #[trigger] r.used_count(n) == 0 by {
                lemma_zero_used(r, n);
            }
        }
        r
    }

    /// Number of slots.
    pub fn len(&self) -> (r: usize)
        ensures
            r == self.spec_len(),
    {
        self.slots.len()
    }

    /// Always false: the table always has at least one slot.
    pub fn is_empty(&self) -> (r: bool)
        requires
            self.wf(),
        ensures
            r == (self.spec_len() == 0),
            !r,
    {
        self.slots.len() == 0
    }

    /// Empty every slot and reset the generation counter.
    pub fn clear(&mut self)
        requires
            old(self).wf(),
        ensures
            final(self).wf(),
            final(self).spec_len() == old(self).spec_len(),
            final(self).spec_generation() == 0,
            forall|k: u64| (#[trigger] final(self).lookup(k)) is None,
            forall|k: u64| (#[trigger] final(self).slot_free(k)),
            forall|k: u64| #[trigger] final(self).holds_key(k) <==> k == 0,
            forall|k: u64| (#[trigger] final(self).stored_move(k)).0 == 0,
            forall|n: int| n <= final(self).spec_len() ==> #[trigger] final(self).used_count(n) == 0,
    {
        let n = self.slots.len();
        let mut slots: Vec<Slot> = Vec::new();
        let mut i: usize = 0;
        while i < n
            invariant
                i <= n,
                slots@.len() == i,
                forall|j: int| 0 <= j < i ==> #[trigger] slots@[j] == (Slot { key: 0, data: 0 }),
            decreases n - i,
        {
            slots.push(Slot { key: 0, data: 0 });
            i = i + 1;
        }
        *self = Tt { slots, mask: self.mask, generation: 0 };
        proof {
            assert forall|k: u64| (#[trigger] self.lookup(k)) is None by {
                lemma_mask(k as usize, self.mask);
                lemma_zero_slot();
            }
            assert forall|k: u64| #[trigger] self.holds_key(k) <==> k == 0 by {
                lemma_mask(k as usize, self.mask);
                lemma_zero_slot();
            }
            assert forall|k: u64| (#[trigger] self.stored_move(k)).0 == 0 by {
                lemma_mask(k as usize, self.mask);
                lemma_zero_slot();
            }
            assert forall|k: u64| #[trigger] self.slot_free(k) by {
                lemma_mask(k as usize, self.mask);
                lemma_zero_slot();
            }
            assert forall|n: int| n <= self.spec_len() implies #[trigger] self.used_count(n) == 0 by {
                lemma_zero_used(*self, n);
            }
        }
    }

    /// Advance the generation counter (wrapping); called once at the start of
    /// each search so entries from previous searches can be preferentially
    /// overwritten. Stored entries are untouched.
    pub fn new_search(&mut self)
        requires
            old(self).wf(),
        ensures
            final(self).wf(),
            final(self).spec_len() == old(self).spec_len(),
            final(self).spec_generation() == (if old(self).spec_generation() == 255 { 0 } else { old(self).spec_generation() + 1 }),
            forall|k: u64| #[trigger] final(self).lookup(k) == old(self).lookup(k),
            forall|k: u64| #[trigger] final(self).slot_free(k) == old(self).slot_free(k) && final(self).holds_key(k)
                == old(self).holds_key(k) && final(self).slot_depth(k) == old(self).slot_depth(k)
                && final(self).slot_generation(k) == old(self).slot_generation(k),
    {
        self.generation = self.generation.wrapping_add(1);
    }

    /// Look up `key`. Returns `None` on a miss.
    pub fn probe(&self, key: u64) -> (r: Option<TtEntry>)
        requires
            self.wf(),
        ensures
            r == self.lookup(key),
            r matches Some(e) ==> -32768 <= e.score <= 32767 && 0 <= e.depth <= 255,
    {
        proof {
            lemma_mask(key as usize, self.mask);
        }
        let slot = self.slots[(key as usize) & self.mask];
        let data = slot.data;
        let stored = slot.key;
        if stored ^ data != key {
            return None;
        }
        let bound = Bound::from_bits(data >> 40);
        if bound == Bound::Empty {
            return None;
        }
        Some(TtEntry {
            mv: Move((data & 0xFFFF) as u16),
            score: (((data >> 16) & 0xFFFF) as u16 as i16) as i32,
            depth: ((data >> 32) & 0xFF) as u8 as i32,
            bound,
        })
    }

    /// True if `store` with these arguments replaces what slot `key` holds:
    /// an empty slot, the same position, an entry of an older search, or one
    /// not deeper than this result (exact scores get a two-ply bonus).
    pub closed spec fn replaces(&self, key: u64, depth: i32, bound: Bound) -> bool {
        let s = self.slots@[self.slot_of(key)];
        let old_depth = unpack_depth(s.data) as int;
        ||| bound_of(s.data >> 40u64) == Bound::Empty
        ||| s.key ^ s.data == key
        ||| unpack_gen(s.data) != self.generation
        ||| depth + (if bound == Bound::Exact { 2int } else { 0int }) >= old_depth
    }

    /// Store an entry, using a depth-preferred replacement scheme with aging.
    /// When the entry replaces the slot and its bound is not `None`, a probe of
    /// the same key reads it back: the move (or, for a null move on the same
    /// position, the move already stored), the score truncated to 16 bits, the
    /// depth clamped to `0..=255` and the bound. Every other slot is unchanged.
    pub fn store(&mut self, key: u64, mv: Move, score: i32, depth: i32, bound: Bound)
        requires
            old(self).wf(),
        ensures
            final(self).wf(),
            final(self).spec_len() == old(self).spec_len(),
            final(self).spec_generation() == old(self).spec_generation(),
            forall|k: u64| old(self).slot_of(k) != old(self).slot_of(key) ==> #[trigger] final(self).lookup(k)
                == old(self).lookup(k),
            !old(self).replaces(key, depth, bound) ==> forall|k: u64| #[trigger] final(self).lookup(k)
                == old(self).lookup(k),
            old(self).replaces(key, depth, bound) && bound != Bound::Empty ==> final(self).lookup(key) == Some(
                TtEntry {
                    mv: if mv.0 == 0 && old(self).holds_key(key) {
                        old(self).stored_move(key)
                    } else {
                        mv
                    },
                    score: (score as i16) as i32,
                    depth: if depth < 0 {
                        0
                    } else if depth > 255 {
                        255
                    } else {
                        depth
                    },
                    bound,
                },
            ),
            old(self).replaces(key, depth, bound) && bound != Bound::Empty ==> {
                &&& final(self).holds_key(key)
                &&& !final(self).slot_free(key)
                &&& final(self).slot_generation(key) == old(self).spec_generation()
                &&& final(self).slot_depth(key) == (if depth < 0 {
                    0
                } else if depth > 255 {
                    255
                } else {
                    depth as int
                })
                &&& forall|k: u64| #[trigger] old(self).slot_of(k) == old(self).slot_of(key) && k != key
                    ==> final(self).lookup(k) is None
            },
            forall|k: u64| #[trigger] old(self).slot_of(k) != old(self).slot_of(key) ==> final(self).slot_free(k)
                == old(self).slot_free(k) && final(self).holds_key(k) == old(self).holds_key(k)
                && final(self).slot_depth(k) == old(self).slot_depth(k) && final(self).slot_generation(k)
                == old(self).slot_generation(k),
            forall|i: int| 0 <= i < old(self).spec_len() && i != old(self).slot_of(key) ==> #[trigger] final(self).used(i)
                == old(self).used(i),
            old(self).replaces(key, depth, bound) && bound != Bound::Empty ==> final(self).used(old(self).slot_of(key)),
            !old(self).replaces(key, depth, bound) ==> forall|i: int| #[trigger] final(self).used(i) == old(self).used(i),
    {
        proof {
            lemma_mask(key as usize, self.mask);
        }
        let idx = (key as usize) & self.mask;
        let slot = self.slots[idx];
        let old_data = slot.data;
        let old_key = slot.key;
        let cur_gen = self.generation;

        let same_position = (old_key ^ old_data) == key;
        let old_bound = Bound::from_bits(old_data >> 40);
        let old_depth = ((old_data >> 32) & 0xFF) as u8 as i32;
        let old_gen = ((old_data >> 42) & 0xFF) as u8;

        let bonus: i32 = if bound == Bound::Exact {
            2
        } else {
            0
        };
        let prefer_new = depth as i64 + bonus as i64 >= old_depth as i64;
        let replace = old_bound == Bound::Empty || same_position || old_gen != cur_gen || prefer_new;
        if !replace {
            return;
        }

        // Preserve a useful move if this store has none for the same position.
        let mv_bits: u16 = if mv.is_null() && same_position {
            (old_data & 0xFFFF) as u16
        } else {
            mv.to_bits()
        };

        let depth_byte: u8 = if depth < 0 {
            0
        } else if depth > 255 {
            255
        } else {
            depth as u8
        };
        let score16 = score as i16;
        let b = bound.to_bits();
        let data = (mv_bits as u64) | ((score16 as u16 as u64) << 16) | ((depth_byte as u64) << 32) | (b << 40) | ((cur_gen as u64) << 42);
        proof {
            lemma_pack(mv_bits, score16, depth_byte, b, cur_gen, key);
            assert(data == pack_spec(mv_bits, score16 as u16, depth_byte, b, cur_gen));
        }
        self.slots.set(idx, Slot { key: key ^ data, data });
        proof {
            assert forall|k: u64| old(self).slot_of(k) != old(self).slot_of(key) implies #[trigger] self.lookup(k)
                == old(self).lookup(k) by {
                lemma_mask(k as usize, self.mask);
            }
            assert forall|k: u64| #[trigger] old(self).slot_of(k) != old(self).slot_of(key) implies self.slot_free(k)
                == old(self).slot_free(k) && self.holds_key(k) == old(self).holds_key(k)
                && self.slot_depth(k) == old(self).slot_depth(k) && self.slot_generation(k)
                == old(self).slot_generation(k) by {
                lemma_mask(k as usize, self.mask);
            }
            assert forall|k: u64| #[trigger] old(self).slot_of(k) == old(self).slot_of(key) && k != key
                implies self.lookup(k) is None by {
                assert((key ^ data) ^ data == key);
            }
        }
    }

    /// Approximate fill level in per-mille (0 to 1000), sampling the first
    /// slots: the share of used slots of the current search among the first
    /// thousand (or all, if fewer).
    pub fn hashfull(&self) -> (r: usize)
        requires
            self.wf(),
        ensures
            r == self.used_count(if self.spec_len() < 1000 { self.spec_len() as int } else { 1000 }) * 1000
                / (if self.spec_len() < 1000 { self.spec_len() as int } else { 1000 }),
    {
        let cur = self.generation;
        let sample = if self.slots.len() < 1000 {
            self.slots.len()
        } else {
            1000
        };
        let mut used: usize = 0;
        let mut i: usize = 0;
        while i < sample
            invariant
                i <= sample,
                sample <= self.slots@.len(),
                sample <= 1000,
                cur == self.generation,
                used == self.used_count(i as int),
                used <= i,
            decreases sample - i,
        {
            let data = self.slots[i].data;
            if Bound::from_bits(data >> 40) != Bound::Empty && ((data >> 42) & 0xFF) as u8 == cur {
                used = used + 1;
            }
            i = i + 1;
        }
        used * 1000 / sample
    }
}

} // verus!
