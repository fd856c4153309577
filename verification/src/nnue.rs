//! NNUE evaluation: a small quantized neural network behind the same
//! [`Evaluator`] interface as the hand-crafted evaluation.
//!
//! The network is a perspective feature transformer feeding one hidden layer,
//! `(768 -> HIDDEN) x2 -> 1`. The 768 inputs are piece-square features
//! (`64 * piece_type + square`, six piece kinds per color). There are two
//! accumulators, one from White's view and one from Black's, each the
//! `HIDDEN`-vector produced by the shared first layer. At evaluation time the
//! side to move's accumulator is "us" and the opponent's is "them"; the hidden
//! values pass through a squared clipped ReLU and the output layer combines
//! them into one centipawn score.
//!
//! Accumulators are kept by absolute color, so a move only changes the feature
//! columns of the pieces that moved. Accumulator and output arithmetic wraps
//! on overflow, as the vectorized integer inference it mirrors does.

use vstd::prelude::*;
use std::sync::Arc;
use crate::board::Board;
use crate::eval::{Evaluator, HandCrafted, pesto, trunc_div};
use crate::position::{Position, mirror_square, mirrored, lemma_swapped_piece};
use crate::types::{Color, Piece, Square};

verus! {

/// Size of the hidden layer (per perspective).
pub const HIDDEN: usize = 128;
/// Number of input features per perspective (`2 colours * 6 pieces * 64`).
pub const INPUT: usize = 768;
/// Feature-transformer quantization factor.
pub const QA: i32 = 255;
/// Output-layer quantization factor.
pub const QB: i32 = 64;
/// Evaluation scale: maps the network's output back to centipawns.
pub const SCALE: i32 = 400;

/// Number of bytes in a serialized network: the `HIDDEN x 768` feature
/// weights, the `HIDDEN` feature biases, the `2 * HIDDEN` output weights and
/// the output bias, all little-endian `i16`.
pub const NETWORK_BYTES: usize = 197378;
/// A serialized network may be padded with zeros to a multiple of 64 bytes.
pub const NETWORK_BYTES_PADDED: usize = 197440;

/// Offsets, in `i16` words, of the parts of a serialized network.
pub const BIAS_AT: usize = 98304;
pub const OUT_AT: usize = 98432;
pub const OUT_BIAS_AT: usize = 98688;

/// The little-endian `i16` at word `k` of `b`.
pub open spec fn le_i16(b: Seq<u8>, k: int) -> i16 {
    ((b[2 * k] as u16) | ((b[2 * k + 1] as u16) << 8u16)) as i16
}

/// Squared clipped ReLU: clamp to `[0, QA]` and square.
pub open spec fn screlu_spec(x: i16) -> int {
    let y: int = if x < 0 {
        0
    } else if x > 255 {
        255
    } else {
        x as int
    };
    y * y
}

fn screlu(x: i16) -> (r: i32)
    ensures
        r == screlu_spec(x),
        0 <= r <= 65025,
{
    let y: i32 = if x < 0 {
        0
    } else if x > 255 {
        255
    } else {
        x as i32
    };
    assert(y * y <= 65025) by (nonlinear_arith)
        requires
            0 <= y <= 255,
    ;
    y * y
}

/// The quantized network weights.
pub struct Network {
    /// Feature weights: the column of feature `f` at `f * HIDDEN ..`.
    feature_weights: [i16; 98304],
    /// Feature biases, the initial accumulator value.
    feature_bias: [i16; 128],
    /// Output weights: the first `HIDDEN` apply to "us", the rest to "them".
    output_weights: [i16; 256],
    /// Output bias.
    output_bias: i16,
}

/// `net` holds the parameters serialized in `bytes`: the feature weights
/// column by column, the feature biases, the output weights and the output
/// bias, each a little-endian `i16`.
pub open spec fn reads_network(net: Network, bytes: Seq<u8>) -> bool {
    &&& forall|f: int, h: int| 0 <= f < INPUT && 0 <= h < HIDDEN ==> #[trigger] net.weight(f, h) == le_i16(bytes, f * HIDDEN + h)
    &&& forall|h: int| 0 <= h < HIDDEN ==> #[trigger] net.bias(h) == le_i16(bytes, BIAS_AT + h)
    &&& forall|i: int| 0 <= i < 2 * HIDDEN ==> #[trigger] net.out_weight(i) == le_i16(bytes, OUT_AT + i)
    &&& net.out_bias() == le_i16(bytes, OUT_BIAS_AT as int)
}

impl Network {
    /// Weight `h` of feature `f`'s column.
    pub closed spec fn weight(&self, f: int, h: int) -> i16 {
        self.feature_weights@[f * HIDDEN + h]
    }

    /// Feature bias `h`.
    pub closed spec fn bias(&self, h: int) -> i16 {
        self.feature_bias@[h]
    }

    /// Output weight `i`.
    pub closed spec fn out_weight(&self, i: int) -> i16 {
        self.output_weights@[i]
    }

    /// The output bias.
    pub closed spec fn out_bias(&self) -> i16 {
        self.output_bias
    }

    /// Interpret a serialized network. Accepts exactly [`NETWORK_BYTES`] bytes
    /// or the 64-byte-padded [`NETWORK_BYTES_PADDED`], reading only the first
    /// [`NETWORK_BYTES`]; returns `None` for any other length.
    pub fn from_bytes(bytes: &[u8]) -> (r: Option<Box<Network>>)
        ensures
            r is Some <==> (bytes@.len() == NETWORK_BYTES || bytes@.len() == NETWORK_BYTES_PADDED),
            r matches Some(net) ==> reads_network(*net, bytes@),
    {
        if bytes.len() != NETWORK_BYTES && bytes.len() != NETWORK_BYTES_PADDED {
            return None;
        }
        let mut net = Network {
            feature_weights: [0i16; 98304],
            feature_bias: [0i16; 128],
            output_weights: [0i16; 256],
            output_bias: read_word(bytes, OUT_BIAS_AT),
        };
        let mut k: usize = 0;
        while k < BIAS_AT
            invariant
                bytes@.len() >= NETWORK_BYTES,
                k <= BIAS_AT,
                net.output_bias == le_i16(bytes@, OUT_BIAS_AT as int),
                forall|j: int| 0 <= j < k ==> #[trigger] net.feature_weights@[j] == le_i16(bytes@, j),
            decreases BIAS_AT - k,
        {
            net.feature_weights[k] = read_word(bytes, k);
            k = k + 1;
        }
        let mut h: usize = 0;
        while h < HIDDEN
            invariant
                bytes@.len() >= NETWORK_BYTES,
                h <= HIDDEN,
                net.output_bias == le_i16(bytes@, OUT_BIAS_AT as int),
                forall|j: int| 0 <= j < BIAS_AT ==> #[trigger] net.feature_weights@[j] == le_i16(bytes@, j),
                forall|j: int| 0 <= j < h ==> #[trigger] net.feature_bias@[j] == le_i16(bytes@, BIAS_AT + j),
            decreases HIDDEN - h,
        {
            net.feature_bias[h] = read_word(bytes, BIAS_AT + h);
            h = h + 1;
        }
        let mut o: usize = 0;
        while o < 2 * HIDDEN
            invariant
                bytes@.len() >= NETWORK_BYTES,
                o <= 2 * HIDDEN,
                net.output_bias == le_i16(bytes@, OUT_BIAS_AT as int),
                forall|j: int| 0 <= j < BIAS_AT ==> #[trigger] net.feature_weights@[j] == le_i16(bytes@, j),
                forall|j: int| 0 <= j < HIDDEN ==> #[trigger] net.feature_bias@[j] == le_i16(bytes@, BIAS_AT + j),
                forall|j: int| 0 <= j < o ==> #[trigger] net.output_weights@[j] == le_i16(bytes@, OUT_AT + j),
            decreases 2 * HIDDEN - o,
        {
            net.output_weights[o] = read_word(bytes, OUT_AT + o);
            o = o + 1;
        }
        proof {
            assert forall|f: int, h: int| 0 <= f < INPUT && 0 <= h < HIDDEN implies #[trigger] net.weight(f, h)
                == le_i16(bytes@, f * HIDDEN + h) by {
                assert(0 <= f * HIDDEN + h < INPUT * HIDDEN) by (nonlinear_arith)
                    requires
                        0 <= f < INPUT,
                        0 <= h < HIDDEN,
                ;
            }
        }
        Some(Box::new(net))
    }

    /// Evaluate from the two colored accumulators with `stm` to move: a
    /// centipawn score from the side to move's perspective.
    pub fn evaluate(&self, white: &Accumulator, black: &Accumulator, stm: Color) -> (r: i32)
        ensures
            r == net_output(
                *self,
                if stm == Color::White { white@ } else { black@ },
                if stm == Color::White { black@ } else { white@ },
            ),
    {
        let (us, them) = match stm {
            Color::White => (white, black),
            Color::Black => (black, white),
        };
        let mut output: i32 = 0;
        let mut i: usize = 0;
        while i < HIDDEN
            invariant
                i <= HIDDEN,
                output == output_sum(*self, us@, them@, i as int),
            decreases HIDDEN - i,
        {
            let su = screlu(us.vals[i]);
            let st = screlu(them.vals[i]);
            let wu = self.output_weights[i] as i32;
            let wt = self.output_weights[HIDDEN + i] as i32;
            assert(-2130739200 <= su * wu <= 2130674175 && -2130739200 <= st * wt <= 2130674175) by (nonlinear_arith)
                requires
                    0 <= su <= 65025,
                    0 <= st <= 65025,
                    -32768 <= wu <= 32767,
                    -32768 <= wt <= 32767,
            ;
            let a = su * wu;
            let b = st * wt;
            output = output.wrapping_add(a).wrapping_add(b);
            i = i + 1;
        }
        output = output / QA;
        output = output.wrapping_add(self.output_bias as i32);
        output = output.wrapping_mul(SCALE);
        output = output / (QA * QB);
        output
    }
}

/// The output layer's running sum over the first `n` hidden units, wrapping
/// like the inference.
pub open spec fn output_sum(net: Network, us: Seq<i16>, them: Seq<i16>, n: int) -> i32
    decreases n,
{
    if n <= 0 {
        0
    } else {
        let a = (screlu_spec(us[n - 1]) * net.out_weight(n - 1)) as i32;
        let b = (screlu_spec(them[n - 1]) * net.out_weight(HIDDEN + n - 1)) as i32;
        output_sum(net, us, them, n - 1).wrapping_add(a).wrapping_add(b)
    }
}

/// The network's score for accumulators `us` (side to move) and `them`:
/// the output sum with one factor of `QA` removed, the bias added, scaled to
/// centipawns and divided by `QA * QB`.
pub open spec fn net_output(net: Network, us: Seq<i16>, them: Seq<i16>) -> i32 {
    let s = trunc_div(output_sum(net, us, them, HIDDEN as int) as int, QA as int) as i32;
    let t = s.wrapping_add(net.out_bias() as i32).wrapping_mul(SCALE);
    trunc_div(t as int, (QA * QB) as int) as i32
}

/// The little-endian `i16` at word `k`.
fn read_word(bytes: &[u8], k: usize) -> (r: i16)
    requires
        k < 100000,
        2 * k + 1 < bytes@.len(),
    ensures
        r == le_i16(bytes@, k as int),
{
    ((bytes[2 * k] as u16) | ((bytes[2 * k + 1] as u16) << 8)) as i16
}


/// One color's accumulator: the feature transformer's `HIDDEN`-vector for a
/// position from that color's perspective.
#[derive(Clone, Copy)]
pub struct Accumulator {
    vals: [i16; HIDDEN],
}

impl View for Accumulator {
    type V = Seq<i16>;

    closed spec fn view(&self) -> Seq<i16> {
        self.vals@
    }
}

/// `v` with feature `f`'s column added (`add`) or removed, wrapping.
pub open spec fn shift_column(net: Network, v: Seq<i16>, f: int, add: bool) -> Seq<i16> {
    Seq::new(
        HIDDEN as nat,
        |h: int|
            if add {
                v[h].wrapping_add(net.weight(f, h))
            } else {
                v[h].wrapping_sub(net.weight(f, h))
            },
    )
}

/// The feature biases, the accumulator of an empty board.
pub open spec fn bias_vector(net: Network) -> Seq<i16> {
    Seq::new(HIDDEN as nat, |h: int| net.bias(h))
}

impl Accumulator {
    /// The values, one per hidden unit.
    pub fn values(&self) -> (r: [i16; HIDDEN])
        ensures
            r@ == self@,
    {
        self.vals
    }

    /// A fresh accumulator initialized to the feature bias (an empty board).
    fn new(net: &Network) -> (r: Accumulator)
        ensures
            r@ == bias_vector(*net),
    {
        let mut vals = [0i16; HIDDEN];
        let mut h: usize = 0;
        while h < HIDDEN
            invariant
                h <= HIDDEN,
                forall|k: int| 0 <= k < h ==> #[trigger] vals@[k] == net.bias(k),
            decreases HIDDEN - h,
        {
            vals[h] = net.feature_bias[h];
            h = h + 1;
        }
        let r = Accumulator { vals };
        assert(r@ =~= bias_vector(*net));
        r
    }

    /// Add (`add`) or remove a feature column.
    fn shift(&mut self, feature: usize, net: &Network, add: bool)
        requires
            feature < INPUT,
        ensures
            final(self)@ == shift_column(*net, old(self)@, feature as int, add),
    {
        let mut h: usize = 0;
        while h < HIDDEN
            invariant
                feature < INPUT,
                h <= HIDDEN,
                forall|k: int| 0 <= k < h ==> #[trigger] self.vals@[k] == (if add {
                    old(self)@[k].wrapping_add(net.weight(feature as int, k))
                } else {
                    old(self)@[k].wrapping_sub(net.weight(feature as int, k))
                }),
                forall|k: int| h <= k < HIDDEN ==> #[trigger] self.vals@[k] == old(self)@[k],
            decreases HIDDEN - h,
        {
            assert(feature * HIDDEN + h < INPUT * HIDDEN) by (nonlinear_arith)
                requires
                    feature < INPUT,
                    h < HIDDEN,
            ;
            let w = net.feature_weights[feature * HIDDEN + h];
            let v = self.vals[h];
            self.vals[h] = if add {
                v.wrapping_add(w)
            } else {
                v.wrapping_sub(w)
            };
            h = h + 1;
        }
        assert(self@ =~= shift_column(*net, old(self)@, feature as int, add));
    }
}

/// The feature of a piece on square `s` from `persp`'s point of view:
/// friendly pieces in block `0..384`, enemy pieces in `384..768`, the board
/// mirrored vertically for Black.
pub open spec fn feature_of(pc: Piece, s: int, persp: Color) -> int {
    let pt = pc.spec_piece_type().spec_index() as int;
    let sq = if persp == Color::White {
        s
    } else {
        (7 - s / 8) * 8 + s % 8
    };
    (if pc.spec_color() == persp { 0int } else { 384int }) + 64 * pt + sq
}

proof fn lemma_mirror(s: usize)
    by (bit_vector)
    requires
        s < 64,
    ensures
        s ^ 56 == (7 - s / 8) * 8 + s % 8,
        s ^ 56 < 64,
{
}

/// The White-perspective and Black-perspective feature indices for a piece on
/// a square. White's perspective lists the board upright; Black's mirrors it
/// vertically (`square ^ 56`). In each perspective the friendly pieces occupy
/// feature block `0..384` and the enemy pieces `384..768`.
pub fn feature_indices(piece: Piece, sq: Square) -> (r: (usize, usize))
    requires
        sq.0 < 64,
    ensures
        r.0 == feature_of(piece, sq.0 as int, Color::White),
        r.1 == feature_of(piece, sq.0 as int, Color::Black),
        r.0 < INPUT,
        r.1 < INPUT,
{
    let pt = piece.piece_type().index();
    let s = sq.index();
    proof {
        lemma_mirror(s);
    }
    match piece.color() {
        Color::White => (64 * pt + s, 384 + 64 * pt + (s ^ 56)),
        Color::Black => (384 + 64 * pt + s, 64 * pt + (s ^ 56)),
    }
}

/// The accumulator of `persp` over the first `n` squares of `p`: the biases
/// plus the column of each occupied square's feature, in square order.
pub open spec fn accumulate(net: Network, p: Position, persp: Color, n: int) -> Seq<i16>
    decreases n,
{
    if n <= 0 {
        bias_vector(net)
    } else {
        let prev = accumulate(net, p, persp, n - 1);
        match p.squares[n - 1] {
            Some(pc) => shift_column(net, prev, feature_of(pc, n - 1, persp), true),
            None => prev,
        }
    }
}

/// One lane of a column shift.
pub open spec fn shift_lane(x: i16, w: i16, add: bool) -> i16 {
    if add {
        x.wrapping_add(w)
    } else {
        x.wrapping_sub(w)
    }
}

/// Two wrapping shifts of one lane commute.
proof fn lemma_lanes_commute(x: i16, a: i16, ta: bool, b: i16, tb: bool)
    ensures
        shift_lane(shift_lane(x, a, ta), b, tb) == shift_lane(shift_lane(x, b, tb), a, ta),
{
}

/// Adding a lane's weight and then removing it gives the lane back.
proof fn lemma_lane_restored(x: i16, a: i16)
    ensures
        shift_lane(shift_lane(x, a, true), a, false) == x,
{
}

/// Shifting by two columns in either order gives the same accumulator.
proof fn lemma_shifts_commute(net: Network, v: Seq<i16>, f: int, tf: bool, g: int, tg: bool)
    requires
        v.len() == HIDDEN,
    ensures
        shift_column(net, shift_column(net, v, f, tf), g, tg) == shift_column(net, shift_column(net, v, g, tg), f, tf),
{
    let l = shift_column(net, shift_column(net, v, f, tf), g, tg);
    let r = shift_column(net, shift_column(net, v, g, tg), f, tf);
    assert forall|h: int| 0 <= h < HIDDEN implies l[h] == r[h] by {
        lemma_lanes_commute(v[h], net.weight(f, h), tf, net.weight(g, h), tg);
    }
    assert(l =~= r);
}

/// Every accumulator has one value per hidden unit.
proof fn lemma_accumulate_len(net: Network, p: Position, persp: Color, n: int)
    ensures
        accumulate(net, p, persp, n).len() == HIDDEN,
    decreases n,
{
    if n > 0 {
        lemma_accumulate_len(net, p, persp, n - 1);
    }
}

/// Accumulating a position with one more piece, on square `s`, over the first
/// `n` squares.
proof fn lemma_place_prefix(net: Network, p: Position, q: Position, s: int, pc: Piece, persp: Color, n: int)
    requires
        p.squares.len() == 64,
        0 <= s < 64,
        p.squares[s] is None,
        q.squares == p.squares.update(s, Some(pc)),
        n <= 64,
    ensures
        n <= s ==> accumulate(net, q, persp, n) == accumulate(net, p, persp, n),
        n > s ==> accumulate(net, q, persp, n) == shift_column(net, accumulate(net, p, persp, n), feature_of(pc, s, persp), true),
    decreases n,
{
    if n > 0 {
        lemma_place_prefix(net, p, q, s, pc, persp, n - 1);
        lemma_accumulate_len(net, p, persp, n - 1);
        let f = feature_of(pc, s, persp);
        if n - 1 > s {
            assert(q.squares[n - 1] == p.squares[n - 1]);
            match p.squares[n - 1] {
                Some(other) => {
                    lemma_shifts_commute(net, accumulate(net, p, persp, n - 1), f, true, feature_of(other, n - 1, persp), true);
                },
                None => {},
            }
        } else if n - 1 == s {
            assert(q.squares[s] == Some(pc));
        } else {
            assert(q.squares[n - 1] == p.squares[n - 1]);
        }
    }
}

/// Placing a piece on an empty square adds exactly that piece's column to
/// each perspective's accumulator: the incremental update equals a refresh
/// of the new position.
pub proof fn lemma_place_matches_refresh(net: Network, p: Position, s: int, pc: Piece, persp: Color)
    requires
        p.squares.len() == 64,
        0 <= s < 64,
        p.squares[s] is None,
    ensures
        accumulate(net, Position { squares: p.squares.update(s, Some(pc)), ..p }, persp, 64) == shift_column(
            net,
            accumulate(net, p, persp, 64),
            feature_of(pc, s, persp),
            true,
        ),
{
    lemma_place_prefix(net, p, Position { squares: p.squares.update(s, Some(pc)), ..p }, s, pc, persp, 64);
}

/// Removing a piece from its square subtracts exactly that piece's column
/// from each perspective's accumulator: the incremental update equals a
/// refresh of the new position.
pub proof fn lemma_remove_matches_refresh(net: Network, p: Position, s: int, persp: Color)
    requires
        p.squares.len() == 64,
        0 <= s < 64,
        p.squares[s] is Some,
    ensures
        accumulate(net, Position { squares: p.squares.update(s, None), ..p }, persp, 64) == shift_column(
            net,
            accumulate(net, p, persp, 64),
            feature_of(p.squares[s].unwrap(), s, persp),
            false,
        ),
{
    let pc = p.squares[s].unwrap();
    let q = Position { squares: p.squares.update(s, None), ..p };
    assert(q.squares.update(s, Some(pc)) =~= p.squares);
    assert(Position { squares: q.squares.update(s, Some(pc)), ..q } == p);
    lemma_place_matches_refresh(net, q, s, pc, persp);
    let f = feature_of(pc, s, persp);
    let base = accumulate(net, q, persp, 64);
    lemma_accumulate_len(net, q, persp, 64);
    let back = shift_column(net, shift_column(net, base, f, true), f, false);
    assert forall|h: int| 0 <= h < HIDDEN implies back[h] == base[h] by {
        lemma_lane_restored(base[h], net.weight(f, h));
    }
    assert(back =~= base);
}

/// One column shift per entry of `fs`, in order; an empty entry leaves the
/// accumulator as it is.
pub open spec fn apply_all(net: Network, v: Seq<i16>, fs: Seq<Option<int>>) -> Seq<i16>
    decreases fs.len(),
{
    if fs.len() == 0 {
        v
    } else {
        let prev = apply_all(net, v, fs.drop_last());
        match fs.last() {
            Some(f) => shift_column(net, prev, f, true),
            None => prev,
        }
    }
}

/// The feature of square `t` of `p` for `persp`, if the square is occupied.
pub open spec fn square_feature(p: Position, persp: Color, t: int) -> Option<int> {
    match p.squares[t] {
        Some(pc) => Some(feature_of(pc, t, persp)),
        None => None,
    }
}

/// The features of the first `n` squares of `p`, in square order.
pub open spec fn square_features(p: Position, persp: Color, n: int) -> Seq<Option<int>> {
    Seq::new(n as nat, |t: int| square_feature(p, persp, t))
}

proof fn lemma_apply_len(net: Network, v: Seq<i16>, fs: Seq<Option<int>>)
    requires
        v.len() == HIDDEN,
    ensures
        apply_all(net, v, fs).len() == HIDDEN,
    decreases fs.len(),
{
    if fs.len() > 0 {
        lemma_apply_len(net, v, fs.drop_last());
    }
}

/// Accumulating a position is applying its square features to the biases.
proof fn lemma_accumulate_is_apply(net: Network, p: Position, persp: Color, n: int)
    requires
        0 <= n <= 64,
    ensures
        accumulate(net, p, persp, n) == apply_all(net, bias_vector(net), square_features(p, persp, n)),
    decreases n,
{
    if n > 0 {
        lemma_accumulate_is_apply(net, p, persp, n - 1);
        assert(square_features(p, persp, n).drop_last() =~= square_features(p, persp, n - 1));
    }
}

/// Applying `a` then `b` is applying `a + b`.
proof fn lemma_apply_concat(net: Network, v: Seq<i16>, a: Seq<Option<int>>, b: Seq<Option<int>>)
    ensures
        apply_all(net, apply_all(net, v, a), b) == apply_all(net, v, a + b),
    decreases b.len(),
{
    if b.len() > 0 {
        lemma_apply_concat(net, v, a, b.drop_last());
        assert((a + b).drop_last() =~= a + b.drop_last());
        assert((a + b).last() == b.last());
    }
}

/// A single shift passes through a run of shifts.
proof fn lemma_shift_through(net: Network, v: Seq<i16>, g: int, fs: Seq<Option<int>>)
    requires
        v.len() == HIDDEN,
    ensures
        apply_all(net, shift_column(net, v, g, true), fs) == shift_column(net, apply_all(net, v, fs), g, true),
    decreases fs.len(),
{
    if fs.len() > 0 {
        lemma_shift_through(net, v, g, fs.drop_last());
        lemma_apply_len(net, v, fs.drop_last());
        match fs.last() {
            Some(f) => {
                lemma_shifts_commute(net, apply_all(net, v, fs.drop_last()), g, true, f, true);
            },
            None => {},
        }
    }
}

/// Two runs of shifts can be applied in either order.
proof fn lemma_runs_commute(net: Network, v: Seq<i16>, a: Seq<Option<int>>, b: Seq<Option<int>>)
    requires
        v.len() == HIDDEN,
    ensures
        apply_all(net, apply_all(net, v, a), b) == apply_all(net, apply_all(net, v, b), a),
    decreases b.len(),
{
    if b.len() > 0 {
        lemma_runs_commute(net, v, a, b.drop_last());
        lemma_apply_len(net, v, b.drop_last());
        match b.last() {
            Some(g) => {
                lemma_shift_through(net, apply_all(net, v, b.drop_last()), g, a);
            },
            None => {},
        }
    }
}

/// The features of the mirrored position, seen from the other side, are
/// those of the position at the mirrored squares.
proof fn lemma_mirrored_features(p: Position, persp: Color)
    requires
        p.squares.len() == 64,
    ensures
        forall|t: int| 0 <= t < 64 ==> #[trigger] square_features(mirrored(p), persp.spec_flip(), 64)[t]
            == square_features(p, persp, 64)[mirror_square(t)],
{
    assert forall|t: int| 0 <= t < 64 implies #[trigger] square_features(mirrored(p), persp.spec_flip(), 64)[t]
        == square_features(p, persp, 64)[mirror_square(t)] by {
        let m = mirror_square(t);
        assert(0 <= m < 64);
        assert(mirror_square(m) == t);
        match p.squares[m] {
            Some(pc) => {
                lemma_swapped_piece(pc);
            },
            None => {},
        }
    }
}

/// Turning the board upside down reverses the order of the ranks: the first
/// `k` ranks of the position, read in order, act like the last `k` ranks of
/// the mirrored sequence.
proof fn lemma_ranks_reversed(net: Network, v: Seq<i16>, f: Seq<Option<int>>, g: Seq<Option<int>>, k: int)
    requires
        v.len() == HIDDEN,
        f.len() == 64,
        g.len() == 64,
        forall|t: int| 0 <= t < 64 ==> #[trigger] g[t] == f[mirror_square(t)],
        0 <= k <= 8,
    ensures
        apply_all(net, v, g.subrange(64 - 8 * k, 64)) == apply_all(net, v, f.subrange(0, 8 * k)),
    decreases k,
{
    if k > 0 {
        lemma_ranks_reversed(net, v, f, g, k - 1);
        let rank = f.subrange(8 * (k - 1), 8 * k);
        let tail = g.subrange(64 - 8 * (k - 1), 64);
        let head = f.subrange(0, 8 * (k - 1));
        assert(g.subrange(64 - 8 * k, 64 - 8 * (k - 1)) =~= rank) by {
            assert forall|i: int| 0 <= i < 8 implies g.subrange(64 - 8 * k, 64 - 8 * (k - 1))[i] == rank[i] by {
                let t = 64 - 8 * k + i;
                assert(mirror_square(t) == 8 * (k - 1) + i);
            }
        }
        assert(g.subrange(64 - 8 * k, 64) =~= rank + tail);
        assert(f.subrange(0, 8 * k) =~= head + rank);
        lemma_apply_concat(net, v, rank, tail);
        lemma_runs_commute(net, v, rank, tail);
        lemma_apply_concat(net, v, head, rank);
    }
}

/// The network scores a position and its mirror image (board turned upside
/// down, colors swapped, the other side to move) the same: each side's
/// accumulator of the mirror is the other side's accumulator of the position.
pub proof fn lemma_mirror_scores_equal(net: Network, p: Position)
    requires
        p.squares.len() == 64,
    ensures
        accumulate(net, mirrored(p), Color::White, 64) == accumulate(net, p, Color::Black, 64),
        accumulate(net, mirrored(p), Color::Black, 64) == accumulate(net, p, Color::White, 64),
        nnue_score(net, mirrored(p)) == nnue_score(net, p),
{
    let v = bias_vector(net);
    assert(v.len() == HIDDEN);
    assert forall|persp: Color| #![auto] accumulate(net, mirrored(p), persp.spec_flip(), 64) == accumulate(
        net,
        p,
        persp,
        64,
    ) by {
        lemma_accumulate_is_apply(net, mirrored(p), persp.spec_flip(), 64);
        lemma_accumulate_is_apply(net, p, persp, 64);
        lemma_mirrored_features(p, persp);
        let f = square_features(p, persp, 64);
        let g = square_features(mirrored(p), persp.spec_flip(), 64);
        lemma_ranks_reversed(net, v, f, g, 8);
        assert(g.subrange(0, 64) =~= g);
        assert(f.subrange(0, 64) =~= f);
    }
    assert(Color::Black.spec_flip() == Color::White);
    assert(Color::White.spec_flip() == Color::Black);
}

/// Both colored accumulators for one position.
#[derive(Clone, Copy)]
pub struct Accumulators {
    /// White's perspective.
    pub white: Accumulator,
    /// Black's perspective.
    pub black: Accumulator,
}

impl Accumulators {
    /// Build both accumulators from scratch for `board`.
    pub fn refresh(board: &Board, net: &Network) -> (r: Accumulators)
        ensures
            r.white@ == accumulate(*net, board@, Color::White, 64),
            r.black@ == accumulate(*net, board@, Color::Black, 64),
    {
        let mut acc = Accumulators { white: Accumulator::new(net), black: Accumulator::new(net) };
        let mut i: u8 = 0;
        while i < 64
            invariant
                i <= 64,
                acc.white@ == accumulate(*net, board@, Color::White, i as int),
                acc.black@ == accumulate(*net, board@, Color::Black, i as int),
            decreases 64 - i,
        {
            let sq = Square::new(i);
            match board.piece_on(sq) {
                Some(piece) => {
                    acc.add_piece(piece, sq, net);
                },
                None => {},
            }
            i = i + 1;
        }
        acc
    }

    /// Add a piece to both perspectives.
    pub fn add_piece(&mut self, piece: Piece, sq: Square, net: &Network)
        requires
            sq.0 < 64,
        ensures
            final(self).white@ == shift_column(*net, old(self).white@, feature_of(piece, sq.0 as int, Color::White), true),
            final(self).black@ == shift_column(*net, old(self).black@, feature_of(piece, sq.0 as int, Color::Black), true),
    {
        let (w, b) = feature_indices(piece, sq);
        self.white.shift(w, net, true);
        self.black.shift(b, net, true);
    }

    /// Remove a piece from both perspectives.
    pub fn remove_piece(&mut self, piece: Piece, sq: Square, net: &Network)
        requires
            sq.0 < 64,
        ensures
            final(self).white@ == shift_column(*net, old(self).white@, feature_of(piece, sq.0 as int, Color::White), false),
            final(self).black@ == shift_column(*net, old(self).black@, feature_of(piece, sq.0 as int, Color::Black), false),
    {
        let (w, b) = feature_indices(piece, sq);
        self.white.shift(w, net, false);
        self.black.shift(b, net, false);
    }

    /// Evaluate with `stm` to move from these accumulators.
    pub fn evaluate(&self, stm: Color, net: &Network) -> (r: i32)
        ensures
            r == net_output(
                *net,
                if stm == Color::White { self.white@ } else { self.black@ },
                if stm == Color::White { self.black@ } else { self.white@ },
            ),
    {
        net.evaluate(&self.white, &self.black, stm)
    }
}

/// The score the network gives a position, for its side to move.
pub open spec fn nnue_score(net: Network, p: Position) -> i32 {
    let w = accumulate(net, p, Color::White, 64);
    let b = accumulate(net, p, Color::Black, 64);
    if p.stm == Color::White {
        net_output(net, w, b)
    } else {
        net_output(net, b, w)
    }
}

/// An [`Evaluator`] backed by an NNUE [`Network`]; it refreshes both
/// accumulators from the board on each call.
#[derive(Clone)]
pub struct Nnue {
    net: Arc<Network>,
}

impl Nnue {
    /// The network this evaluator uses.
    pub closed spec fn spec_network(self) -> Network {
        *self.net
    }

    /// Build an evaluator from an in-memory network.
    pub fn new(net: Arc<Network>) -> (r: Nnue)
        ensures
            r.spec_network() == *net,
    {
        Nnue { net }
    }

    /// Load a network from its serialized bytes; `None` for a wrong length.
    pub fn from_bytes(bytes: &[u8]) -> (r: Option<Nnue>)
        ensures
            r is Some <==> (bytes@.len() == NETWORK_BYTES || bytes@.len() == NETWORK_BYTES_PADDED),
            r matches Some(n) ==> reads_network(n.spec_network(), bytes@),
    {
        match Network::from_bytes(bytes) {
            Some(net) => Some(Nnue { net: Arc::new(*net) }),
            None => None,
        }
    }

    /// Borrow the underlying network (shared handle).
    pub fn network(&self) -> (r: &Arc<Network>)
        ensures
            **r == self.spec_network(),
    {
        &self.net
    }
}

impl Evaluator for Nnue {
    open spec fn score_of(&self, p: Position) -> int {
        nnue_score(self.spec_network(), p) as int
    }

    fn evaluate(&self, board: &Board) -> (r: i32)
        ensures
            r == nnue_score(self.spec_network(), board@),
    {
        Accumulators::refresh(board, &self.net).evaluate(board.side_to_move(), &self.net)
    }
}

/// The evaluator the search runs, chosen at runtime: the hand-crafted PeSTO
/// evaluation or a loaded NNUE network.
#[derive(Clone)]
pub enum Eval {
    /// The classical hand-crafted evaluation.
    Hand(HandCrafted),
    /// A trained NNUE network.
    Net(Nnue),
}

impl Eval {
    /// The hand-crafted PeSTO evaluator.
    pub fn hand() -> (r: Eval)
        ensures
            r is Hand,
    {
        Eval::Hand(HandCrafted::new())
    }

    /// The engine's default evaluator: the NNUE network read from
    /// `default_net_bytes` (the engine's bundled network file), falling back
    /// to the hand-crafted evaluation only if those bytes do not parse.
    pub fn default_net(default_net_bytes: &[u8]) -> (r: Eval)
        ensures
            r is Net <==> (default_net_bytes@.len() == NETWORK_BYTES || default_net_bytes@.len()
                == NETWORK_BYTES_PADDED),
            r matches Eval::Net(n) ==> reads_network(n.spec_network(), default_net_bytes@),
    {
        match Nnue::from_bytes(default_net_bytes) {
            Some(n) => Eval::Net(n),
            None => Eval::hand(),
        }
    }

    /// A human-readable name for the active evaluator.
    pub fn name(&self) -> (r: &'static str)
        ensures
            self is Hand ==> r@ == "hand-crafted (PeSTO)"@,
            self is Net ==> r@ == "NNUE"@,
    {
        match self {
            Eval::Hand(_) => "hand-crafted (PeSTO)",
            Eval::Net(_) => "NNUE",
        }
    }
}

impl Default for Eval {
    fn default() -> (r: Eval)
        ensures
            r is Hand,
    {
        Eval::hand()
    }
}

impl Evaluator for Eval {
    open spec fn score_of(&self, p: Position) -> int {
        match self {
            Eval::Hand(_) => pesto(p),
            Eval::Net(n) => nnue_score(n.spec_network(), p) as int,
        }
    }

    fn evaluate(&self, board: &Board) -> (r: i32)
        ensures
            self matches Eval::Hand(_) ==> r == pesto(board@),
            self matches Eval::Net(n) ==> r == nnue_score(n.spec_network(), board@),
    {
        match self {
            Eval::Hand(e) => e.evaluate(board),
            Eval::Net(e) => e.evaluate(board),
        }
    }
}

} // verus!
