//! Search: iterative-deepening negamax with alpha-beta, quiescence, a
//! transposition table, and time management.
//!
//! The public entry points are [`think`], which runs a search on a position
//! under the given [`SearchLimits`] and reports each completed iteration to an
//! [`InfoSink`], and [`search_sync`], which searches quietly with its own table.
//!
//! The search is alpha-beta with principal-variation search, aspiration
//! windows, mate-distance scoring, a check extension, reverse futility and
//! null-move pruning, late move reductions and pruning, history and SEE
//! pruning, and quiescence with delta pruning, over moves ordered by the
//! transposition table, MVV-LVA with SEE, killers and history.

use vstd::prelude::*;
use std::sync::Arc;
use std::sync::atomic::{AtomicBool, Ordering};
use std::time::Instant;
use crate::board::Board;
use crate::clock::{clock_now, millis_since};
use crate::eval::{Evaluator, HandCrafted, PIECE_VALUE, trunc_div};
use crate::movegen::{
    extends, gen_ok, generate_legal, generate_noisy, has_plain_move, legal_moves,
    lemma_fitting_move_not_null, lemma_plain_move_listed, no_fitting_move, not_in_check,
};
use crate::moves::{Move, MoveList, lemma_move_bounds};
use crate::perft::{playable, lemma_play_keeps_playable};
use crate::position::apply_null;
use crate::tt::{Bound, Tt};
use crate::types::{Color, PieceType};

verus! {

/// Maximum search ply (bounds recursion and the PV / killer tables).
pub const MAX_PLY: usize = 128;
/// A value larger than any real evaluation, used as the alpha/beta infinity.
pub const INF: i32 = 32001;
/// Score of an immediate checkmate (delivered at the current node).
pub const MATE: i32 = 32000;
/// Scores with magnitude at or above this (`MATE - MAX_PLY`) are "mate in N"
/// scores.
pub const MATE_IN_MAX: i32 = 31872;

const DRAW: i32 = 0;
/// Safety margin subtracted from clock time to avoid flagging (ms).
const MOVE_OVERHEAD: u64 = 15;
/// Quiescence delta-pruning margin (centipawns).
const DELTA_MARGIN: i32 = 100;

/// Iterative-deepening depth at which aspiration windows switch on.
const ASPIRATION_MIN_DEPTH: i32 = 4;
/// Initial half-width of the aspiration window (centipawns).
const ASPIRATION_DELTA: i32 = 16;
/// Once a window has widened past this half-width, reopen it fully.
const ASPIRATION_MAX_DELTA: i32 = 600;

/// Deepest remaining depth at which reverse futility pruning is attempted.
const RFP_MAX_DEPTH: i32 = 6;
/// Per-ply margin (centipawns) the static eval must clear beta by.
const RFP_MARGIN: i32 = 80;

/// Minimum remaining depth at which a null move is tried.
const NMP_MIN_DEPTH: i32 = 3;
/// Null-move reduction is `NMP_BASE + depth / NMP_DIV`.
const NMP_BASE: i32 = 3;
const NMP_DIV: i32 = 3;

/// Deepest remaining depth at which SEE move pruning is attempted.
const SEE_PRUNE_MAX_DEPTH: i32 = 8;
/// A capture is SEE-pruned below `-SEE_CAPTURE_MARGIN * depth * depth`.
const SEE_CAPTURE_MARGIN: i32 = 20;
/// A quiet move is SEE-pruned below `-SEE_QUIET_MARGIN * depth`.
const SEE_QUIET_MARGIN: i32 = 65;

/// Minimum remaining depth at which late moves may be reduced.
const LMR_MIN_DEPTH: i32 = 3;
/// Reduce only the moves tried after this many at a node.
const LMR_MIN_MOVE_COUNT: usize = 3;

/// Late-move reductions by `[depth][move number]`: the integer part of
/// `0.75 + ln(depth) * ln(move) / 2.25`, and zero in row and column zero.
const LMR_TABLE: [[u8; 64]; 64] = [
    [0, 0, 0, 0, 0, 0, 0, 0, 0, 0, 0, 0, 0, 0, 0, 0, 0, 0, 0, 0, 0, 0, 0, 0, 0, 0, 0, 0, 0, 0, 0, 0, 0, 0, 0, 0, 0, 0, 0, 0, 0, 0, 0, 0, 0, 0, 0, 0, 0, 0, 0, 0, 0, 0, 0, 0, 0, 0, 0, 0, 0, 0, 0, 0],
    [0, 0, 0, 0, 0, 0, 0, 0, 0, 0, 0, 0, 0, 0, 0, 0, 0, 0, 0, 0, 0, 0, 0, 0, 0, 0, 0, 0, 0, 0, 0, 0, 0, 0, 0, 0, 0, 0, 0, 0, 0, 0, 0, 0, 0, 0, 0, 0, 0, 0, 0, 0, 0, 0, 0, 0, 0, 0, 0, 0, 0, 0, 0, 0],
    [0, 0, 0, 1, 1, 1, 1, 1, 1, 1, 1, 1, 1, 1, 1, 1, 1, 1, 1, 1, 1, 1, 1, 1, 1, 1, 1, 1, 1, 1, 1, 1, 1, 1, 1, 1, 1, 1, 1, 1, 1, 1, 1, 1, 1, 1, 1, 1, 1, 1, 1, 1, 1, 1, 1, 1, 1, 1, 2, 2, 2, 2, 2, 2],
    [0, 0, 1, 1, 1, 1, 1, 1, 1, 1, 1, 1, 1, 2, 2, 2, 2, 2, 2, 2, 2, 2, 2, 2, 2, 2, 2, 2, 2, 2, 2, 2, 2, 2, 2, 2, 2, 2, 2, 2, 2, 2, 2, 2, 2, 2, 2, 2, 2, 2, 2, 2, 2, 2, 2, 2, 2, 2, 2, 2, 2, 2, 2, 2],
    [0, 0, 1, 1, 1, 1, 1, 1, 2, 2, 2, 2, 2, 2, 2, 2, 2, 2, 2, 2, 2, 2, 2, 2, 2, 2, 2, 2, 2, 2, 2, 2, 2, 2, 2, 2, 2, 2, 2, 3, 3, 3, 3, 3, 3, 3, 3, 3, 3, 3, 3, 3, 3, 3, 3, 3, 3, 3, 3, 3, 3, 3, 3, 3],
    [0, 0, 1, 1, 1, 1, 2, 2, 2, 2, 2, 2, 2, 2, 2, 2, 2, 2, 2, 2, 2, 2, 2, 2, 3, 3, 3, 3, 3, 3, 3, 3, 3, 3, 3, 3, 3, 3, 3, 3, 3, 3, 3, 3, 3, 3, 3, 3, 3, 3, 3, 3, 3, 3, 3, 3, 3, 3, 3, 3, 3, 3, 3, 3],
    [0, 0, 1, 1, 1, 2, 2, 2, 2, 2, 2, 2, 2, 2, 2, 2, 2, 3, 3, 3, 3, 3, 3, 3, 3, 3, 3, 3, 3, 3, 3, 3, 3, 3, 3, 3, 3, 3, 3, 3, 3, 3, 3, 3, 3, 3, 3, 3, 3, 3, 3, 3, 3, 3, 3, 3, 3, 3, 3, 3, 4, 4, 4, 4],
    [0, 0, 1, 1, 1, 2, 2, 2, 2, 2, 2, 2, 2, 2, 3, 3, 3, 3, 3, 3, 3, 3, 3, 3, 3, 3, 3, 3, 3, 3, 3, 3, 3, 3, 3, 3, 3, 3, 3, 3, 3, 3, 3, 4, 4, 4, 4, 4, 4, 4, 4, 4, 4, 4, 4, 4, 4, 4, 4, 4, 4, 4, 4, 4],
    [0, 0, 1, 1, 2, 2, 2, 2, 2, 2, 2, 2, 3, 3, 3, 3, 3, 3, 3, 3, 3, 3, 3, 3, 3, 3, 3, 3, 3, 3, 3, 3, 3, 3, 4, 4, 4, 4, 4, 4, 4, 4, 4, 4, 4, 4, 4, 4, 4, 4, 4, 4, 4, 4, 4, 4, 4, 4, 4, 4, 4, 4, 4, 4],
    [0, 0, 1, 1, 2, 2, 2, 2, 2, 2, 2, 3, 3, 3, 3, 3, 3, 3, 3, 3, 3, 3, 3, 3, 3, 3, 3, 3, 4, 4, 4, 4, 4, 4, 4, 4, 4, 4, 4, 4, 4, 4, 4, 4, 4, 4, 4, 4, 4, 4, 4, 4, 4, 4, 4, 4, 4, 4, 4, 4, 4, 4, 4, 4],
    [0, 0, 1, 1, 2, 2, 2, 2, 2, 2, 3, 3, 3, 3, 3, 3, 3, 3, 3, 3, 3, 3, 3, 3, 4, 4, 4, 4, 4, 4, 4, 4, 4, 4, 4, 4, 4, 4, 4, 4, 4, 4, 4, 4, 4, 4, 4, 4, 4, 4, 4, 4, 4, 4, 4, 4, 4, 4, 4, 4, 4, 4, 4, 4],
    [0, 0, 1, 1, 2, 2, 2, 2, 2, 3, 3, 3, 3, 3, 3, 3, 3, 3, 3, 3, 3, 3, 4, 4, 4, 4, 4, 4, 4, 4, 4, 4, 4, 4, 4, 4, 4, 4, 4, 4, 4, 4, 4, 4, 4, 4, 4, 4, 4, 4, 4, 4, 4, 4, 5, 5, 5, 5, 5, 5, 5, 5, 5, 5],
    [0, 0, 1, 1, 2, 2, 2, 2, 3, 3, 3, 3, 3, 3, 3, 3, 3, 3, 3, 4, 4, 4, 4, 4, 4, 4, 4, 4, 4, 4, 4, 4, 4, 4, 4, 4, 4, 4, 4, 4, 4, 4, 4, 4, 4, 4, 4, 5, 5, 5, 5, 5, 5, 5, 5, 5, 5, 5, 5, 5, 5, 5, 5, 5],
    [0, 0, 1, 2, 2, 2, 2, 2, 3, 3, 3, 3, 3, 3, 3, 3, 3, 3, 4, 4, 4, 4, 4, 4, 4, 4, 4, 4, 4, 4, 4, 4, 4, 4, 4, 4, 4, 4, 4, 4, 4, 4, 5, 5, 5, 5, 5, 5, 5, 5, 5, 5, 5, 5, 5, 5, 5, 5, 5, 5, 5, 5, 5, 5],
    [0, 0, 1, 2, 2, 2, 2, 3, 3, 3, 3, 3, 3, 3, 3, 3, 4, 4, 4, 4, 4, 4, 4, 4, 4, 4, 4, 4, 4, 4, 4, 4, 4, 4, 4, 4, 4, 4, 5, 5, 5, 5, 5, 5, 5, 5, 5, 5, 5, 5, 5, 5, 5, 5, 5, 5, 5, 5, 5, 5, 5, 5, 5, 5],
    [0, 0, 1, 2, 2, 2, 2, 3, 3, 3, 3, 3, 3, 3, 3, 4, 4, 4, 4, 4, 4, 4, 4, 4, 4, 4, 4, 4, 4, 4, 4, 4, 4, 4, 4, 5, 5, 5, 5, 5, 5, 5, 5, 5, 5, 5, 5, 5, 5, 5, 5, 5, 5, 5, 5, 5, 5, 5, 5, 5, 5, 5, 5, 5],
    [0, 0, 1, 2, 2, 2, 2, 3, 3, 3, 3, 3, 3, 3, 4, 4, 4, 4, 4, 4, 4, 4, 4, 4, 4, 4, 4, 4, 4, 4, 4, 4, 5, 5, 5, 5, 5, 5, 5, 5, 5, 5, 5, 5, 5, 5, 5, 5, 5, 5, 5, 5, 5, 5, 5, 5, 5, 5, 5, 5, 5, 5, 5, 5],
    [0, 0, 1, 2, 2, 2, 3, 3, 3, 3, 3, 3, 3, 3, 4, 4, 4, 4, 4, 4, 4, 4, 4, 4, 4, 4, 4, 4, 4, 4, 5, 5, 5, 5, 5, 5, 5, 5, 5, 5, 5, 5, 5, 5, 5, 5, 5, 5, 5, 5, 5, 5, 5, 5, 5, 5, 5, 5, 5, 5, 5, 5, 5, 5],
    [0, 0, 1, 2, 2, 2, 3, 3, 3, 3, 3, 3, 3, 4, 4, 4, 4, 4, 4, 4, 4, 4, 4, 4, 4, 4, 4, 4, 5, 5, 5, 5, 5, 5, 5, 5, 5, 5, 5, 5, 5, 5, 5, 5, 5, 5, 5, 5, 5, 5, 5, 5, 5, 5, 5, 5, 5, 5, 5, 5, 6, 6, 6, 6],
    [0, 0, 1, 2, 2, 2, 3, 3, 3, 3, 3, 3, 4, 4, 4, 4, 4, 4, 4, 4, 4, 4, 4, 4, 4, 4, 5, 5, 5, 5, 5, 5, 5, 5, 5, 5, 5, 5, 5, 5, 5, 5, 5, 5, 5, 5, 5, 5, 5, 5, 5, 5, 5, 5, 5, 5, 6, 6, 6, 6, 6, 6, 6, 6],
    [0, 0, 1, 2, 2, 2, 3, 3, 3, 3, 3, 3, 4, 4, 4, 4, 4, 4, 4, 4, 4, 4, 4, 4, 4, 5, 5, 5, 5, 5, 5, 5, 5, 5, 5, 5, 5, 5, 5, 5, 5, 5, 5, 5, 5, 5, 5, 5, 5, 5, 5, 5, 6, 6, 6, 6, 6, 6, 6, 6, 6, 6, 6, 6],
    [0, 0, 1, 2, 2, 2, 3, 3, 3, 3, 3, 3, 4, 4, 4, 4, 4, 4, 4, 4, 4, 4, 4, 4, 5, 5, 5, 5, 5, 5, 5, 5, 5, 5, 5, 5, 5, 5, 5, 5, 5, 5, 5, 5, 5, 5, 5, 5, 5, 6, 6, 6, 6, 6, 6, 6, 6, 6, 6, 6, 6, 6, 6, 6],
    [0, 0, 1, 2, 2, 2, 3, 3, 3, 3, 3, 4, 4, 4, 4, 4, 4, 4, 4, 4, 4, 4, 4, 5, 5, 5, 5, 5, 5, 5, 5, 5, 5, 5, 5, 5, 5, 5, 5, 5, 5, 5, 5, 5, 5, 5, 6, 6, 6, 6, 6, 6, 6, 6, 6, 6, 6, 6, 6, 6, 6, 6, 6, 6],
    [0, 0, 1, 2, 2, 2, 3, 3, 3, 3, 3, 4, 4, 4, 4, 4, 4, 4, 4, 4, 4, 4, 5, 5, 5, 5, 5, 5, 5, 5, 5, 5, 5, 5, 5, 5, 5, 5, 5, 5, 5, 5, 5, 5, 6, 6, 6, 6, 6, 6, 6, 6, 6, 6, 6, 6, 6, 6, 6, 6, 6, 6, 6, 6],
    [0, 0, 1, 2, 2, 3, 3, 3, 3, 3, 4, 4, 4, 4, 4, 4, 4, 4, 4, 4, 4, 5, 5, 5, 5, 5, 5, 5, 5, 5, 5, 5, 5, 5, 5, 5, 5, 5, 5, 5, 5, 5, 6, 6, 6, 6, 6, 6, 6, 6, 6, 6, 6, 6, 6, 6, 6, 6, 6, 6, 6, 6, 6, 6],
    [0, 0, 1, 2, 2, 3, 3, 3, 3, 3, 4, 4, 4, 4, 4, 4, 4, 4, 4, 4, 5, 5, 5, 5, 5, 5, 5, 5, 5, 5, 5, 5, 5, 5, 5, 5, 5, 5, 5, 5, 6, 6, 6, 6, 6, 6, 6, 6, 6, 6, 6, 6, 6, 6, 6, 6, 6, 6, 6, 6, 6, 6, 6, 6],
    [0, 0, 1, 2, 2, 3, 3, 3, 3, 3, 4, 4, 4, 4, 4, 4, 4, 4, 4, 5, 5, 5, 5, 5, 5, 5, 5, 5, 5, 5, 5, 5, 5, 5, 5, 5, 5, 5, 6, 6, 6, 6, 6, 6, 6, 6, 6, 6, 6, 6, 6, 6, 6, 6, 6, 6, 6, 6, 6, 6, 6, 6, 6, 6],
    [0, 0, 1, 2, 2, 3, 3, 3, 3, 3, 4, 4, 4, 4, 4, 4, 4, 4, 4, 5, 5, 5, 5, 5, 5, 5, 5, 5, 5, 5, 5, 5, 5, 5, 5, 5, 5, 6, 6, 6, 6, 6, 6, 6, 6, 6, 6, 6, 6, 6, 6, 6, 6, 6, 6, 6, 6, 6, 6, 6, 6, 6, 6, 6],
    [0, 0, 1, 2, 2, 3, 3, 3, 3, 4, 4, 4, 4, 4, 4, 4, 4, 4, 5, 5, 5, 5, 5, 5, 5, 5, 5, 5, 5, 5, 5, 5, 5, 5, 5, 6, 6, 6, 6, 6, 6, 6, 6, 6, 6, 6, 6, 6, 6, 6, 6, 6, 6, 6, 6, 6, 6, 6, 6, 6, 6, 6, 6, 6],
    [0, 0, 1, 2, 2, 3, 3, 3, 3, 4, 4, 4, 4, 4, 4, 4, 4, 4, 5, 5, 5, 5, 5, 5, 5, 5, 5, 5, 5, 5, 5, 5, 5, 5, 6, 6, 6, 6, 6, 6, 6, 6, 6, 6, 6, 6, 6, 6, 6, 6, 6, 6, 6, 6, 6, 6, 6, 6, 6, 6, 6, 6, 6, 6],
    [0, 0, 1, 2, 2, 3, 3, 3, 3, 4, 4, 4, 4, 4, 4, 4, 4, 5, 5, 5, 5, 5, 5, 5, 5, 5, 5, 5, 5, 5, 5, 5, 5, 6, 6, 6, 6, 6, 6, 6, 6, 6, 6, 6, 6, 6, 6, 6, 6, 6, 6, 6, 6, 6, 6, 6, 6, 6, 6, 6, 6, 6, 6, 7],
    [0, 0, 1, 2, 2, 3, 3, 3, 3, 4, 4, 4, 4, 4, 4, 4, 4, 5, 5, 5, 5, 5, 5, 5, 5, 5, 5, 5, 5, 5, 5, 5, 6, 6, 6, 6, 6, 6, 6, 6, 6, 6, 6, 6, 6, 6, 6, 6, 6, 6, 6, 6, 6, 6, 6, 6, 6, 6, 6, 6, 6, 7, 7, 7],
    [0, 0, 1, 2, 2, 3, 3, 3, 3, 4, 4, 4, 4, 4, 4, 4, 5, 5, 5, 5, 5, 5, 5, 5, 5, 5, 5, 5, 5, 5, 5, 6, 6, 6, 6, 6, 6, 6, 6, 6, 6, 6, 6, 6, 6, 6, 6, 6, 6, 6, 6, 6, 6, 6, 6, 6, 6, 6, 7, 7, 7, 7, 7, 7],
    [0, 0, 1, 2, 2, 3, 3, 3, 3, 4, 4, 4, 4, 4, 4, 4, 5, 5, 5, 5, 5, 5, 5, 5, 5, 5, 5, 5, 5, 5, 6, 6, 6, 6, 6, 6, 6, 6, 6, 6, 6, 6, 6, 6, 6, 6, 6, 6, 6, 6, 6, 6, 6, 6, 6, 6, 7, 7, 7, 7, 7, 7, 7, 7],
    [0, 0, 1, 2, 2, 3, 3, 3, 4, 4, 4, 4, 4, 4, 4, 4, 5, 5, 5, 5, 5, 5, 5, 5, 5, 5, 5, 5, 5, 6, 6, 6, 6, 6, 6, 6, 6, 6, 6, 6, 6, 6, 6, 6, 6, 6, 6, 6, 6, 6, 6, 6, 6, 6, 7, 7, 7, 7, 7, 7, 7, 7, 7, 7],
    [0, 0, 1, 2, 2, 3, 3, 3, 4, 4, 4, 4, 4, 4, 4, 5, 5, 5, 5, 5, 5, 5, 5, 5, 5, 5, 5, 5, 6, 6, 6, 6, 6, 6, 6, 6, 6, 6, 6, 6, 6, 6, 6, 6, 6, 6, 6, 6, 6, 6, 6, 6, 6, 7, 7, 7, 7, 7, 7, 7, 7, 7, 7, 7],
    [0, 0, 1, 2, 2, 3, 3, 3, 4, 4, 4, 4, 4, 4, 4, 5, 5, 5, 5, 5, 5, 5, 5, 5, 5, 5, 5, 5, 6, 6, 6, 6, 6, 6, 6, 6, 6, 6, 6, 6, 6, 6, 6, 6, 6, 6, 6, 6, 6, 6, 6, 7, 7, 7, 7, 7, 7, 7, 7, 7, 7, 7, 7, 7],
    [0, 0, 1, 2, 2, 3, 3, 3, 4, 4, 4, 4, 4, 4, 4, 5, 5, 5, 5, 5, 5, 5, 5, 5, 5, 5, 5, 6, 6, 6, 6, 6, 6, 6, 6, 6, 6, 6, 6, 6, 6, 6, 6, 6, 6, 6, 6, 6, 6, 6, 7, 7, 7, 7, 7, 7, 7, 7, 7, 7, 7, 7, 7, 7],
    [0, 0, 1, 2, 2, 3, 3, 3, 4, 4, 4, 4, 4, 4, 5, 5, 5, 5, 5, 5, 5, 5, 5, 5, 5, 5, 6, 6, 6, 6, 6, 6, 6, 6, 6, 6, 6, 6, 6, 6, 6, 6, 6, 6, 6, 6, 6, 6, 7, 7, 7, 7, 7, 7, 7, 7, 7, 7, 7, 7, 7, 7, 7, 7],
    [0, 0, 1, 2, 3, 3, 3, 3, 4, 4, 4, 4, 4, 4, 5, 5, 5, 5, 5, 5, 5, 5, 5, 5, 5, 5, 6, 6, 6, 6, 6, 6, 6, 6, 6, 6, 6, 6, 6, 6, 6, 6, 6, 6, 6, 6, 6, 7, 7, 7, 7, 7, 7, 7, 7, 7, 7, 7, 7, 7, 7, 7, 7, 7],
    [0, 0, 1, 2, 3, 3, 3, 3, 4, 4, 4, 4, 4, 4, 5, 5, 5, 5, 5, 5, 5, 5, 5, 5, 5, 6, 6, 6, 6, 6, 6, 6, 6, 6, 6, 6, 6, 6, 6, 6, 6, 6, 6, 6, 6, 6, 7, 7, 7, 7, 7, 7, 7, 7, 7, 7, 7, 7, 7, 7, 7, 7, 7, 7],
    [0, 0, 1, 2, 3, 3, 3, 3, 4, 4, 4, 4, 4, 4, 5, 5, 5, 5, 5, 5, 5, 5, 5, 5, 5, 6, 6, 6, 6, 6, 6, 6, 6, 6, 6, 6, 6, 6, 6, 6, 6, 6, 6, 6, 6, 7, 7, 7, 7, 7, 7, 7, 7, 7, 7, 7, 7, 7, 7, 7, 7, 7, 7, 7],
    [0, 0, 1, 2, 3, 3, 3, 3, 4, 4, 4, 4, 4, 5, 5, 5, 5, 5, 5, 5, 5, 5, 5, 5, 6, 6, 6, 6, 6, 6, 6, 6, 6, 6, 6, 6, 6, 6, 6, 6, 6, 6, 6, 6, 7, 7, 7, 7, 7, 7, 7, 7, 7, 7, 7, 7, 7, 7, 7, 7, 7, 7, 7, 7],
    [0, 0, 1, 2, 3, 3, 3, 4, 4, 4, 4, 4, 4, 5, 5, 5, 5, 5, 5, 5, 5, 5, 5, 5, 6, 6, 6, 6, 6, 6, 6, 6, 6, 6, 6, 6, 6, 6, 6, 6, 6, 6, 6, 7, 7, 7, 7, 7, 7, 7, 7, 7, 7, 7, 7, 7, 7, 7, 7, 7, 7, 7, 7, 7],
    [0, 0, 1, 2, 3, 3, 3, 4, 4, 4, 4, 4, 4, 5, 5, 5, 5, 5, 5, 5, 5, 5, 5, 6, 6, 6, 6, 6, 6, 6, 6, 6, 6, 6, 6, 6, 6, 6, 6, 6, 6, 6, 7, 7, 7, 7, 7, 7, 7, 7, 7, 7, 7, 7, 7, 7, 7, 7, 7, 7, 7, 7, 7, 7],
    [0, 0, 1, 2, 3, 3, 3, 4, 4, 4, 4, 4, 4, 5, 5, 5, 5, 5, 5, 5, 5, 5, 5, 6, 6, 6, 6, 6, 6, 6, 6, 6, 6, 6, 6, 6, 6, 6, 6, 6, 6, 7, 7, 7, 7, 7, 7, 7, 7, 7, 7, 7, 7, 7, 7, 7, 7, 7, 7, 7, 7, 7, 7, 7],
    [0, 0, 1, 2, 3, 3, 3, 4, 4, 4, 4, 4, 4, 5, 5, 5, 5, 5, 5, 5, 5, 5, 6, 6, 6, 6, 6, 6, 6, 6, 6, 6, 6, 6, 6, 6, 6, 6, 6, 6, 7, 7, 7, 7, 7, 7, 7, 7, 7, 7, 7, 7, 7, 7, 7, 7, 7, 7, 7, 7, 7, 7, 7, 7],
    [0, 0, 1, 2, 3, 3, 3, 4, 4, 4, 4, 4, 5, 5, 5, 5, 5, 5, 5, 5, 5, 5, 6, 6, 6, 6, 6, 6, 6, 6, 6, 6, 6, 6, 6, 6, 6, 6, 6, 7, 7, 7, 7, 7, 7, 7, 7, 7, 7, 7, 7, 7, 7, 7, 7, 7, 7, 7, 7, 7, 7, 7, 7, 7],
    [0, 0, 1, 2, 3, 3, 3, 4, 4, 4, 4, 4, 5, 5, 5, 5, 5, 5, 5, 5, 5, 5, 6, 6, 6, 6, 6, 6, 6, 6, 6, 6, 6, 6, 6, 6, 6, 6, 7, 7, 7, 7, 7, 7, 7, 7, 7, 7, 7, 7, 7, 7, 7, 7, 7, 7, 7, 7, 7, 7, 7, 7, 7, 7],
    [0, 0, 1, 2, 3, 3, 3, 4, 4, 4, 4, 4, 5, 5, 5, 5, 5, 5, 5, 5, 5, 6, 6, 6, 6, 6, 6, 6, 6, 6, 6, 6, 6, 6, 6, 6, 6, 6, 7, 7, 7, 7, 7, 7, 7, 7, 7, 7, 7, 7, 7, 7, 7, 7, 7, 7, 7, 7, 7, 7, 7, 7, 7, 7],
    [0, 0, 1, 2, 3, 3, 3, 4, 4, 4, 4, 4, 5, 5, 5, 5, 5, 5, 5, 5, 5, 6, 6, 6, 6, 6, 6, 6, 6, 6, 6, 6, 6, 6, 6, 6, 6, 7, 7, 7, 7, 7, 7, 7, 7, 7, 7, 7, 7, 7, 7, 7, 7, 7, 7, 7, 7, 7, 7, 7, 7, 7, 7, 7],
    [0, 0, 1, 2, 3, 3, 3, 4, 4, 4, 4, 4, 5, 5, 5, 5, 5, 5, 5, 5, 5, 6, 6, 6, 6, 6, 6, 6, 6, 6, 6, 6, 6, 6, 6, 6, 7, 7, 7, 7, 7, 7, 7, 7, 7, 7, 7, 7, 7, 7, 7, 7, 7, 7, 7, 7, 7, 7, 7, 7, 7, 7, 7, 7],
    [0, 0, 1, 2, 3, 3, 3, 4, 4, 4, 4, 4, 5, 5, 5, 5, 5, 5, 5, 5, 6, 6, 6, 6, 6, 6, 6, 6, 6, 6, 6, 6, 6, 6, 6, 6, 7, 7, 7, 7, 7, 7, 7, 7, 7, 7, 7, 7, 7, 7, 7, 7, 7, 7, 7, 7, 7, 7, 7, 7, 7, 7, 7, 8],
    [0, 0, 1, 2, 3, 3, 3, 4, 4, 4, 4, 4, 5, 5, 5, 5, 5, 5, 5, 5, 6, 6, 6, 6, 6, 6, 6, 6, 6, 6, 6, 6, 6, 6, 6, 7, 7, 7, 7, 7, 7, 7, 7, 7, 7, 7, 7, 7, 7, 7, 7, 7, 7, 7, 7, 7, 7, 7, 7, 7, 7, 8, 8, 8],
    [0, 0, 1, 2, 3, 3, 3, 4, 4, 4, 4, 5, 5, 5, 5, 5, 5, 5, 5, 5, 6, 6, 6, 6, 6, 6, 6, 6, 6, 6, 6, 6, 6, 6, 7, 7, 7, 7, 7, 7, 7, 7, 7, 7, 7, 7, 7, 7, 7, 7, 7, 7, 7, 7, 7, 7, 7, 7, 7, 7, 8, 8, 8, 8],
    [0, 0, 1, 2, 3, 3, 3, 4, 4, 4, 4, 5, 5, 5, 5, 5, 5, 5, 5, 5, 6, 6, 6, 6, 6, 6, 6, 6, 6, 6, 6, 6, 6, 6, 7, 7, 7, 7, 7, 7, 7, 7, 7, 7, 7, 7, 7, 7, 7, 7, 7, 7, 7, 7, 7, 7, 7, 7, 7, 8, 8, 8, 8, 8],
    [0, 0, 1, 2, 3, 3, 3, 4, 4, 4, 4, 5, 5, 5, 5, 5, 5, 5, 5, 6, 6, 6, 6, 6, 6, 6, 6, 6, 6, 6, 6, 6, 6, 7, 7, 7, 7, 7, 7, 7, 7, 7, 7, 7, 7, 7, 7, 7, 7, 7, 7, 7, 7, 7, 7, 7, 7, 7, 8, 8, 8, 8, 8, 8],
    [0, 0, 1, 2, 3, 3, 3, 4, 4, 4, 4, 5, 5, 5, 5, 5, 5, 5, 5, 6, 6, 6, 6, 6, 6, 6, 6, 6, 6, 6, 6, 6, 6, 7, 7, 7, 7, 7, 7, 7, 7, 7, 7, 7, 7, 7, 7, 7, 7, 7, 7, 7, 7, 7, 7, 7, 7, 8, 8, 8, 8, 8, 8, 8],
    [0, 0, 2, 2, 3, 3, 3, 4, 4, 4, 4, 5, 5, 5, 5, 5, 5, 5, 5, 6, 6, 6, 6, 6, 6, 6, 6, 6, 6, 6, 6, 6, 7, 7, 7, 7, 7, 7, 7, 7, 7, 7, 7, 7, 7, 7, 7, 7, 7, 7, 7, 7, 7, 7, 7, 7, 8, 8, 8, 8, 8, 8, 8, 8],
    [0, 0, 2, 2, 3, 3, 3, 4, 4, 4, 4, 5, 5, 5, 5, 5, 5, 5, 5, 6, 6, 6, 6, 6, 6, 6, 6, 6, 6, 6, 6, 6, 7, 7, 7, 7, 7, 7, 7, 7, 7, 7, 7, 7, 7, 7, 7, 7, 7, 7, 7, 7, 7, 7, 7, 8, 8, 8, 8, 8, 8, 8, 8, 8],
    [0, 0, 2, 2, 3, 3, 4, 4, 4, 4, 4, 5, 5, 5, 5, 5, 5, 5, 6, 6, 6, 6, 6, 6, 6, 6, 6, 6, 6, 6, 6, 6, 7, 7, 7, 7, 7, 7, 7, 7, 7, 7, 7, 7, 7, 7, 7, 7, 7, 7, 7, 7, 7, 7, 8, 8, 8, 8, 8, 8, 8, 8, 8, 8],
    [0, 0, 2, 2, 3, 3, 4, 4, 4, 4, 4, 5, 5, 5, 5, 5, 5, 5, 6, 6, 6, 6, 6, 6, 6, 6, 6, 6, 6, 6, 6, 7, 7, 7, 7, 7, 7, 7, 7, 7, 7, 7, 7, 7, 7, 7, 7, 7, 7, 7, 7, 7, 7, 8, 8, 8, 8, 8, 8, 8, 8, 8, 8, 8],
    [0, 0, 2, 2, 3, 3, 4, 4, 4, 4, 4, 5, 5, 5, 5, 5, 5, 5, 6, 6, 6, 6, 6, 6, 6, 6, 6, 6, 6, 6, 6, 7, 7, 7, 7, 7, 7, 7, 7, 7, 7, 7, 7, 7, 7, 7, 7, 7, 7, 7, 7, 7, 7, 8, 8, 8, 8, 8, 8, 8, 8, 8, 8, 8],
    [0, 0, 2, 2, 3, 3, 4, 4, 4, 4, 4, 5, 5, 5, 5, 5, 5, 5, 6, 6, 6, 6, 6, 6, 6, 6, 6, 6, 6, 6, 7, 7, 7, 7, 7, 7, 7, 7, 7, 7, 7, 7, 7, 7, 7, 7, 7, 7, 7, 7, 7, 7, 8, 8, 8, 8, 8, 8, 8, 8, 8, 8, 8, 8],
];

// Move-ordering score tiers.
const TT_SCORE: i32 = 2_000_000;
const CAPTURE_BASE: i32 = 1_000_000;
const KILLER0_SCORE: i32 = 900_000;
const KILLER1_SCORE: i32 = 800_000;
const BAD_CAPTURE_BASE: i32 = -1_000_000;

/// Maximum magnitude of any history value; the gravity update keeps values here.
const HIST_CAP: i32 = 16_384;
/// Cap on a single history bonus/penalty (the raw value is `depth * depth`).
const HIST_MAX_BONUS: i32 = 1_200;
/// Combined history is divided by this and clamped to +-2 to nudge the LMR depth.
const HIST_LMR_DIV: i32 = 8_192;
/// Most quiet moves remembered per node for the history penalty.
const MAX_QUIETS: usize = 64;

/// Deepest remaining depth at which late-move pruning applies.
const LMP_MAX_DEPTH: i32 = 8;
/// Late-move-pruning count: after `LMP_BASE + depth * depth` moves, skip quiets.
const LMP_BASE: i32 = 3;
/// Deepest remaining depth at which quiet history pruning applies.
const HP_MAX_DEPTH: i32 = 4;
/// A quiet move is history-pruned below `-HP_MARGIN * depth`.
const HP_MARGIN: i32 = 2_000;

/// Number of continuation plies tracked (one and two plies back).
const CONT_PLIES: usize = 2;
/// Entries of the continuation-history table: `[offset][prev piece][prev to]
/// [cur piece][cur to]`.
const CONT_SIZE: usize = 1_179_648;

/// The limits requested by a `go` command.
#[derive(Clone, Copy, Default, Debug)]
pub struct SearchLimits {
    /// Fixed search depth.
    pub depth: Option<u32>,
    /// Node budget.
    pub nodes: Option<u64>,
    /// Fixed time per move (ms).
    pub movetime: Option<u64>,
    /// White's remaining clock (ms).
    pub wtime: Option<u64>,
    /// Black's remaining clock (ms).
    pub btime: Option<u64>,
    /// White's increment (ms).
    pub winc: Option<u64>,
    /// Black's increment (ms).
    pub binc: Option<u64>,
    /// Moves until the next time control.
    pub movestogo: Option<u32>,
    /// Search until explicitly stopped.
    pub infinite: bool,
}

/// The outcome of a completed (or interrupted) search.
#[derive(Clone, Copy, Debug)]
pub struct SearchResult {
    /// Best move found.
    pub best_move: Move,
    /// Score of `best_move` from the side-to-move's perspective.
    pub score: i32,
    /// Deepest fully-completed iterative-deepening depth.
    pub depth: u32,
    /// Total nodes searched.
    pub nodes: u64,
}

/// A search score: within the range the search ever produces.
pub open spec fn score_ok(s: int) -> bool {
    -33001 <= s <= 33001
}

/// Convert a search-relative mate score to a node-relative score for TT
/// storage.
fn score_to_tt(score: i32, ply: usize) -> (r: i32)
    requires
        score_ok(score as int),
        ply < MAX_PLY,
    ensures
        r == (if score >= MATE_IN_MAX {
            score + ply
        } else if score <= -MATE_IN_MAX {
            score - ply
        } else {
            score as int
        }),
{
    if score >= MATE_IN_MAX {
        score + ply as i32
    } else if score <= -MATE_IN_MAX {
        score - ply as i32
    } else {
        score
    }
}

/// Inverse of [`score_to_tt`]: node-relative score back to search-relative.
fn score_from_tt(score: i32, ply: usize) -> (r: i32)
    requires
        -32768 <= score <= 32767,
        ply < MAX_PLY,
    ensures
        r == (if score >= MATE_IN_MAX {
            score - ply
        } else if score <= -MATE_IN_MAX {
            score + ply
        } else {
            score as int
        }),
        score_ok(r as int),
{
    if score >= MATE_IN_MAX {
        score - ply as i32
    } else if score <= -MATE_IN_MAX {
        score + ply as i32
    } else {
        score
    }
}

/// Depth reduction for a late, quiet move: deeper searches and later moves
/// reduce more. Depth and move number are clamped to `0..=63`.
fn lmr_reduction(depth: i32, move_count: usize) -> (r: i32)
    ensures
        r == LMR_TABLE[if depth < 0 { 0 } else if depth > 63 { 63 } else { depth as int }][if move_count
            > 63 { 63 } else { move_count as int }],
        0 <= r <= 255,
{
    let d: usize = if depth < 0 {
        0
    } else if depth > 63 {
        63
    } else {
        depth as usize
    };
    let m: usize = if move_count > 63 {
        63
    } else {
        move_count
    };
    LMR_TABLE[d][m] as i32
}

/// Bounds of the gravity update when the bonus is not negative.
proof fn lemma_gravity_up(e: int, b: int)
    requires
        -16384 <= e <= 16384,
        0 <= b <= 1200,
    ensures
        -16384 <= e + b - trunc_div(e * b, 16384) <= 16384,
{
    let x = e * b;
    let q = trunc_div(x, 16384);
    if e >= 0 {
        assert(0 <= x <= 16384 * b) by (nonlinear_arith)
            requires
                0 <= e <= 16384,
                0 <= b,
                x == e * b,
        ;
        assert(q * 16384 <= x < q * 16384 + 16384) by (nonlinear_arith)
            requires
                x >= 0,
                q == x / 16384,
        ;
        assert(e + b - q <= 16384) by (nonlinear_arith)
            requires
                0 <= e <= 16384,
                0 <= b <= 1200,
                x == e * b,
                x < q * 16384 + 16384,
        ;
        assert(e + b - q >= 0) by (nonlinear_arith)
            requires
                0 <= e <= 16384,
                0 <= b <= 1200,
                x == e * b,
                q * 16384 <= x,
        ;
    } else {
        let y = (-e) * b;
        assert(0 <= y <= 16384 * b && x == -y) by (nonlinear_arith)
            requires
                -16384 <= e < 0,
                0 <= b,
                x == e * b,
                y == (-e) * b,
        ;
        let qq = y / 16384;
        assert(q == -qq);
        assert(qq * 16384 <= y < qq * 16384 + 16384) by (nonlinear_arith)
            requires
                y >= 0,
                qq == y / 16384,
        ;
        assert(e + b + qq <= 1200) by (nonlinear_arith)
            requires
                -16384 <= e < 0,
                0 <= b <= 1200,
                y == (-e) * b,
                qq * 16384 <= y,
        ;
        assert(e + b + qq >= -16384) by (nonlinear_arith)
            requires
                -16384 <= e < 0,
                0 <= b <= 1200,
                y == (-e) * b,
                y < qq * 16384 + 16384,
        ;
    }
}

/// Move a history value toward a bonus with "gravity": the closer it already
/// is to the cap, the less a further bonus moves it, so values stay within
/// `[-HIST_CAP, HIST_CAP]` without an explicit clamp.
fn apply_gravity(entry: i32, bonus: i32) -> (r: i32)
    requires
        -HIST_CAP <= entry <= HIST_CAP,
        -HIST_MAX_BONUS <= bonus <= HIST_MAX_BONUS,
    ensures
        r == entry + bonus - trunc_div(entry * (if bonus < 0 { -bonus } else { bonus as int }), HIST_CAP as int),
        -HIST_CAP <= r <= HIST_CAP,
{
    let mag = if bonus < 0 {
        -bonus
    } else {
        bonus
    };
    proof {
        if bonus >= 0 {
            lemma_gravity_up(entry as int, bonus as int);
        } else {
            lemma_gravity_up(-entry, -bonus);
            assert(trunc_div((-entry) * (-bonus), 16384) == -trunc_div(entry * (-bonus), 16384)) by {
                assert((-entry) * (-bonus) == -(entry * (-bonus))) by (nonlinear_arith);
            }
        }
        assert(-16384 * 1200 <= entry * mag <= 16384 * 1200) by (nonlinear_arith)
            requires
                -16384 <= entry <= 16384,
                0 <= mag <= 1200,
        ;
    }
    entry + bonus - entry * mag / HIST_CAP
}

/// The continuation-history index of `cur` following `prev` at `offset`.
fn cont_index(offset: usize, prev: (usize, usize), cur: (usize, usize)) -> (r: usize)
    requires
        offset < CONT_PLIES,
        prev.0 < 12,
        prev.1 < 64,
        cur.0 < 12,
        cur.1 < 64,
    ensures
        r == (((offset * 12 + prev.0) * 64 + prev.1) * 12 + cur.0) * 64 + cur.1,
        r < CONT_SIZE,
{
    assert((((offset * 12 + prev.0) * 64 + prev.1) * 12 + cur.0) * 64 + cur.1 < 1179648) by (nonlinear_arith)
        requires
            offset < 2,
            prev.0 < 12,
            prev.1 < 64,
            cur.0 < 12,
            cur.1 < 64,
    ;
    (((offset * 12 + prev.0) * 64 + prev.1) * 12 + cur.0) * 64 + cur.1
}


/// A continuation-history context: the moving piece's index and its
/// destination for a recently played move, or `None` for "no real move".
pub open spec fn cont_ok(c: Option<(usize, usize)>) -> bool {
    c matches Some((a, b)) ==> a < 12 && b < 64
}

/// Sort scored moves ascending by their key (`slice::sort_unstable_by_key`).
/// The result holds the same entries, ordered by key.
#[verifier::external_body]
fn sort_by_key_ascending(v: &mut Vec<(i64, Move)>)
    ensures
        final(v)@.to_multiset() == old(v)@.to_multiset(),
        final(v)@.len() == old(v)@.len(),
        forall|i: int, j: int| 0 <= i < j < final(v)@.len() ==> #[trigger] final(v)@[i].0 <= #[trigger] final(v)@[j].0,
{
    v.sort_unstable_by_key(|e| e.0);
}

/// A static score held inside the range of non-mate scores.
pub open spec fn clamp_eval(v: int) -> int {
    if v <= -MATE_IN_MAX {
        -MATE_IN_MAX + 1
    } else if v >= MATE_IN_MAX {
        MATE_IN_MAX - 1
    } else {
        v
    }
}

/// When a running search stops: the stop flag is set, the node budget is
/// spent, or the hard time limit (when there is one) has passed.
pub open spec fn must_stop_spec(stop_flag: bool, nodes: u64, node_limit: Option<u64>, hard_ms: u64, elapsed_ms: u64) -> bool {
    ||| stop_flag
    ||| (node_limit matches Some(n) && nodes >= n)
    ||| (hard_ms != u64::MAX && elapsed_ms >= hard_ms)
}

/// Decide whether a running search stops, given the stop flag, the nodes
/// searched, the node budget, the hard time limit and the milliseconds spent.
pub fn must_stop(stop_flag: bool, nodes: u64, node_limit: Option<u64>, hard_ms: u64, elapsed_ms: u64) -> (r: bool)
    ensures
        r == must_stop_spec(stop_flag, nodes, node_limit, hard_ms, elapsed_ms),
{
    if stop_flag {
        return true;
    }
    match node_limit {
        Some(n) => {
            if nodes >= n {
                return true;
            }
        },
        None => {},
    }
    hard_ms != u64::MAX && elapsed_ms >= hard_ms
}

/// The moves of a list of scored moves, in order.
spec fn moves_of(s: Seq<(i64, Move)>) -> Seq<Move> {
    Seq::new(s.len(), |i: int| s[i].1)
}

/// Two lists of scored moves that are permutations of each other carry the
/// same moves.
proof fn lemma_moves_permuted(a: Seq<(i64, Move)>, b: Seq<(i64, Move)>)
    requires
        a.to_multiset() == b.to_multiset(),
    ensures
        moves_of(a).to_multiset() == moves_of(b).to_multiset(),
    decreases a.len(),
{
    broadcast use vstd::seq_lib::group_to_multiset_ensures;

    if a.len() == 0 {
        vstd::seq_lib::to_multiset_len(a);
        vstd::seq_lib::to_multiset_len(b);
        assert(b.len() == 0);
        assert(moves_of(a) =~= Seq::<Move>::empty());
        assert(moves_of(b) =~= Seq::<Move>::empty());
    } else {
        let x = a.last();
        assert(a.contains(x)) by {
            assert(a[a.len() - 1] == x);
        }
        assert(b.to_multiset().count(x) > 0);
        assert(b.contains(x));
        let i = choose|i: int| 0 <= i < b.len() && b[i] == x;
        let a1 = a.remove(a.len() - 1);
        let b1 = b.remove(i);
        lemma_moves_permuted(a1, b1);
        assert(moves_of(a) =~= moves_of(a1).push(x.1));
        assert(moves_of(b) =~= moves_of(b1).insert(i, x.1));
    }
}

/// A report of one completed search iteration.
pub struct SearchInfo {
    /// The depth just completed.
    pub depth: u32,
    /// The deepest ply reached.
    pub seldepth: usize,
    /// The score at that depth, for the side to move.
    pub score: i32,
    /// Nodes searched so far.
    pub nodes: u64,
    /// Milliseconds since the search started.
    pub time_ms: u64,
    /// Transposition-table fill, per mille.
    pub hashfull: usize,
    /// The principal variation.
    pub pv: Vec<Move>,
}

impl SearchInfo {
    /// Nodes per second: nodes times a thousand over the elapsed
    /// milliseconds (at least one), saturating at `u64::MAX`.
    pub fn nps(&self) -> (r: u64)
        ensures
            r == (if self.nodes * 1000 > u64::MAX { u64::MAX as int } else { self.nodes * 1000 }) / (if self.time_ms
                < 1 { 1 } else { self.time_ms as int }),
    {
        let ms = if self.time_ms < 1 {
            1
        } else {
            self.time_ms
        };
        let work: u64 = if self.nodes > u64::MAX / 1000 {
            u64::MAX
        } else {
            self.nodes * 1000
        };
        work / ms
    }
}

/// Receives a report of each completed search iteration (for example to print
/// UCI `info` lines).
pub trait InfoSink {
    fn report(&mut self, info: &SearchInfo);
}

/// An [`InfoSink`] that ignores every report.
pub struct Silent;

impl InfoSink for Silent {
    fn report(&mut self, info: &SearchInfo) {
    }
}

/// The UCI form of a score: `(true, n)` for "mate n" (negative when the side
/// to move is mated), `(false, cp)` for a centipawn score.
pub fn uci_score(score: i32) -> (r: (bool, i32))
    requires
        score_ok(score as int),
    ensures
        r == (if score >= MATE_IN_MAX {
            (true, trunc_div(MATE - score + 1, 2) as i32)
        } else if score <= -MATE_IN_MAX {
            (true, (-trunc_div(MATE + score + 1, 2)) as i32)
        } else {
            (false, score)
        }),
{
    if score >= MATE_IN_MAX {
        (true, (MATE - score + 1) / 2)
    } else if score <= -MATE_IN_MAX {
        (true, -((MATE + score + 1) / 2))
    } else {
        (false, score)
    }
}

/// Two-fold repetition within the halfmove window: the key of the current
/// position recurs an even number of plies (at least four) back in `keys`,
/// no further back than the halfmove clock.
pub open spec fn repeats(keys: Seq<u64>, key: u64, limit: int) -> bool {
    exists|j: int| 2 <= j && 2 * j <= limit && 2 * j < keys.len() && #[trigger] back_key(keys, j) == key
}

/// The key `2 * j` plies before the last one.
pub open spec fn back_key(keys: Seq<u64>, j: int) -> u64 {
    keys[keys.len() - 1 - 2 * j]
}

/// True if `side` has at least one knight, bishop, rook or queen.
pub open spec fn non_pawn_material(p: crate::position::Position, side: Color) -> bool {
    p.set_of(side, PieceType::Knight) != Set::<int>::empty() || p.set_of(side, PieceType::Bishop)
        != Set::<int>::empty() || p.set_of(side, PieceType::Rook) != Set::<int>::empty() || p.set_of(
        side,
        PieceType::Queen,
    ) != Set::<int>::empty()
}

/// True if side `side` has a knight, bishop, rook or queen.
fn has_non_pawn_material(board: &Board) -> (r: bool)
    requires
        board.wf(),
    ensures
        r == non_pawn_material(board@, board@.stm),
{
    let us = board.side_to_move();
    let n = board.pieces_colored(us, PieceType::Knight);
    let b = board.pieces_colored(us, PieceType::Bishop);
    let r = board.pieces_colored(us, PieceType::Rook);
    let q = board.pieces_colored(us, PieceType::Queen);
    let all = n.or(b).or(r).or(q);
    proof {
        if n@ == Set::<int>::empty() && b@ == Set::<int>::empty() && r@ == Set::<int>::empty() && q@
            == Set::<int>::empty() {
            assert(all@ =~= Set::<int>::empty());
        }
        if all@ == Set::<int>::empty() {
            assert(n@ =~= Set::<int>::empty());
            assert(b@ =~= Set::<int>::empty());
            assert(r@ =~= Set::<int>::empty());
            assert(q@ =~= Set::<int>::empty());
        }
    }
    all.any()
}

/// The number of squares among the first `n` holding `pc`.
pub open spec fn count_piece(p: crate::position::Position, pc: crate::types::Piece, n: int) -> int
    decreases n,
{
    if n <= 0 {
        0
    } else {
        count_piece(p, pc, n - 1) + if p.squares[n - 1] == Some(pc) { 1int } else { 0int }
    }
}

/// A piece that never appears on the board is counted zero times.
proof fn lemma_count_absent(p: crate::position::Position, pc: crate::types::Piece, n: int)
    requires
        forall|i: int| 0 <= i < n ==> p.squares[i] != Some(pc),
    ensures
        count_piece(p, pc, n) == 0,
    decreases n,
{
    if n > 0 {
        lemma_count_absent(p, pc, n - 1);
    }
}

/// A piece standing on exactly one square `m` is counted once.
proof fn lemma_count_single(p: crate::position::Position, pc: crate::types::Piece, m: int, n: int)
    requires
        0 <= m < n,
        p.squares[m] == Some(pc),
        forall|i: int| 0 <= i < n && i != m ==> p.squares[i] != Some(pc),
    ensures
        count_piece(p, pc, n) == 1,
    decreases n,
{
    if n - 1 == m {
        lemma_count_absent(p, pc, n - 1);
    } else {
        lemma_count_single(p, pc, m, n - 1);
    }
}

/// Kings and a single knight or bishop cannot mate: that material is
/// insufficient.
pub proof fn lemma_single_minor_insufficient(p: crate::position::Position, m: int)
    requires
        0 <= m < 64,
        p.squares[m] is Some,
        p.squares[m].unwrap().spec_piece_type() == PieceType::Knight || p.squares[m].unwrap().spec_piece_type()
            == PieceType::Bishop,
        forall|i: int| 0 <= i < 64 && i != m && #[trigger] p.squares[i] is Some ==> p.squares[i].unwrap().spec_piece_type()
            == PieceType::King,
    ensures
        insufficient(p),
{
    let wn = crate::types::Piece::spec_make(Color::White, PieceType::Knight);
    let wb = crate::types::Piece::spec_make(Color::White, PieceType::Bishop);
    let bn = crate::types::Piece::spec_make(Color::Black, PieceType::Knight);
    let bb = crate::types::Piece::spec_make(Color::Black, PieceType::Bishop);
    crate::position::lemma_piece_parts();
    let pm = p.squares[m].unwrap();
    assert(pm == crate::types::Piece::spec_make(pm.spec_color(), pm.spec_piece_type()));
    assert forall|i: int| 0 <= i < 64 && i != m implies p.squares[i] != Some(wn) && p.squares[i] != Some(wb)
        && p.squares[i] != Some(bn) && p.squares[i] != Some(bb) by {
        if p.squares[i] is Some {
            assert(p.squares[i].unwrap().spec_piece_type() == PieceType::King);
        }
    }
    let pcs = seq![wn, wb, bn, bb];
    assert forall|j: int| 0 <= j < 4 implies count_piece(p, #[trigger] pcs[j], 64) <= 1
        && (pcs[j] != pm ==> count_piece(p, pcs[j], 64) == 0) by {
        if pcs[j] == pm {
            lemma_count_single(p, pcs[j], m, 64);
        } else {
            lemma_count_absent(p, pcs[j], 64);
        }
    }
    assert(count_piece(p, pcs[0], 64) + count_piece(p, pcs[1], 64) + count_piece(p, pcs[2], 64) + count_piece(
        p,
        pcs[3],
        64,
    ) <= 1);
    assert(p.type_set(PieceType::Pawn) =~= Set::<int>::empty());
    assert(p.type_set(PieceType::Rook) =~= Set::<int>::empty());
    assert(p.type_set(PieceType::Queen) =~= Set::<int>::empty());
}

/// Kings and one bishop a side: insufficient exactly when the two bishops
/// stand on squares of the same color.
pub proof fn lemma_bishops_insufficient(p: crate::position::Position, w: int, b: int)
    requires
        0 <= w < 64,
        0 <= b < 64,
        p.squares[w] == Some(crate::types::Piece::spec_make(Color::White, PieceType::Bishop)),
        p.squares[b] == Some(crate::types::Piece::spec_make(Color::Black, PieceType::Bishop)),
        forall|i: int| 0 <= i < 64 && i != w && i != b && #[trigger] p.squares[i] is Some
            ==> p.squares[i].unwrap().spec_piece_type() == PieceType::King,
    ensures
        insufficient(p) <==> (w % 8 + w / 8) % 2 == (b % 8 + b / 8) % 2,
{
    let wn = crate::types::Piece::spec_make(Color::White, PieceType::Knight);
    let wb = crate::types::Piece::spec_make(Color::White, PieceType::Bishop);
    let bn = crate::types::Piece::spec_make(Color::Black, PieceType::Knight);
    let bb = crate::types::Piece::spec_make(Color::Black, PieceType::Bishop);
    crate::position::lemma_piece_parts();
    assert forall|i: int| 0 <= i < 64 && i != w && i != b implies p.squares[i] != Some(wn) && p.squares[i] != Some(
        wb,
    ) && p.squares[i] != Some(bn) && p.squares[i] != Some(bb) by {
        if p.squares[i] is Some {
            assert(p.squares[i].unwrap().spec_piece_type() == PieceType::King);
        }
    }
    assert(wb.spec_color() != bb.spec_color());
    assert(w != b);
    assert forall|i: int| 0 <= i < 64 && i != w implies p.squares[i] != Some(wb) by {
        if i == b {
            assert(wb != bb);
        }
    }
    assert forall|i: int| 0 <= i < 64 && i != b implies p.squares[i] != Some(bb) by {
        if i == w {
            assert(wb != bb);
        }
    }
    assert forall|i: int| 0 <= i < 64 implies p.squares[i] != Some(wn) && p.squares[i] != Some(bn) by {
        if i == w || i == b {
            assert(wn.spec_piece_type() != wb.spec_piece_type());
        }
    }
    let same = forall|x: int, y: int|
        0 <= x < 64 && 0 <= y < 64 && p.squares[x] == Some(wb) && p.squares[y] == Some(bb)
            ==> square_shade(x) == square_shade(y);
    if (w % 8 + w / 8) % 2 == (b % 8 + b / 8) % 2 {
        assert forall|x: int, y: int|
            0 <= x < 64 && 0 <= y < 64 && p.squares[x] == Some(wb) && p.squares[y] == Some(bb) implies square_shade(x)
                == square_shade(y) by {
            assert(x == w);
            assert(y == b);
        }
    } else {
        assert(square_shade(w) != square_shade(b));
        assert(!same);
    }
    lemma_count_absent(p, wn, 64);
    lemma_count_absent(p, bn, 64);
    lemma_count_single(p, wb, w, 64);
    lemma_count_single(p, bb, b, 64);
    assert(p.type_set(PieceType::Pawn) =~= Set::<int>::empty());
    assert(p.type_set(PieceType::Rook) =~= Set::<int>::empty());
    assert(p.type_set(PieceType::Queen) =~= Set::<int>::empty());
}

/// Material is insufficient only when the board holds nothing but kings,
/// knights and bishops (any pawn, rook or queen can still mate), and bare
/// kings are always insufficient material.
pub proof fn lemma_insufficient_material(p: crate::position::Position)
    ensures
        insufficient(p) ==> forall|i: int| 0 <= i < 64 && #[trigger] p.squares[i] is Some ==> {
            let k = p.squares[i].unwrap().spec_piece_type();
            k == PieceType::King || k == PieceType::Knight || k == PieceType::Bishop
        },
        (forall|i: int| 0 <= i < 64 && #[trigger] p.squares[i] is Some ==> p.squares[i].unwrap().spec_piece_type()
            == PieceType::King) ==> insufficient(p),
{
    if insufficient(p) {
        assert forall|i: int| 0 <= i < 64 && #[trigger] p.squares[i] is Some implies {
            let k = p.squares[i].unwrap().spec_piece_type();
            k == PieceType::King || k == PieceType::Knight || k == PieceType::Bishop
        } by {
            let k = p.squares[i].unwrap().spec_piece_type();
            if k == PieceType::Pawn || k == PieceType::Rook || k == PieceType::Queen {
                assert(p.type_set(k).contains(i));
            }
        }
    }
    if forall|i: int| 0 <= i < 64 && #[trigger] p.squares[i] is Some ==> p.squares[i].unwrap().spec_piece_type()
        == PieceType::King {
        let wn = crate::types::Piece::spec_make(Color::White, PieceType::Knight);
        let wb = crate::types::Piece::spec_make(Color::White, PieceType::Bishop);
        let bn = crate::types::Piece::spec_make(Color::Black, PieceType::Knight);
        let bb = crate::types::Piece::spec_make(Color::Black, PieceType::Bishop);
        crate::position::lemma_piece_parts();
        assert forall|i: int| 0 <= i < 64 implies p.squares[i] != Some(wn) && p.squares[i] != Some(wb)
            && p.squares[i] != Some(bn) && p.squares[i] != Some(bb) by {
            if p.squares[i] is Some {
                assert(p.squares[i].unwrap().spec_piece_type() == PieceType::King);
            }
        }
        lemma_count_absent(p, wn, 64);
        lemma_count_absent(p, wb, 64);
        lemma_count_absent(p, bn, 64);
        lemma_count_absent(p, bb, 64);
        assert(p.type_set(PieceType::Pawn) =~= Set::<int>::empty());
        assert(p.type_set(PieceType::Rook) =~= Set::<int>::empty());
        assert(p.type_set(PieceType::Queen) =~= Set::<int>::empty());
    }
}

/// The color of a square: 0 for dark, 1 for light.
pub open spec fn square_shade(i: int) -> int {
    (i % 8 + i / 8) % 2
}

/// Material that cannot force mate: no pawns, rooks or queens, and either at
/// most one minor piece in all, or one bishop each on squares of one color.
pub open spec fn insufficient(p: crate::position::Position) -> bool {
    let wn = count_piece(p, crate::types::Piece::spec_make(Color::White, PieceType::Knight), 64);
    let wb = count_piece(p, crate::types::Piece::spec_make(Color::White, PieceType::Bishop), 64);
    let bn = count_piece(p, crate::types::Piece::spec_make(Color::Black, PieceType::Knight), 64);
    let bb = count_piece(p, crate::types::Piece::spec_make(Color::Black, PieceType::Bishop), 64);
    &&& p.type_set(PieceType::Pawn) == Set::<int>::empty()
    &&& p.type_set(PieceType::Rook) == Set::<int>::empty()
    &&& p.type_set(PieceType::Queen) == Set::<int>::empty()
    &&& (wn + wb + bn + bb <= 1 || (wn == 0 && bn == 0 && wb == 1 && bb == 1 && forall|w: int, b: int|
        0 <= w < 64 && 0 <= b < 64 && p.squares[w] == Some(
            crate::types::Piece::spec_make(Color::White, PieceType::Bishop),
        ) && p.squares[b] == Some(crate::types::Piece::spec_make(Color::Black, PieceType::Bishop))
            ==> square_shade(w) == square_shade(b)))
}

/// The population count of a piece's bitboard counts its squares.
proof fn lemma_count_piece(p: crate::position::Position, pc: crate::types::Piece, x: u64, n: int)
    requires
        0 <= n <= 64,
        forall|i: int| 0 <= i < 64 ==> (crate::bits::bit(x, i) <==> p.squares[i] == Some(pc)),
    ensures
        crate::bits::count_below(x, n) == count_piece(p, pc, n),
    decreases n,
{
    if n > 0 {
        lemma_count_piece(p, pc, x, n - 1);
    }
}

/// Count the squares holding `pc`, with the bitboard's population count.
fn count_of(board: &Board, color: Color, kind: PieceType) -> (r: u32)
    requires
        board.wf(),
    ensures
        r == count_piece(board@, crate::types::Piece::spec_make(color, kind), 64),
{
    let b = board.pieces_colored(color, kind);
    proof {
        assert forall|i: int| 0 <= i < 64 implies (crate::bits::bit(b.0, i) <==> board@.squares[i]
            == Some(crate::types::Piece::spec_make(color, kind))) by {
            assert(b@.contains(i) == crate::bits::bit(b.0, i));
        }
        lemma_count_piece(board@, crate::types::Piece::spec_make(color, kind), b.0, 64);
    }
    b.count()
}

/// A count of one means a single square holds the piece.
proof fn lemma_count_one(p: crate::position::Position, pc: crate::types::Piece, n: int, i: int, j: int)
    requires
        0 <= i < n,
        0 <= j < n,
        count_piece(p, pc, n) <= 1,
        p.squares[i] == Some(pc),
        p.squares[j] == Some(pc),
    ensures
        i == j,
    decreases n,
{
    if i < n - 1 && j < n - 1 {
        lemma_count_one(p, pc, n - 1, i, j);
    } else {
        lemma_count_nonneg(p, pc, n - 1);
        if i < n - 1 {
            lemma_count_pos(p, pc, n - 1, i);
        }
        if j < n - 1 {
            lemma_count_pos(p, pc, n - 1, j);
        }
    }
}

proof fn lemma_count_exists(p: crate::position::Position, pc: crate::types::Piece, n: int) -> (i: int)
    requires
        count_piece(p, pc, n) >= 1,
    ensures
        0 <= i < n,
        p.squares[i] == Some(pc),
    decreases n,
{
    if n <= 0 {
        0
    } else if p.squares[n - 1] == Some(pc) {
        n - 1
    } else {
        lemma_count_exists(p, pc, n - 1)
    }
}

proof fn lemma_count_nonneg(p: crate::position::Position, pc: crate::types::Piece, n: int)
    ensures
        count_piece(p, pc, n) >= 0,
    decreases n,
{
    if n > 0 {
        lemma_count_nonneg(p, pc, n - 1);
    }
}

proof fn lemma_count_pos(p: crate::position::Position, pc: crate::types::Piece, n: int, i: int)
    requires
        0 <= i < n,
        p.squares[i] == Some(pc),
    ensures
        count_piece(p, pc, n) >= 1,
    decreases n,
{
    if i < n - 1 {
        lemma_count_pos(p, pc, n - 1, i);
        lemma_count_nonneg(p, pc, n - 1);
    } else {
        lemma_count_nonneg(p, pc, n - 1);
    }
}

/// Detect material that cannot force mate: K vs K, K+minor vs K, and
/// same-colored K+B vs K+B.
fn insufficient_material(board: &Board) -> (r: bool)
    requires
        board.wf(),
    ensures
        r == insufficient(board@),
{
    if board.pieces(PieceType::Pawn).any() || board.pieces(PieceType::Rook).any() || board.pieces(
        PieceType::Queen,
    ).any() {
        return false;
    }
    let wn = count_of(board, Color::White, PieceType::Knight);
    let wb = count_of(board, Color::White, PieceType::Bishop);
    let bn = count_of(board, Color::Black, PieceType::Knight);
    let bb = count_of(board, Color::Black, PieceType::Bishop);
    proof {
        lemma_count_nonneg(board@, crate::types::Piece::spec_make(Color::White, PieceType::Knight), 64);
        lemma_count_nonneg(board@, crate::types::Piece::spec_make(Color::White, PieceType::Bishop), 64);
        lemma_count_nonneg(board@, crate::types::Piece::spec_make(Color::Black, PieceType::Knight), 64);
        lemma_count_nonneg(board@, crate::types::Piece::spec_make(Color::Black, PieceType::Bishop), 64);
    }
    let white = wn as u64 + wb as u64;
    let black = bn as u64 + bb as u64;
    if white + black <= 1 {
        return true;
    }
    if white == 1 && black == 1 && wb == 1 && bb == 1 {
        let wbb = board.pieces_colored(Color::White, PieceType::Bishop);
        let bbb = board.pieces_colored(Color::Black, PieceType::Bishop);
        proof {
            crate::bits::lemma_zero_full();
            let wi = lemma_count_exists(board@, crate::types::Piece::spec_make(Color::White, PieceType::Bishop), 64);
            let bi = lemma_count_exists(board@, crate::types::Piece::spec_make(Color::Black, PieceType::Bishop), 64);
            assert(wbb@.contains(wi));
            assert(bbb@.contains(bi));
        }
        let w = wbb.lsb();
        let b = bbb.lsb();
        let same = (w.file() + w.rank()) % 2 == (b.file() + b.rank()) % 2;
        proof {
            let wp = crate::types::Piece::spec_make(Color::White, PieceType::Bishop);
            let bp = crate::types::Piece::spec_make(Color::Black, PieceType::Bishop);
            assert(same == (square_shade(w.0 as int) == square_shade(b.0 as int)));
            assert forall|x: int, y: int|
                0 <= x < 64 && 0 <= y < 64 && board@.squares[x] == Some(wp) && board@.squares[y] == Some(bp)
                    implies (square_shade(x) == square_shade(y)) == same by {
                lemma_count_one(board@, wp, 64, x, w.0 as int);
                lemma_count_one(board@, bp, 64, y, b.0 as int);
            }
            assert(board@.squares[w.0 as int] == Some(wp));
            assert(board@.squares[b.0 as int] == Some(bp));
        }
        return same;
    }
    false
}

/// The per-search state.
struct Searcher<E: Evaluator> {
    eval: E,
    stop: Arc<AtomicBool>,
    limits: SearchLimits,
    start: Instant,
    soft_ms: u64,
    hard_ms: u64,
    nodes: u64,
    seldepth: usize,
    stopped: bool,
    /// Two killer moves per ply, at `2 * ply` and `2 * ply + 1`.
    killers: Vec<Move>,
    /// Butterfly history, at `from * 64 + to`.
    history: Vec<i32>,
    /// Continuation history, at [`cont_index`].
    cont: Vec<i32>,
    /// Per ply, the move played to descend from that ply.
    conth_stack: Vec<Option<(usize, usize)>>,
    /// Principal variations: the line from ply `p` at `p * MAX_PLY ..`.
    pv: Vec<Move>,
    pv_len: Vec<usize>,
    /// Position keys for repetition detection: the game history followed by
    /// the current search path.
    keys: Vec<u64>,
    best_move: Move,
    last_score: i32,
    last_depth: u32,
}

impl<E: Evaluator> Searcher<E> {
    /// Table sizes and value ranges the search relies on.
    spec fn wf(&self) -> bool {
        &&& self.killers@.len() == 2 * MAX_PLY
        &&& self.history@.len() == 4096
        &&& forall|i: int| 0 <= i < 4096 ==> -HIST_CAP <= #[trigger] self.history@[i] <= HIST_CAP
        &&& self.cont@.len() == CONT_SIZE
        &&& forall|i: int| 0 <= i < CONT_SIZE ==> -HIST_CAP <= #[trigger] self.cont@[i] <= HIST_CAP
        &&& self.conth_stack@.len() == MAX_PLY
        &&& forall|i: int| 0 <= i < MAX_PLY ==> cont_ok(#[trigger] self.conth_stack@[i])
        &&& self.pv@.len() == MAX_PLY * MAX_PLY
        &&& self.pv_len@.len() == MAX_PLY
        &&& forall|i: int| 0 <= i < MAX_PLY ==> #[trigger] self.pv_len@[i] <= MAX_PLY
        &&& score_ok(self.last_score as int)
        &&& self.last_depth < MAX_PLY
    }

    /// The principal variations of plies below `ply`, and the key stack, are
    /// the same in `a` and `b`.
    spec fn frame(a: Searcher<E>, b: Searcher<E>, ply: int) -> bool {
        &&& forall|i: int| 0 <= i < ply * MAX_PLY ==> #[trigger] b.pv@[i] == a.pv@[i]
        &&& forall|j: int| 0 <= j < ply ==> #[trigger] b.pv_len@[j] == a.pv_len@[j]
        &&& b.keys@ == a.keys@
        &&& b.limits == a.limits
        &&& b.best_move == a.best_move
        &&& b.eval == a.eval
    }

    /// The position on `board` is drawn by repetition (within the game
    /// history `keys`), by the fifty-move rule, or by insufficient material.
    spec fn drawn(self, board: Board) -> bool {
        ||| repeats(self.keys@, board.spec_key(), board@.halfmove as int)
        ||| insufficient(board@)
        ||| board@.halfmove >= 100
    }

    fn new(eval: E, stop: Arc<AtomicBool>, limits: SearchLimits, keys: Vec<u64>) -> (r: Searcher<E>)
        ensures
            r.wf(),
            r.keys@ == keys@,
            r.limits == limits,
            r.pv_len@[0] == 0,
    {
        Searcher {
            eval,
            stop,
            limits,
            start: clock_now(),
            soft_ms: u64::MAX,
            hard_ms: u64::MAX,
            nodes: 0,
            seldepth: 0,
            stopped: false,
            killers: vec![Move::null(); 2 * MAX_PLY],
            history: vec![0i32; 4096],
            cont: vec![0i32; CONT_SIZE],
            conth_stack: vec![None; MAX_PLY],
            pv: vec![Move::null(); MAX_PLY * MAX_PLY],
            pv_len: vec![0usize; MAX_PLY],
            keys,
            best_move: Move::null(),
            last_score: 0,
            last_depth: 0,
        }
    }
}


/// The value of a piece kind for move ordering and delta pruning.
pub open spec fn kind_value(k: PieceType) -> int {
    PIECE_VALUE[k.spec_index() as int] as int
}

/// Optimistic material swing of a capturing or promoting move, for delta
/// pruning: the captured piece (a pawn for en passant), plus the queen-for-pawn
/// upgrade of a promotion.
pub open spec fn gain_of(p: crate::position::Position, mv: Move) -> int {
    let captured = if mv.spec_flag() == crate::moves::flag::EN_PASSANT {
        kind_value(PieceType::Pawn)
    } else {
        match p.squares[mv.spec_to().0 as int] {
            Some(pc) => kind_value(pc.spec_piece_type()),
            None => 0,
        }
    };
    captured + if mv.spec_is_promotion() {
        kind_value(PieceType::Queen) - kind_value(PieceType::Pawn)
    } else {
        0
    }
}

fn move_gain(board: &Board, mv: Move) -> (r: i32)
    ensures
        r == gain_of(board@, mv),
        0 <= r <= 20800,
{
    proof {
        lemma_move_bounds(mv);
    }
    let mut gain = if mv.is_en_passant() {
        PIECE_VALUE[PieceType::Pawn.index()]
    } else {
        match board.piece_on(mv.to()) {
            Some(p) => PIECE_VALUE[p.piece_type().index()],
            None => 0,
        }
    };
    if mv.is_promotion() {
        gain = gain + PIECE_VALUE[PieceType::Queen.index()] - PIECE_VALUE[PieceType::Pawn.index()];
    }
    gain
}

/// The index of the piece on `sq`, or zero when it is empty.
fn piece_index_on(board: &Board, sq: crate::types::Square) -> (r: usize)
    requires
        sq.0 < 64,
    ensures
        r < 12,
        r == (match board@.squares[sq.0 as int] {
            Some(p) => p.spec_index(),
            None => 0,
        }),
{
    match board.piece_on(sq) {
        Some(p) => p.index(),
        None => 0,
    }
}

impl<E: Evaluator> Searcher<E> {
    /// The static evaluation, kept strictly inside the non-mate score range so
    /// an evaluation is never mistaken for a mate score.
    fn static_eval(&self, board: &Board) -> (r: i32)
        requires
            board.wf(),
        ensures
            -MATE_IN_MAX < r < MATE_IN_MAX,
            r == clamp_eval(self.eval.score_of(board@)),
    {
        let v = self.eval.evaluate(board);
        if v <= -MATE_IN_MAX {
            -MATE_IN_MAX + 1
        } else if v >= MATE_IN_MAX {
            MATE_IN_MAX - 1
        } else {
            v
        }
    }

    /// Combined quiet-move history: the butterfly history plus the
    /// continuation history one and two plies back. `pc` is the moving piece's
    /// index.
    fn quiet_history(&self, from: usize, to: usize, pc: usize, cont0: Option<(usize, usize)>, cont1: Option<(usize, usize)>) -> (r: i32)
        requires
            self.wf(),
            from < 64,
            to < 64,
            pc < 12,
            cont_ok(cont0),
            cont_ok(cont1),
        ensures
            -3 * HIST_CAP <= r <= 3 * HIST_CAP,
    {
        let mut h = self.history[from * 64 + to];
        let cur = (pc, to);
        match cont0 {
            Some(prev) => {
                h = h + self.cont[cont_index(0, prev, cur)];
            },
            None => {},
        }
        match cont1 {
            Some(prev) => {
                h = h + self.cont[cont_index(1, prev, cur)];
            },
            None => {},
        }
        h
    }

    fn store_killer(&mut self, ply: usize, mv: Move)
        requires
            old(self).wf(),
            ply < MAX_PLY,
        ensures
            final(self).wf(),
            *final(self) == (Searcher { killers: final(self).killers, ..*old(self) }),
    {
        if self.killers[2 * ply] != mv {
            let first = self.killers[2 * ply];
            self.killers.set(2 * ply + 1, first);
            self.killers.set(2 * ply, mv);
        }
    }

    /// Apply one history delta to a quiet move across the main and
    /// continuation tables.
    fn bump_history(&mut self, board: &Board, mv: Move, cont0: Option<(usize, usize)>, cont1: Option<(usize, usize)>, delta: i32)
        requires
            old(self).wf(),
            cont_ok(cont0),
            cont_ok(cont1),
            -HIST_MAX_BONUS <= delta <= HIST_MAX_BONUS,
        ensures
            final(self).wf(),
            *final(self) == (Searcher { history: final(self).history, cont: final(self).cont, ..*old(self) }),
    {
        let from = mv.from().index();
        let to = mv.to().index();
        let hi = from * 64 + to;
        let h = apply_gravity(self.history[hi], delta);
        self.history.set(hi, h);
        let pc = piece_index_on(board, mv.from());
        let cur = (pc, to);
        match cont0 {
            Some(prev) => {
                let ci = cont_index(0, prev, cur);
                let v = apply_gravity(self.cont[ci], delta);
                self.cont.set(ci, v);
            },
            None => {},
        }
        match cont1 {
            Some(prev) => {
                let ci = cont_index(1, prev, cur);
                let v = apply_gravity(self.cont[ci], delta);
                self.cont.set(ci, v);
            },
            None => {},
        }
    }

    /// Update history after a beta cutoff: reward the cutoff move (when it is
    /// quiet) and penalise the earlier quiet moves that did not cut.
    fn update_histories(&mut self, board: &Board, cutoff: Move, cutoff_is_quiet: bool, depth: i32, cont0: Option<(usize, usize)>, cont1: Option<(usize, usize)>, tried: &Vec<Move>)
        requires
            old(self).wf(),
            cont_ok(cont0),
            cont_ok(cont1),
            0 <= depth <= 1000,
        ensures
            final(self).wf(),
            *final(self) == (Searcher { history: final(self).history, cont: final(self).cont, ..*old(self) }),
    {
        assert(0 <= depth * depth <= 1000000) by (nonlinear_arith)
            requires
                0 <= depth <= 1000,
        ;
        let sq = depth * depth;
        let bonus = if sq < HIST_MAX_BONUS {
            sq
        } else {
            HIST_MAX_BONUS
        };
        if cutoff_is_quiet {
            self.bump_history(board, cutoff, cont0, cont1, bonus);
        }
        let mut i: usize = 0;
        while i < tried.len()
            invariant
                self.wf(),
                *self == (Searcher { history: self.history, cont: self.cont, ..*old(self) }),
                cont_ok(cont0),
                cont_ok(cont1),
                0 <= bonus <= HIST_MAX_BONUS,
            decreases tried.len() - i,
        {
            let q = tried[i];
            if q != cutoff {
                self.bump_history(board, q, cont0, cont1, -bonus);
            }
            i = i + 1;
        }
    }

    /// Record `mv` followed by the child's principal variation as the
    /// principal variation of `ply`.
    fn update_pv(&mut self, ply: usize, mv: Move)
        requires
            old(self).wf(),
            ply + 1 < MAX_PLY,
        ensures
            final(self).wf(),
            *final(self) == (Searcher { pv: final(self).pv, pv_len: final(self).pv_len, ..*old(self) }),
            Self::frame(*old(self), *final(self), ply as int),
            final(self).pv_len@[ply as int] > 0,
            final(self).pv@[ply * MAX_PLY] == mv,
            forall|j: int| ply < j < MAX_PLY ==> #[trigger] final(self).pv_len@[j] == old(self).pv_len@[j],
    {
        self.pv.set(ply * MAX_PLY, mv);
        let child_len = self.pv_len[ply + 1];
        let mut i: usize = 0;
        while i < child_len && i + 1 < MAX_PLY
            invariant
                self.wf(),
                *self == (Searcher { pv: self.pv, ..*old(self) }),
                ply + 1 < MAX_PLY,
                i + 1 <= MAX_PLY,
                self.pv@[ply * MAX_PLY] == mv,
                forall|k: int| 0 <= k < ply * MAX_PLY ==> #[trigger] self.pv@[k] == old(self).pv@[k],
            decreases MAX_PLY - i,
        {
            let m = self.pv[(ply + 1) * MAX_PLY + i];
            self.pv.set(ply * MAX_PLY + i + 1, m);
            i = i + 1;
        }
        self.pv_len.set(ply, i + 1);
    }

    /// Two-fold repetition within the halfmove window counts as a draw in
    /// search.
    fn is_repetition(&self, board: &Board) -> (r: bool)
        ensures
            r == repeats(self.keys@, board.spec_key(), board@.halfmove as int),
    {
        let key = board.zobrist_key();
        let n = self.keys.len();
        let limit = board.halfmove_clock() as usize;
        let mut back: usize = 4;
        while back <= limit && back < n
            invariant
                n == self.keys@.len(),
                limit == board@.halfmove,
                key == board.spec_key(),
                back % 2 == 0,
                4 <= back,
                back == 4 || back <= limit + 2,
                forall|j: int| 2 <= j && 2 * j < back && 2 * j <= limit && 2 * j < n ==> #[trigger] back_key(self.keys@, j) != key,
            decreases limit + 2 - back,
        {
            if self.keys[n - 1 - back] == key {
                let ghost j = (back / 2) as int;
                assert(2 * j == back);
                assert(back_key(self.keys@, j) == key);
                assert(2 <= j && 2 * j <= board@.halfmove as int && 2 * j < self.keys@.len());
                assert(repeats(self.keys@, board.spec_key(), board@.halfmove as int));
                return true;
            }
            back = back + 2;
        }
        false
    }
}


/// Most-valuable-victim / least-valuable-attacker score of a capturing or
/// promoting move, plus the promotion piece's value.
pub open spec fn mvv_lva(p: crate::position::Position, mv: Move) -> int {
    let victim = if mv.spec_flag() == crate::moves::flag::EN_PASSANT {
        kind_value(PieceType::Pawn)
    } else {
        match p.squares[mv.spec_to().0 as int] {
            Some(pc) => kind_value(pc.spec_piece_type()),
            None => 0,
        }
    };
    let attacker = match p.squares[mv.spec_from().0 as int] {
        Some(pc) => pc.spec_piece_type().spec_index() as int,
        None => 0,
    };
    let promo = match mv.spec_promotion() {
        Some(pt) => kind_value(pt),
        None => 0,
    };
    victim * 16 - attacker + promo
}

impl<E: Evaluator> Searcher<E> {
    /// The ordering score of a move: the TT move first, then captures and
    /// promotions by MVV-LVA (demoted below every quiet when `use_see` and
    /// the exchange loses material), then the two killers, then quiet moves by
    /// history.
    fn score_move(
        &self,
        board: &Board,
        mv: Move,
        tt_move: Move,
        killer0: Move,
        killer1: Move,
        cont0: Option<(usize, usize)>,
        cont1: Option<(usize, usize)>,
        use_see: bool,
    ) -> (r: i32)
        requires
            self.wf(),
            board.wf(),
            board@.squares[mv.spec_from().0 as int] is Some,
            cont_ok(cont0),
            cont_ok(cont1),
        ensures
            mv == tt_move ==> r == TT_SCORE,
            mv != tt_move && (mv.spec_is_capture() || mv.spec_is_promotion()) ==> r == (if use_see
                && !(crate::see::see_value_of(board@, mv) >= 0) {
                BAD_CAPTURE_BASE
            } else {
                CAPTURE_BASE
            }) + mvv_lva(board@, mv),
            mv != tt_move && !mv.spec_is_capture() && !mv.spec_is_promotion() && mv == killer0 ==> r
                == KILLER0_SCORE,
            mv != tt_move && !mv.spec_is_capture() && !mv.spec_is_promotion() && mv != killer0 && mv
                == killer1 ==> r == KILLER1_SCORE,
            mv != tt_move && !mv.spec_is_capture() && !mv.spec_is_promotion() && mv != killer0 && mv
                != killer1 ==> -3 * HIST_CAP <= r <= 3 * HIST_CAP,
    {
        proof {
            lemma_move_bounds(mv);
        }
        if mv == tt_move {
            return TT_SCORE;
        }
        if mv.is_capture() || mv.is_promotion() {
            let victim = if mv.is_en_passant() {
                PIECE_VALUE[PieceType::Pawn.index()]
            } else {
                match board.piece_on(mv.to()) {
                    Some(p) => PIECE_VALUE[p.piece_type().index()],
                    None => 0,
                }
            };
            let attacker: i32 = match board.piece_on(mv.from()) {
                Some(p) => p.piece_type().index() as i32,
                None => 0,
            };
            let promo = match mv.promotion() {
                Some(pt) => PIECE_VALUE[pt.index()],
                None => 0,
            };
            let mvv = victim * 16 - attacker + promo;
            let base = if use_see && !crate::see::see_ge(board, mv, 0) {
                BAD_CAPTURE_BASE
            } else {
                CAPTURE_BASE
            };
            return base + mvv;
        }
        if mv == killer0 {
            return KILLER0_SCORE;
        }
        if mv == killer1 {
            return KILLER1_SCORE;
        }
        let pc = piece_index_on(board, mv.from());
        self.quiet_history(mv.from().index(), mv.to().index(), pc, cont0, cont1)
    }

    /// Order moves in place, best first: TT move, then winning/equal captures
    /// (MVV-LVA), then killers, then quiets by history, then losing captures.
    /// Each move is scored once, then the scores are sorted. The list keeps its
    /// length and only holds moves it held before.
    fn order_moves(
        &self,
        board: &Board,
        moves: &mut MoveList,
        tt_move: Move,
        ply: usize,
        cont0: Option<(usize, usize)>,
        cont1: Option<(usize, usize)>,
        use_see: bool,
    )
        requires
            self.wf(),
            board.wf(),
            ply < MAX_PLY,
            cont_ok(cont0),
            cont_ok(cont1),
            forall|i: int| 0 <= i < old(moves)@.len() ==> board@.squares[(#[trigger] old(moves)@[i]).spec_from().0 as int] is Some,
        ensures
            final(moves)@.len() == old(moves)@.len(),
            forall|i: int| 0 <= i < final(moves)@.len() ==> old(moves)@.contains(#[trigger] final(moves)@[i]),
            final(moves)@.to_multiset() == old(moves)@.to_multiset(),
    {
        let killer0 = self.killers[2 * ply];
        let killer1 = self.killers[2 * ply + 1];
        let n = moves.len();
        let mut scored: Vec<(i64, Move)> = Vec::new();
        let mut i: usize = 0;
        while i < n
            invariant
                self.wf(),
                board.wf(),
                n == moves@.len(),
                i <= n,
                cont_ok(cont0),
                cont_ok(cont1),
                scored@.len() == i,
                forall|k: int| 0 <= k < n ==> board@.squares[(#[trigger] moves@[k]).spec_from().0 as int] is Some,
                forall|k: int| 0 <= k < i ==> (#[trigger] scored@[k]).1 == moves@[k],
            decreases n - i,
        {
            let mv = moves.get(i);
            let sc = self.score_move(board, mv, tt_move, killer0, killer1, cont0, cont1, use_see);
            scored.push((-(sc as i64), mv));
            i = i + 1;
        }
        let ghost before = scored@;
        sort_by_key_ascending(&mut scored);
        proof {
            broadcast use vstd::seq_lib::group_to_multiset_ensures;
            assert forall|k: int| 0 <= k < n implies before.contains(#[trigger] scored@[k]) by {
                assert(scored@.contains(scored@[k]));
                assert(scored@.to_multiset().count(scored@[k]) > 0);
                assert(before.to_multiset().count(scored@[k]) > 0);
                assert(before.contains(scored@[k]));
            }
        }
        let ghost orig = moves@;
        let mut k: usize = 0;
        while k < n
            invariant
                k <= n,
                moves@.len() == n,
                scored@.len() == n,
                orig.len() == n,
                before.len() == n,
                forall|m: int| 0 <= m < n ==> (#[trigger] before[m]).1 == orig[m],
                forall|m: int| 0 <= m < n ==> before.contains(#[trigger] scored@[m]),
                forall|m: int| 0 <= m < k ==> #[trigger] moves@[m] == scored@[m].1,
                forall|m: int| k <= m < n ==> #[trigger] moves@[m] == orig[m],
            decreases n - k,
        {
            let entry = scored[k];
            moves.set(k, entry.1);
            k = k + 1;
        }
        proof {
            assert forall|m: int| 0 <= m < n implies orig.contains(#[trigger] moves@[m]) by {
                assert(before.contains(scored@[m]));
                let j = choose|j: int| 0 <= j < before.len() && before[j] == scored@[m];
                assert(orig[j] == before[j].1);
            }
            lemma_moves_permuted(scored@, before);
            assert(moves@ =~= moves_of(scored@));
            assert(orig =~= moves_of(before));
        }
    }

    /// Milliseconds since the search started.
    fn elapsed_ms(&self) -> u64 {
        millis_since(&self.start)
    }

    /// Set the soft and hard time limits for the side to move from the
    /// limits: none for infinite or clockless searches, a fixed time per move
    /// less a safety margin, or a share of the clock (the remaining time over
    /// the moves to go, at most forty, plus three quarters of the increment)
    /// capped at four fifths of the clock, with a hard limit four times the
    /// soft one under the same cap.
    fn setup_time(&mut self, stm: Color)
        requires
            old(self).wf(),
        ensures
            final(self).wf(),
            *final(self) == (Searcher { start: final(self).start, soft_ms: final(self).soft_ms, hard_ms: final(self).hard_ms, ..*old(self) }),
            old(self).limits.infinite ==> final(self).soft_ms == u64::MAX && final(self).hard_ms == u64::MAX,
            !old(self).limits.infinite && old(self).limits.movetime is Some ==> {
                let mt = old(self).limits.movetime.unwrap();
                let m = if mt > MOVE_OVERHEAD + 1 { mt - MOVE_OVERHEAD } else { 1 };
                final(self).soft_ms == m && final(self).hard_ms == m
            },
            !old(self).limits.infinite && old(self).limits.movetime is None ==> {
                let clock = if stm == Color::White { old(self).limits.wtime } else { old(self).limits.btime };
                &&& clock is None ==> final(self).soft_ms == u64::MAX && final(self).hard_ms == u64::MAX
                &&& clock matches Some(tl) ==> {
                    let t = if tl > MOVE_OVERHEAD + 1 { tl - MOVE_OVERHEAD } else { 1 };
                    final(self).hard_ms <= (if t * 4 / 5 >= 1 { t * 4 / 5 } else { 1 })
                }
            },
            final(self).soft_ms >= 1,
            final(self).hard_ms >= final(self).soft_ms,
    {
        self.start = clock_now();
        if self.limits.infinite {
            self.soft_ms = u64::MAX;
            self.hard_ms = u64::MAX;
            return;
        }
        match self.limits.movetime {
            Some(mt) => {
                let m0 = mt.saturating_sub(MOVE_OVERHEAD);
                let m = if m0 > 1 {
                    m0
                } else {
                    1
                };
                self.soft_ms = m;
                self.hard_ms = m;
                return;
            },
            None => {},
        }
        let clock = if stm == Color::White {
            self.limits.wtime
        } else {
            self.limits.btime
        };
        let time_left = match clock {
            Some(t) => t,
            None => {
                self.soft_ms = u64::MAX;
                self.hard_ms = u64::MAX;
                return;
            },
        };
        let inc = match if stm == Color::White {
            self.limits.winc
        } else {
            self.limits.binc
        } {
            Some(x) => x,
            None => 0,
        };
        let mtg: u64 = match self.limits.movestogo {
            Some(m) => if m < 1 {
                1
            } else if m > 40 {
                40
            } else {
                m as u64
            },
            None => 40,
        };
        let t0 = time_left.saturating_sub(MOVE_OVERHEAD);
        let t = if t0 > 1 {
            t0
        } else {
            1
        };
        let optimum = (t / mtg).saturating_add(inc / 4 * 3 + (inc % 4) * 3 / 4);
        let cap = t / 5 * 4 + (t % 5) * 4 / 5;
        assert(cap == t * 4 / 5) by (nonlinear_arith)
            requires
                cap == t / 5 * 4 + (t % 5) * 4 / 5,
                t >= 1,
        ;
        let soft0 = if optimum < cap {
            optimum
        } else {
            cap
        };
        let soft = if soft0 > 1 {
            soft0
        } else {
            1
        };
        let four = if optimum > u64::MAX / 4 {
            u64::MAX
        } else {
            optimum * 4
        };
        let hard0 = if four < cap {
            four
        } else {
            cap
        };
        let hard = if hard0 > soft {
            hard0
        } else {
            soft
        };
        self.soft_ms = soft;
        self.hard_ms = hard;
    }

    /// Set the stop flag if the external stop, node budget, or hard time limit
    /// has been reached.
    fn check_time(&mut self)
        requires
            old(self).wf(),
        ensures
            final(self).wf(),
            *final(self) == (Searcher { stopped: final(self).stopped, ..*old(self) }),
            old(self).stopped ==> final(self).stopped,
            (old(self).limits.nodes matches Some(n) && old(self).nodes >= n) ==> final(self).stopped,
            final(self).stopped ==> old(self).stopped || exists|flag: bool, elapsed: u64|
                must_stop_spec(flag, old(self).nodes, old(self).limits.nodes, old(self).hard_ms, elapsed),
    {
        let flag = self.stop.load(Ordering::Relaxed);
        let elapsed = self.elapsed_ms();
        if must_stop(flag, self.nodes, self.limits.nodes, self.hard_ms, elapsed) {
            self.stopped = true;
        }
    }
}


/// A search window: `alpha < beta`, both within the score range.
pub open spec fn window_ok(alpha: int, beta: int) -> bool {
    -33001 <= alpha < beta <= 33001
}

/// Passing the turn keeps a board playable for one ply fewer.
proof fn lemma_null_keeps_playable(before: Board, after: Board, plies: int)
    requires
        playable(before, plies),
        plies >= 1,
        after.valid(),
        after@ == apply_null(before@),
    ensures
        playable(after, plies - 1),
{
    let c = after@.stm;
    assert(after@.has_king(c) && after@.has_king(c.spec_flip())) by {
        assert(after@.squares == before@.squares);
        if c == Color::White {
            assert(before@.stm == Color::Black);
        } else {
            assert(before@.stm == Color::White);
        }
    }
}

/// Every move of a list the generator built, and then reordered, fits the
/// position.
proof fn lemma_listed_moves_fit(p: crate::position::Position, built: Seq<Move>, now: Seq<Move>, quiets: bool)
    requires
        extends(p, Seq::empty(), built, quiets),
        forall|i: int| 0 <= i < now.len() ==> built.contains(#[trigger] now[i]),
    ensures
        forall|i: int| 0 <= i < now.len() ==> gen_ok(p, #[trigger] now[i], quiets),
{
    assert forall|i: int| 0 <= i < now.len() implies gen_ok(p, #[trigger] now[i], quiets) by {
        let j = choose|j: int| 0 <= j < built.len() && built[j] == now[i];
        assert(gen_ok(p, built[j], quiets));
    }
}

/// Taking back a null move restores the board exactly.
proof fn lemma_null_restored_board(before: Board, after: Board, u: crate::board::Undo)
    requires
        before.valid(),
        before@.halfmove < 65535,
        before@.fullmove < 65535,
        u == Board::null_undo_of(before@),
        after.valid(),
        apply_null(after@) == apply_null(before@),
        u == Board::null_undo_of(after@),
    ensures
        after == before,
{
    crate::board::lemma_wf(before);
    crate::board::lemma_null_restored(before@, after@);
    crate::board::lemma_key_determined(after, before);
}

impl<E: Evaluator> Searcher<E> {
    /// Play `mv`, search the reply in quiescence and take the move back:
    /// the score of `mv` for the side that played it.
    fn quiescence_child(&mut self, tt: &Tt, board: &mut Board, mv: Move, alpha: i32, beta: i32, ply: usize, quiets: Ghost<bool>) -> (r: i32)
        requires
            old(self).wf(),
            tt.wf(),
            playable(*old(board), (MAX_PLY - ply) as int),
            ply < MAX_PLY,
            gen_ok(old(board)@, mv, quiets@),
            window_ok(alpha as int, beta as int),
        ensures
            final(self).wf(),
            *final(board) == *old(board),
            score_ok(r as int),
            Self::frame(*old(self), *final(self), MAX_PLY as int),
            final(self).pv_len@ == old(self).pv_len@,
        decreases MAX_PLY - ply - 1, 1int,
    {
        let ghost b0 = *board;
        let undo = board.make_move(mv);
        proof {
            lemma_play_keeps_playable(b0, mv, *board, (MAX_PLY - ply) as int, quiets@);
            crate::board::lemma_unmake_inverts_make(b0@, mv);
        }
        let key = board.zobrist_key();
        self.keys.push(key);
        let child = self.quiescence(tt, board, -beta, -alpha, ply + 1);
        self.keys.pop();
        proof {
            assert(self.keys@ =~= old(self).keys@);
        }
        board.unmake_move(mv, undo);
        proof {
            crate::board::lemma_key_determined(*board, b0);
        }
        -child
    }

    /// Quiescence search: from a quiet-enough position, stand pat on the
    /// static evaluation or follow captures and promotions (every evasion when
    /// in check) until the position is calm.
    fn quiescence(&mut self, tt: &Tt, board: &mut Board, alpha0: i32, beta: i32, ply: usize) -> (r: i32)
        requires
            old(self).wf(),
            tt.wf(),
            playable(*old(board), (MAX_PLY - ply) as int),
            ply <= MAX_PLY,
            window_ok(alpha0 as int, beta as int),
        ensures
            final(self).wf(),
            *final(board) == *old(board),
            score_ok(r as int),
            Self::frame(*old(self), *final(self), MAX_PLY as int),
            final(self).pv_len@ == old(self).pv_len@,
            ply < MAX_PLY && old(self).drawn(*old(board)) ==> r == DRAW,
            !final(self).stopped && ply < MAX_PLY && !old(self).drawn(*old(board)) && not_in_check(old(board)@)
                ==> r >= clamp_eval(old(self).eval.score_of(old(board)@)),
            !final(self).stopped && ply < MAX_PLY && !old(self).drawn(*old(board)) && !not_in_check(old(board)@)
                && no_fitting_move(old(board)@) ==> r == -MATE + ply,
            !final(self).stopped && ply < MAX_PLY && !old(self).drawn(*old(board)) && not_in_check(old(board)@)
                && (forall|m: Move| !#[trigger] gen_ok(old(board)@, m, false))
                ==> r == clamp_eval(old(self).eval.score_of(old(board)@)),
        decreases MAX_PLY - ply, 0int,
    {
        let mut alpha = alpha0;
        if self.stopped {
            return 0;
        }
        self.nodes = self.nodes.saturating_add(1);
        if self.nodes & 2047 == 0 {
            self.check_time();
        }
        if self.stopped {
            return 0;
        }
        if ply >= MAX_PLY {
            return self.static_eval(board);
        }
        if ply > self.seldepth {
            self.seldepth = ply;
        }
        if self.is_repetition(board) || insufficient_material(board) || board.halfmove_clock() >= 100 {
            return DRAW;
        }
        let ghost b0 = *board;
        let in_check = board.in_check();
        let mut moves = MoveList::new();
        let mut best: i32;
        let stand: i32;
        let ghost built: Seq<Move>;
        if in_check {
            stand = -INF;
            best = -INF;
            generate_legal(board, &mut moves);
            proof {
                built = moves@;
                if no_fitting_move(b0@) && moves@.len() > 0 {
                    assert(gen_ok(b0@, moves@[0], true));
                }
            }
            if moves.is_empty() {
                return -MATE + ply as i32;
            }
        } else {
            stand = self.static_eval(board);
            if stand >= beta {
                return stand;
            }
            if stand > alpha {
                alpha = stand;
            }
            best = stand;
            generate_noisy(board, &mut moves);
            proof {
                built = moves@;
                if (forall|m: Move| !#[trigger] gen_ok(b0@, m, false)) && moves@.len() > 0 {
                    assert(gen_ok(b0@, moves@[0], false));
                }
            }
        }
        let quiets: Ghost<bool> = Ghost(in_check);
        proof {
            assert forall|i: int| 0 <= i < moves@.len() implies b0@.squares[(#[trigger] moves@[i]).spec_from().0 as int] is Some by {
                assert(gen_ok(b0@, moves@[i], quiets@));
            }
        }
        self.order_moves(board, &mut moves, Move::null(), ply, None, None, false);
        proof {
            lemma_listed_moves_fit(b0@, built, moves@, quiets@);
        }
        let n = moves.len();
        let mut i: usize = 0;
        while i < n
            invariant_except_break
                window_ok(alpha as int, beta as int),
            invariant
                self.wf(),
                tt.wf(),
                *board == b0,
                b0 == *old(board),
                playable(b0, (MAX_PLY - ply) as int),
                ply < MAX_PLY,
                n == moves@.len(),
                i <= n,
                -INF <= best <= 33001,
                -INF <= stand < MATE_IN_MAX,
                best >= stand,
                !in_check ==> stand == clamp_eval(old(self).eval.score_of(b0@)),
                !in_check && (forall|m: Move| !#[trigger] gen_ok(b0@, m, false)) ==> n == 0 && best == stand,
                in_check == !not_in_check(b0@),
                quiets@ == in_check,
                forall|k: int| 0 <= k < n ==> gen_ok(b0@, #[trigger] moves@[k], quiets@),
                Self::frame(*old(self), *self, MAX_PLY as int),
                self.pv_len@ == old(self).pv_len@,
            decreases n - i,
        {
            let mv = moves.get(i);
            assert(gen_ok(b0@, moves@[i as int], quiets@));
            proof {
                lemma_move_bounds(mv);
            }
            if !in_check {
                let gain = move_gain(board, mv);
                if stand + gain + DELTA_MARGIN < alpha {
                    i = i + 1;
                    continue;
                }
                if mv.is_capture() && !mv.is_promotion() && !crate::see::see_ge(board, mv, 0) {
                    i = i + 1;
                    continue;
                }
            }
            let score = self.quiescence_child(tt, board, mv, alpha, beta, ply, quiets);
            if self.stopped {
                return 0;
            }
            if score > best {
                best = score;
                if score > alpha {
                    alpha = score;
                }
                if alpha >= beta {
                    break;
                }
            }
            i = i + 1;
        }
        best
    }
}


impl<E: Evaluator> Searcher<E> {
    /// Play `mv` and search the reply with principal-variation search and
    /// late-move reductions, then take the move back: the score of `mv` for
    /// the side that played it. The first move gets a full window; later ones
    /// a null-window probe, reduced when `reducible` and the move gives no
    /// check, re-searched at full depth when a reduced probe beats alpha and
    /// with the full window when the probe lands inside it.
    fn negamax_child(
        &mut self,
        tt: &mut Tt,
        board: &mut Board,
        mv: Move,
        piece_idx: usize,
        alpha: i32,
        beta: i32,
        depth: i32,
        ply: usize,
        first: bool,
        reducible: bool,
        is_pv: bool,
        hist: i32,
        move_count: usize,
    ) -> (r: i32)
        requires
            old(self).wf(),
            old(tt).wf(),
            playable(*old(board), (MAX_PLY - ply) as int),
            ply + 1 < MAX_PLY,
            gen_ok(old(board)@, mv, true),
            piece_idx < 12,
            window_ok(alpha as int, beta as int),
            1 <= depth <= MAX_PLY + ply + 1,
            reducible ==> depth >= LMR_MIN_DEPTH,
            -3 * HIST_CAP <= hist <= 3 * HIST_CAP,
        ensures
            final(self).wf(),
            final(tt).wf(),
            *final(board) == *old(board),
            score_ok(r as int),
            Self::frame(*old(self), *final(self), (ply + 1) as int),
        decreases MAX_PLY - ply - 1, 3int,
    {
        let ghost b0 = *board;
        proof {
            lemma_move_bounds(mv);
        }
        let undo = board.make_move(mv);
        proof {
            lemma_play_keeps_playable(b0, mv, *board, (MAX_PLY - ply) as int, true);
            crate::board::lemma_unmake_inverts_make(b0@, mv);
        }
        self.conth_stack.set(ply, Some((piece_idx, mv.to().index())));
        let key = board.zobrist_key();
        self.keys.push(key);
        let ghost keys1 = self.keys@;
        let score = if first {
            -self.negamax(tt, board, -beta, -alpha, depth - 1, ply + 1, true)
        } else {
            let mut reduction: i32 = 0;
            if reducible && !board.in_check() {
                reduction = lmr_reduction(depth, move_count);
                if is_pv {
                    reduction = reduction - 1;
                }
                let h = hist / HIST_LMR_DIV;
                let hc = if h < -2 {
                    -2
                } else if h > 2 {
                    2
                } else {
                    h
                };
                reduction = reduction - hc;
                if reduction < 0 {
                    reduction = 0;
                }
                if reduction > depth - 2 {
                    reduction = depth - 2;
                }
            }
            let mut s = -self.negamax(tt, board, -alpha - 1, -alpha, depth - 1 - reduction, ply + 1, true);
            if reduction > 0 && s > alpha {
                s = -self.negamax(tt, board, -alpha - 1, -alpha, depth - 1, ply + 1, true);
            }
            if s > alpha && s < beta {
                s = -self.negamax(tt, board, -beta, -alpha, depth - 1, ply + 1, true);
            }
            s
        };
        self.keys.pop();
        proof {
            assert(self.keys@ =~= old(self).keys@);
        }
        board.unmake_move(mv, undo);
        proof {
            crate::board::lemma_key_determined(*board, b0);
        }
        score
    }

    /// Pass the turn and search the reply with a null window around `beta` at
    /// `null_depth`, then take the null move back: the score for the side that
    /// passed.
    fn negamax_null(&mut self, tt: &mut Tt, board: &mut Board, beta: i32, null_depth: i32, ply: usize) -> (r: i32)
        requires
            old(self).wf(),
            old(tt).wf(),
            playable(*old(board), (MAX_PLY - ply) as int),
            ply + 1 < MAX_PLY,
            -33000 <= beta <= 33001,
            0 <= null_depth <= MAX_PLY + ply,
        ensures
            final(self).wf(),
            final(tt).wf(),
            *final(board) == *old(board),
            score_ok(r as int),
            Self::frame(*old(self), *final(self), (ply + 1) as int),
        decreases MAX_PLY - ply - 1, 3int,
    {
        let ghost b0 = *board;
        proof {
            crate::board::lemma_wf(b0);
        }
        let undo = board.make_null();
        proof {
            lemma_null_keeps_playable(b0, *board, (MAX_PLY - ply) as int);
            crate::board::lemma_unmake_null_inverts_make_null(b0@);
        }
        self.conth_stack.set(ply, None);
        let key = board.zobrist_key();
        self.keys.push(key);
        let child = self.negamax(tt, board, -beta, -beta + 1, null_depth, ply + 1, false);
        self.keys.pop();
        proof {
            assert(self.keys@ =~= old(self).keys@);
        }
        board.unmake_null(undo);
        proof {
            lemma_null_restored_board(b0, *board, undo);
        }
        -child
    }

    /// Alpha-beta negamax search of `board` to `depth` plies at distance `ply`
    /// from the root, within the window `(alpha, beta)`. The board is left as
    /// it was; the principal variation of `ply` starts with a move generated
    /// for the position whenever it is not empty.
    #[verifier::rlimit(50)]
    fn negamax(
        &mut self,
        tt: &mut Tt,
        board: &mut Board,
        alpha0: i32,
        beta0: i32,
        depth0: i32,
        ply: usize,
        do_null: bool,
    ) -> (r: i32)
        requires
            old(self).wf(),
            old(tt).wf(),
            playable(*old(board), (MAX_PLY - ply) as int),
            ply < MAX_PLY,
            window_ok(alpha0 as int, beta0 as int),
            0 <= depth0 <= MAX_PLY + ply,
        ensures
            final(self).wf(),
            final(tt).wf(),
            *final(board) == *old(board),
            score_ok(r as int),
            Self::frame(*old(self), *final(self), ply as int),
            (old(self).pv_len@[ply as int] > 0 ==> gen_ok(old(board)@, old(self).pv@[ply * MAX_PLY], true))
                ==> (final(self).pv_len@[ply as int] > 0 ==> gen_ok(old(board)@, final(self).pv@[ply * MAX_PLY], true)),
            0 < ply && (repeats(old(self).keys@, old(board).spec_key(), old(board)@.halfmove as int)
                || insufficient(old(board)@) || (old(board)@.halfmove >= 100 && not_in_check(old(board)@)))
                ==> r == DRAW,
            0 < ply && old(board)@.halfmove >= 100 ==> r == DRAW || r == -MATE + ply,
            !final(self).stopped && depth0 == 0 && !old(self).drawn(*old(board)) && not_in_check(old(board)@)
                ==> r >= clamp_eval(old(self).eval.score_of(old(board)@)),
            !final(self).stopped && ply + 1 < MAX_PLY && beta0 - alpha0 > 1 && alpha0 < MATE - ply - 1
                && -MATE + ply < beta0 && (ply == 0 || !repeats(old(self).keys@, old(board).spec_key(),
                old(board)@.halfmove as int) && !insufficient(old(board)@)) && no_fitting_move(old(board)@)
                && (depth0 > 0 || !not_in_check(old(board)@))
                ==> r == (if not_in_check(old(board)@) { DRAW as int } else { -MATE + ply }),
        decreases MAX_PLY - ply, 2int,
    {
        let mut alpha = alpha0;
        let mut beta = beta0;
        let mut depth = depth0;
        if self.stopped {
            return 0;
        }
        self.nodes = self.nodes.saturating_add(1);
        if self.nodes & 2047 == 0 {
            self.check_time();
        }
        if self.stopped {
            return 0;
        }
        self.pv_len.set(ply, 0);
        if ply + 1 >= MAX_PLY {
            return self.quiescence(tt, board, alpha, beta, ply);
        }
        let is_root = ply == 0;
        let is_pv = beta - alpha > 1;
        let in_check = board.in_check();
        if in_check {
            depth = depth + 1;
        }
        if depth <= 0 {
            return self.quiescence(tt, board, alpha, beta, ply);
        }
        if !is_root {
            if self.is_repetition(board) || insufficient_material(board) {
                return DRAW;
            }
            if board.halfmove_clock() >= 100 {
                if !in_check {
                    return DRAW;
                }
                let mut ml = MoveList::new();
                generate_legal(board, &mut ml);
                proof {
                    if no_fitting_move(board@) && ml@.len() > 0 {
                        assert(gen_ok(board@, ml@[0], true));
                    }
                }
                return if ml.is_empty() {
                    -MATE + ply as i32
                } else {
                    DRAW
                };
            }
            let floor = -MATE + ply as i32;
            if alpha < floor {
                alpha = floor;
            }
            let ceiling = MATE - ply as i32 - 1;
            if beta > ceiling {
                beta = ceiling;
            }
            if alpha >= beta {
                return alpha;
            }
        }
        if ply > self.seldepth {
            self.seldepth = ply;
        }

        let mut tt_move = Move::null();
        match tt.probe(board.zobrist_key()) {
            Some(entry) => {
                tt_move = entry.mv;
                if !is_pv && entry.depth >= depth {
                    let s = score_from_tt(entry.score, ply);
                    match entry.bound {
                        Bound::Exact => {
                            return s;
                        },
                        Bound::Lower => {
                            if s >= beta {
                                return s;
                            }
                        },
                        Bound::Upper => {
                            if s <= alpha {
                                return s;
                            }
                        },
                        Bound::Empty => {},
                    }
                }
            },
            None => {},
        }

        if !is_pv && !in_check && -MATE_IN_MAX < beta && beta < MATE_IN_MAX {
            let eval = self.static_eval(board);
            if depth <= RFP_MAX_DEPTH && eval - RFP_MARGIN * depth >= beta {
                return eval;
            }
            if do_null && depth >= NMP_MIN_DEPTH && eval >= beta && has_non_pawn_material(board) {
                let reduce = NMP_BASE + depth / NMP_DIV;
                let nd = depth - 1 - reduce;
                let null_depth = if nd > 0 {
                    nd
                } else {
                    0
                };
                let score = self.negamax_null(tt, board, beta, null_depth, ply);
                if self.stopped {
                    return 0;
                }
                if score >= beta {
                    return if score >= MATE_IN_MAX {
                        beta
                    } else {
                        score
                    };
                }
            }
        }

        let cont0 = if ply >= 1 {
            self.conth_stack[ply - 1]
        } else {
            None
        };
        let cont1 = if ply >= 2 {
            self.conth_stack[ply - 2]
        } else {
            None
        };

        let ghost b0 = *board;
        let mut moves = MoveList::new();
        generate_legal(board, &mut moves);
        proof {
            if no_fitting_move(b0@) && moves@.len() > 0 {
                assert(gen_ok(b0@, moves@[0], true));
            }
        }
        if moves.is_empty() {
            return if in_check {
                -MATE + ply as i32
            } else {
                DRAW
            };
        }
        let ghost built = moves@;
        proof {
            assert forall|i: int| 0 <= i < moves@.len() implies b0@.squares[(#[trigger] moves@[i]).spec_from().0 as int] is Some by {
                assert(gen_ok(b0@, moves@[i], true));
            }
        }
        self.order_moves(board, &mut moves, tt_move, ply, cont0, cont1, true);
        proof {
            lemma_listed_moves_fit(b0@, built, moves@, true);
        }
        self.search_moves(tt, board, &moves, alpha, beta, depth, ply, is_pv, in_check, cont0, cont1)
    }

    /// The move loop of [`negamax`](Self::negamax): search each move in
    /// order, with move-count, history and SEE pruning of unpromising moves at
    /// non-PV nodes, keep the best score, update the principal variation when
    /// a move raises alpha, and on a beta cutoff remember the move as a killer
    /// and update the histories. The result is stored in the transposition
    /// table.
    #[verifier::rlimit(50)]
    fn search_moves(
        &mut self,
        tt: &mut Tt,
        board: &mut Board,
        moves: &MoveList,
        alpha0: i32,
        beta: i32,
        depth: i32,
        ply: usize,
        is_pv: bool,
        in_check: bool,
        cont0: Option<(usize, usize)>,
        cont1: Option<(usize, usize)>,
    ) -> (r: i32)
        requires
            old(self).wf(),
            old(tt).wf(),
            playable(*old(board), (MAX_PLY - ply) as int),
            ply + 1 < MAX_PLY,
            window_ok(alpha0 as int, beta as int),
            1 <= depth <= MAX_PLY + ply + 1,
            cont_ok(cont0),
            cont_ok(cont1),
            forall|k: int| 0 <= k < moves@.len() ==> gen_ok(old(board)@, #[trigger] moves@[k], true),
            old(self).pv_len@[ply as int] == 0,
        ensures
            final(self).wf(),
            final(tt).wf(),
            *final(board) == *old(board),
            score_ok(r as int),
            Self::frame(*old(self), *final(self), ply as int),
            final(self).pv_len@[ply as int] > 0 ==> gen_ok(old(board)@, final(self).pv@[ply * MAX_PLY], true),
        decreases MAX_PLY - ply - 1, 4int,
    {
        let ghost b0 = *board;
        let mut alpha = alpha0;
        let alpha_at_entry = alpha0;
        let mut best: i32 = -INF;
        let mut best_move = Move::null();
        let mut move_count: usize = 0;
        let mut quiets_tried: Vec<Move> = Vec::new();
        let n = moves.len();
        let mut i: usize = 0;
        while i < n
            invariant_except_break
                window_ok(alpha as int, beta as int),
                move_count <= i,
            invariant
                self.wf(),
                tt.wf(),
                *board == b0,
                b0 == *old(board),
                playable(b0, (MAX_PLY - ply) as int),
                ply + 1 < MAX_PLY,
                n == moves@.len(),
                i <= n,
                1 <= depth <= MAX_PLY + ply + 1,
                -INF <= best <= 33001,
                -33001 <= alpha_at_entry <= 33001,
                cont_ok(cont0),
                cont_ok(cont1),
                forall|k: int| 0 <= k < n ==> gen_ok(b0@, #[trigger] moves@[k], true),
                Self::frame(*old(self), *self, ply as int),
                self.pv_len@[ply as int] > 0 ==> gen_ok(b0@, self.pv@[ply * MAX_PLY], true),
            decreases n - i,
        {
            let mv = moves.get(i);
            assert(gen_ok(b0@, moves@[i as int], true));
            proof {
                lemma_move_bounds(mv);
            }
            let is_quiet = !mv.is_capture() && !mv.is_promotion();
            let piece_idx = piece_index_on(board, mv.from());
            let hist = if is_quiet {
                self.quiet_history(mv.from().index(), mv.to().index(), piece_idx, cont0, cont1)
            } else {
                0
            };

            if !is_pv && !in_check && best > -MATE_IN_MAX {
                if is_quiet && depth <= LMP_MAX_DEPTH && move_count as i32 >= LMP_BASE + depth * depth {
                    i = i + 1;
                    continue;
                }
                if is_quiet && depth <= HP_MAX_DEPTH && hist < -HP_MARGIN * depth {
                    i = i + 1;
                    continue;
                }
                if depth <= SEE_PRUNE_MAX_DEPTH {
                    let threshold = if is_quiet {
                        -SEE_QUIET_MARGIN * depth
                    } else {
                        -SEE_CAPTURE_MARGIN * depth * depth
                    };
                    if !crate::see::see_ge(board, mv, threshold) {
                        i = i + 1;
                        continue;
                    }
                }
            }

            if is_quiet && quiets_tried.len() < MAX_QUIETS {
                quiets_tried.push(mv);
            }
            move_count = move_count + 1;
            let reducible = is_quiet && !in_check && depth >= LMR_MIN_DEPTH && move_count > LMR_MIN_MOVE_COUNT
                && mv != self.killers[2 * ply] && mv != self.killers[2 * ply + 1];
            let score = self.negamax_child(
                tt,
                board,
                mv,
                piece_idx,
                alpha,
                beta,
                depth,
                ply,
                move_count == 1,
                reducible,
                is_pv,
                hist,
                move_count,
            );
            if self.stopped {
                return 0;
            }
            if score > best {
                best = score;
                best_move = mv;
                if score > alpha {
                    alpha = score;
                    self.update_pv(ply, mv);
                    if alpha >= beta {
                        if is_quiet {
                            self.store_killer(ply, mv);
                        }
                        self.update_histories(board, mv, is_quiet, depth, cont0, cont1, &quiets_tried);
                        break;
                    }
                }
            }
            i = i + 1;
        }

        let bound = if best >= beta {
            Bound::Lower
        } else if best > alpha_at_entry {
            Bound::Exact
        } else {
            Bound::Upper
        };
        tt.store(board.zobrist_key(), best_move, score_to_tt(best, ply), depth, bound);
        best
    }
}


impl<E: Evaluator> Searcher<E> {
    /// Search the root to `depth`, using an aspiration window centred on the
    /// previous iteration's score `prev`. On a fail-high or fail-low the window
    /// is widened and the search retried; low depths use a full window. Once
    /// the window has been reopened fully, its result is accepted.
    fn search_root(&mut self, tt: &mut Tt, board: &mut Board, depth: i32, prev: i32) -> (r: i32)
        requires
            old(self).wf(),
            old(tt).wf(),
            playable(*old(board), MAX_PLY as int),
            1 <= depth < MAX_PLY,
            score_ok(prev as int),
        ensures
            final(self).wf(),
            final(tt).wf(),
            *final(board) == *old(board),
            score_ok(r as int),
            Self::frame(*old(self), *final(self), 0),
            (old(self).pv_len@[0] > 0 ==> gen_ok(old(board)@, old(self).pv@[0], true)) ==> (final(self).pv_len@[0]
                > 0 ==> gen_ok(old(board)@, final(self).pv@[0], true)),
    {
        if depth < ASPIRATION_MIN_DEPTH {
            return self.negamax(tt, board, -INF, INF, depth, 0, true);
        }
        let mut delta = ASPIRATION_DELTA;
        let mut alpha = if prev - delta > -INF {
            prev - delta
        } else {
            -INF
        };
        let mut beta = if prev + delta < INF {
            prev + delta
        } else {
            INF
        };
        let mut full = false;
        loop
            invariant
                self.wf(),
                tt.wf(),
                *board == *old(board),
                playable(*old(board), MAX_PLY as int),
                1 <= depth < MAX_PLY,
                ASPIRATION_DELTA <= delta < 1000,
                -33001 <= alpha <= 33001,
                -33001 <= beta <= 33001,
                Self::frame(*old(self), *self, 0),
                (old(self).pv_len@[0] > 0 ==> gen_ok(old(board)@, old(self).pv@[0], true)) ==> (self.pv_len@[0]
                    > 0 ==> gen_ok(old(board)@, self.pv@[0], true)),
            decreases (if full { 0int } else { 1000 - delta }),
        {
            if !(alpha < beta) {
                alpha = -INF;
                beta = INF;
            }
            let score = self.negamax(tt, board, alpha, beta, depth, 0, true);
            if self.stopped {
                return score;
            }
            if score <= alpha {
                beta = (alpha + beta) / 2;
                alpha = if score - delta > -INF {
                    score - delta
                } else {
                    -INF
                };
            } else if score >= beta {
                beta = if score + delta < INF {
                    score + delta
                } else {
                    INF
                };
            } else {
                return score;
            }
            if full {
                return score;
            }
            if delta >= ASPIRATION_MAX_DELTA {
                alpha = -INF;
                beta = INF;
                full = true;
            } else {
                delta = delta + delta / 2;
            }
        }
    }

    /// Iterative deepening: search depth 1, 2, ... up to the depth limit (at
    /// most `MAX_PLY - 1`), committing the principal variation's first move
    /// after each completed iteration and reporting it when `print`, and stop
    /// on the soft time limit, the node budget or a mate score. An
    /// interrupted iteration is discarded. The result is the null move when
    /// the position has no legal move, and otherwise a move generated for it.
    fn iterate<S: InfoSink>(&mut self, tt: &mut Tt, board: &mut Board, sink: &mut S, print: bool) -> (r: Move)
        requires
            old(self).wf(),
            old(tt).wf(),
            playable(*old(board), MAX_PLY as int),
            old(self).pv_len@[0] == 0,
        ensures
            final(self).wf(),
            final(tt).wf(),
            *final(board) == *old(board),
            r.0 != 0 ==> gen_ok(old(board)@, r, true),
            has_plain_move(old(board)@) ==> r.0 != 0,
            r == final(self).best_move,
    {
        tt.new_search();
        self.setup_time(board.side_to_move());
        self.nodes = 0;
        self.stopped = false;

        let root_moves = legal_moves(board);
        if root_moves.is_empty() {
            proof {
                if has_plain_move(board@) {
                    lemma_plain_move_listed(board@, root_moves@);
                }
            }
            self.best_move = Move::null();
            return Move::null();
        }
        self.best_move = root_moves.get(0);
        assert(gen_ok(board@, root_moves@[0], true));
        proof {
            lemma_fitting_move_not_null(board@, root_moves@[0]);
        }

        let max_depth: u32 = match self.limits.depth {
            Some(d) => if d < 127 {
                d
            } else {
                127
            },
            None => 127,
        };
        let mut score: i32 = 0;
        let mut depth: u32 = 1;
        while depth <= max_depth
            invariant
                self.wf(),
                tt.wf(),
                *board == *old(board),
                playable(*old(board), MAX_PLY as int),
                max_depth <= 127,
                1 <= depth <= 128,
                score_ok(score as int),
                self.best_move.0 != 0,
                gen_ok(old(board)@, self.best_move, true),
                self.pv_len@[0] > 0 ==> gen_ok(old(board)@, self.pv@[0], true),
            decreases 128 - depth,
        {
            self.seldepth = 0;
            score = self.search_root(tt, board, depth as i32, score);
            if self.stopped {
                break;
            }
            if self.pv_len[0] > 0 {
                self.best_move = self.pv[0];
                proof {
                    lemma_fitting_move_not_null(old(board)@, self.best_move);
                }
            }
            self.last_score = score;
            self.last_depth = depth;
            if print {
                let n = self.pv_len[0];
                let mut line: Vec<Move> = Vec::new();
                let mut k: usize = 0;
                while k < n
                    invariant
                        self.wf(),
                        n == self.pv_len@[0],
                        k <= n,
                    decreases n - k,
                {
                    line.push(self.pv[k]);
                    k = k + 1;
                }
                let info = SearchInfo {
                    depth,
                    seldepth: self.seldepth,
                    score,
                    nodes: self.nodes,
                    time_ms: self.elapsed_ms(),
                    hashfull: tt.hashfull(),
                    pv: line,
                };
                sink.report(&info);
            }
            if self.elapsed_ms() >= self.soft_ms {
                break;
            }
            match self.limits.nodes {
                Some(n) => {
                    if self.nodes >= n {
                        break;
                    }
                },
                None => {},
            }
            if score >= MATE_IN_MAX || score <= -MATE_IN_MAX {
                break;
            }
            depth = depth + 1;
        }
        self.best_move
    }
}

/// The root requirement of a search: a playable board with room on the clocks
/// for a full-depth line.
pub open spec fn searchable(board: Board) -> bool {
    playable(board, MAX_PLY as int)
}

/// Run a search with evaluator `eval`, table `tt` and stop flag `stop`,
/// without reports, and return the result. `history` holds the Zobrist keys of
/// the game so far (ending with the root position) for repetition detection.
/// The best move is the null move only when the position has no legal move;
/// otherwise it is a move generated for the position.
pub fn search_sync_tt<E: Evaluator>(
    board: &Board,
    history: &[u64],
    limits: SearchLimits,
    eval: E,
    tt: &mut Tt,
    stop: Arc<AtomicBool>,
) -> (r: SearchResult)
    requires
        searchable(*board),
        old(tt).wf(),
    ensures
        final(tt).wf(),
        r.best_move.0 != 0 ==> gen_ok(board@, r.best_move, true),
        has_plain_move(board@) ==> r.best_move.0 != 0,
        no_fitting_move(board@) ==> r.best_move.0 == 0,
        score_ok(r.score as int),
        r.depth < MAX_PLY,
{
    let mut keys: Vec<u64> = Vec::new();
    let mut i: usize = 0;
    while i < history.len()
        invariant
            i <= history@.len(),
            keys@ == history@.subrange(0, i as int),
        decreases history@.len() - i,
    {
        keys.push(history[i]);
        i = i + 1;
    }
    let mut searcher = Searcher::new(eval, stop, limits, keys);
    let mut b = *board;
    let mut sink = Silent;
    let best = searcher.iterate(tt, &mut b, &mut sink, false);
    SearchResult { best_move: best, score: searcher.last_score, depth: searcher.last_depth, nodes: searcher.nodes }
}


/// Run a search synchronously (no reports) with the hand-crafted evaluation
/// and a fresh 16 MiB table, and return the result. The best move is the null
/// move only when the position has no legal move; otherwise it is a move
/// generated for the position.
pub fn search_sync(board: &Board, history: &[u64], limits: SearchLimits) -> (r: SearchResult)
    requires
        searchable(*board),
    ensures
        r.best_move.0 != 0 ==> gen_ok(board@, r.best_move, true),
        has_plain_move(board@) ==> r.best_move.0 != 0,
        no_fitting_move(board@) ==> r.best_move.0 == 0,
        score_ok(r.score as int),
        r.depth < MAX_PLY,
{
    let mut tt = Tt::new(16);
    let stop = Arc::new(AtomicBool::new(false));
    search_sync_tt(board, history, limits, HandCrafted::new(), &mut tt, stop)
}

/// Run a search and return the best move, reporting each completed iteration
/// to `sink`. `history` holds the Zobrist keys of the game so far (ending with
/// the root position) for repetition detection; setting `stop` interrupts the
/// search. The position is evaluated by the hand-crafted evaluation.
pub fn think<S: InfoSink>(
    board: Board,
    history: Vec<u64>,
    tt: &mut Tt,
    stop: Arc<AtomicBool>,
    limits: SearchLimits,
    sink: &mut S,
) -> (r: Move)
    requires
        searchable(board),
        old(tt).wf(),
    ensures
        final(tt).wf(),
        r.0 != 0 ==> gen_ok(board@, r, true),
        has_plain_move(board@) ==> r.0 != 0,
        no_fitting_move(board@) ==> r.0 == 0,
{
    think_with(HandCrafted::new(), board, history, tt, stop, limits, sink)
}

/// [`think`] with the evaluator `eval`.
pub fn think_with<E: Evaluator, S: InfoSink>(
    eval: E,
    board: Board,
    history: Vec<u64>,
    tt: &mut Tt,
    stop: Arc<AtomicBool>,
    limits: SearchLimits,
    sink: &mut S,
) -> (r: Move)
    requires
        searchable(board),
        old(tt).wf(),
    ensures
        final(tt).wf(),
        r.0 != 0 ==> gen_ok(board@, r, true),
        has_plain_move(board@) ==> r.0 != 0,
        no_fitting_move(board@) ==> r.0 == 0,
{
    let mut searcher = Searcher::new(eval, stop, limits, history);
    let mut b = board;
    searcher.iterate(tt, &mut b, sink, true)
}

} // verus!
