//! Training-data generation by self-play: the game loop, its random opening,
//! adjudication and the choice of positions worth recording.
//!
//! Each game starts from the standard position, is diversified by a handful of
//! uniformly-random legal opening plies, then played out by the engine against
//! itself at a small fixed node budget per move. A position is recorded (as
//! its FEN and the search score from White's point of view) only when it is
//! past the random opening, the side to move is not in check, the best move is
//! not a capture or promotion, and the score is not a (near-)mate.

use vstd::prelude::*;
use std::sync::Arc;
use std::sync::atomic::{AtomicBool, Ordering};
use crate::board::{Board, start_position, attackers_spec, king_square_spec};
use crate::fen::fen_of;
use crate::position::Position;
use crate::text::ascii_chars;
use crate::movegen::{gen_ok, legal_moves};
use crate::nnue::Eval;
use crate::perft::{playable, lemma_play_keeps_playable};
use crate::search::{search_sync_tt, SearchLimits, MATE_IN_MAX};
use crate::fen::{parse_unsigned, parse_unsigned_bytes};
use crate::tt::Tt;
use crate::types::{Color, Piece, PieceType};
use crate::uci::{is_word, word_is};

verus! {

use vstd::string::StringSliceAdditionalSpecFns;

/// Default number of games to generate.
pub const DEFAULT_GAMES: u64 = 5_000;
/// Default per-move node budget for the labelling search.
pub const DEFAULT_NODES: u64 = 5_000;
/// Default number of random opening plies used to diversify games.
pub const DEFAULT_RANDOM_PLIES: u32 = 8;
/// Hard cap on game length (plies) before adjudicating a draw.
pub const MAX_GAME_PLIES: u32 = 320;
/// Skip recording near-decisive/mate scores above this magnitude.
pub const SCORE_RECORD_CAP: i32 = 8_000;
/// Resign adjudication: a side leading by at least this for
/// [`ADJUDICATE_PLIES`] consecutive plies wins.
pub const RESIGN_CP: i32 = 2_000;
/// Draw adjudication band.
pub const DRAW_CP: i32 = 8;
/// Consecutive plies an adjudication condition must hold.
pub const ADJUDICATE_PLIES: u32 = 6;
/// Ply after which draw adjudication is allowed.
pub const DRAW_ADJ_MIN_PLY: u32 = 60;
/// The most random opening plies a game can take.
pub const MAX_RANDOM_PLIES: u32 = 60_000;

/// The state after `n` steps of the generator.
pub open spec fn rng_state(seed: u64, n: nat) -> u64
    decreases n,
{
    if n == 0 {
        seed
    } else {
        rng_state(seed, (n - 1) as nat).wrapping_add(0x9E37_79B9_7F4A_7C15)
    }
}

/// The output mixed from a generator state.
pub open spec fn rng_mix(s: u64) -> u64 {
    let z1 = (s ^ (s >> 30u64)).wrapping_mul(0xBF58_476D_1CE4_E5B9);
    let z2 = (z1 ^ (z1 >> 27u64)).wrapping_mul(0x94D0_49BB_1331_11EB);
    z2 ^ (z2 >> 31u64)
}

/// A small, fast pseudo-random generator (SplitMix64) for opening
/// randomization.
pub struct Rng(pub u64);

impl Rng {
    pub fn new(seed: u64) -> (r: Rng)
        ensures
            r.0 == seed,
    {
        Rng(seed)
    }

    /// Advance the state by the golden-ratio increment and mix it.
    pub fn next_u64(&mut self) -> (r: u64)
        ensures
            final(self).0 == old(self).0.wrapping_add(0x9E37_79B9_7F4A_7C15),
            r == rng_mix(final(self).0),
    {
        self.0 = self.0.wrapping_add(0x9E37_79B9_7F4A_7C15);
        let mut z = self.0;
        z = (z ^ (z >> 30)).wrapping_mul(0xBF58_476D_1CE4_E5B9);
        z = (z ^ (z >> 27)).wrapping_mul(0x94D0_49BB_1331_11EB);
        z ^ (z >> 31)
    }

    /// A number below `n`: the next output modulo `n`.
    pub fn below(&mut self, n: usize) -> (r: usize)
        requires
            n > 0,
        ensures
            final(self).0 == old(self).0.wrapping_add(0x9E37_79B9_7F4A_7C15),
            r == rng_mix(final(self).0) % (n as u64),
            r < n,
    {
        let x = self.next_u64();
        (x % n as u64) as usize
    }
}

/// Options of a data-generation run.
pub struct Config {
    /// Games to generate.
    pub games: u64,
    /// Node budget of each labelling search.
    pub nodes: u64,
    /// Random opening plies per game.
    pub random_plies: u32,
    /// Worker threads.
    pub threads: usize,
    /// Output file.
    pub out: String,
}

/// Where the generated positions are written unless `--out` says otherwise.
pub const DEFAULT_OUT: &'static str = "data/mindless.txt";

/// The settings read so far: games, nodes, random plies, threads, and the
/// index of the argument naming the output file (or -1 for the default).
pub type Settings = (u64, u64, u32, usize, int);

/// The bytes of a command-line argument.
pub open spec fn arg_bytes(a: String) -> Seq<u8> {
    vstd::utf8::encode_utf8(a@)
}

/// The index after an option at `i` and its value (just `i + 1` when the
/// option is the last argument).
pub open spec fn after_option(n: int, i: int) -> int {
    if i + 1 < n {
        i + 2
    } else {
        i + 1
    }
}

/// A number in the argument after `i`, if there is one and it reads as a
/// decimal no greater than `max`.
pub open spec fn arg_number(args: Seq<String>, i: int, max: nat) -> Option<nat> {
    if 0 <= i && i + 1 < args.len() {
        parse_unsigned(arg_bytes(args[i + 1]), max)
    } else {
        None
    }
}

/// The settings that the arguments from `i` on make of `acc`. An option
/// takes the argument after it as its value; a value that does not read as a
/// number leaves the setting as it was; `--threads` is at least one.
pub open spec fn settings_from(args: Seq<String>, i: int, acc: Settings) -> Settings
    decreases args.len() + 1 - i,
{
    if i < 0 || i >= args.len() {
        acc
    } else {
        let a = arg_bytes(args[i]);
        let next = after_option(args.len() as int, i);
        if is_word(a, "--games") {
            let g = match arg_number(args, i, u64::MAX as nat) {
                Some(v) => v as u64,
                None => acc.0,
            };
            settings_from(args, next, (g, acc.1, acc.2, acc.3, acc.4))
        } else if is_word(a, "--nodes") {
            let n = match arg_number(args, i, u64::MAX as nat) {
                Some(v) => v as u64,
                None => acc.1,
            };
            settings_from(args, next, (acc.0, n, acc.2, acc.3, acc.4))
        } else if is_word(a, "--random-plies") {
            let r = match arg_number(args, i, u32::MAX as nat) {
                Some(v) => v as u32,
                None => acc.2,
            };
            settings_from(args, next, (acc.0, acc.1, r, acc.3, acc.4))
        } else if is_word(a, "--threads") {
            let t = match arg_number(args, i, usize::MAX as nat) {
                Some(v) => v as usize,
                None => acc.3,
            };
            settings_from(args, next, (acc.0, acc.1, acc.2, if t < 1 { 1 } else { t }, acc.4))
        } else if is_word(a, "--out") {
            let o = if i + 1 < args.len() {
                i + 1
            } else {
                acc.4
            };
            settings_from(args, next, (acc.0, acc.1, acc.2, acc.3, o))
        } else {
            settings_from(args, i + 1, acc)
        }
    }
}

/// The number in the argument after `i` (see [`arg_number`]).
fn arg_number_at(args: &[String], i: usize, max: u64) -> (r: Option<u64>)
    requires
        i < args@.len(),
    ensures
        r matches Some(v) ==> arg_number(args@, i as int, max as nat) == Some(v as nat),
        r is None ==> arg_number(args@, i as int, max as nat) is None,
{
    let n = args.len();
    if i + 1 < n {
        parse_unsigned_bytes(args[i + 1].as_str().as_bytes(), max)
    } else {
        None
    }
}

/// Whether argument `i` is the text `s`.
fn arg_is(args: &[String], i: usize, s: &str) -> (r: bool)
    requires
        i < args@.len(),
    ensures
        r == is_word(arg_bytes(args@[i as int]), s),
{
    let t = args[i].as_str();
    let a = t.as_bytes();
    assert(a@ == arg_bytes(args@[i as int]));
    word_is(a, s)
}

impl Config {
    /// Read the options of a run: `--games`, `--nodes`, `--random-plies`,
    /// `--threads` and `--out`, each followed by its value. Threads default to
    /// one fewer than `available` (at least one).
    pub fn parse(args: &[String], available: usize) -> (r: Config)
        ensures
            ({
                let s = settings_from(
                    args@,
                    0,
                    (
                        DEFAULT_GAMES,
                        DEFAULT_NODES,
                        DEFAULT_RANDOM_PLIES,
                        if available < 1 { 0 } else { (available - 1) as usize },
                        -1,
                    ),
                );
                &&& r.games == s.0
                &&& r.nodes == s.1
                &&& r.random_plies == s.2
                &&& r.threads == (if s.3 < 1 { 1 } else { s.3 })
                &&& r.out@ == (if s.4 >= 0 { args@[s.4]@ } else { DEFAULT_OUT@ })
            }),
    {
        let ghost start: Settings = (
            DEFAULT_GAMES,
            DEFAULT_NODES,
            DEFAULT_RANDOM_PLIES,
            if available < 1 { 0 } else { (available - 1) as usize },
            -1,
        );
        let mut games = DEFAULT_GAMES;
        let mut nodes = DEFAULT_NODES;
        let mut random_plies = DEFAULT_RANDOM_PLIES;
        let mut threads: usize = if available < 1 {
            0
        } else {
            available - 1
        };
        let mut out: Option<usize> = None;
        let n = args.len();
        let mut i: usize = 0;
        while i < n
            invariant
                n == args@.len(),
                i <= n,
                settings_from(args@, i as int, (games, nodes, random_plies, threads, match out {
                    Some(k) => k as int,
                    None => -1,
                })) == settings_from(args@, 0, start),
                out matches Some(k) ==> k < n,
            decreases n - i,
        {
            let next = if i + 1 < n {
                i + 2
            } else {
                i + 1
            };
            if arg_is(args, i, "--games") {
                match arg_number_at(args, i, u64::MAX) {
                    Some(v) => {
                        games = v;
                    },
                    None => {},
                }
                i = next;
            } else if arg_is(args, i, "--nodes") {
                match arg_number_at(args, i, u64::MAX) {
                    Some(v) => {
                        nodes = v;
                    },
                    None => {},
                }
                i = next;
            } else if arg_is(args, i, "--random-plies") {
                match arg_number_at(args, i, u32::MAX as u64) {
                    Some(v) => {
                        random_plies = v as u32;
                    },
                    None => {},
                }
                i = next;
            } else if arg_is(args, i, "--threads") {
                match arg_number_at(args, i, usize::MAX as u64) {
                    Some(v) => {
                        threads = v as usize;
                    },
                    None => {},
                }
                if threads < 1 {
                    threads = 1;
                }
                i = next;
            } else if arg_is(args, i, "--out") {
                if i + 1 < n {
                    out = Some(i + 1);
                }
                i = next;
            } else {
                i = i + 1;
            }
        }
        let out_text = match out {
            Some(k) => args[k].clone(),
            None => DEFAULT_OUT.to_owned(),
        };
        Config {
            games,
            nodes,
            random_plies,
            threads: if threads < 1 {
                1
            } else {
                threads
            },
            out: out_text,
        }
    }
}

/// The eventual result of a generated game, from White's perspective.
#[derive(Clone, Copy, PartialEq, Eq, Debug, Structural)]
pub enum GameResult {
    WhiteWin,
    Draw,
    BlackWin,
}

impl GameResult {
    /// The result as recorded with each position: `1.0` for a White win,
    /// `0.5` for a draw, `0.0` for a Black win.
    pub fn label(self) -> (r: &'static str)
        ensures
            self is WhiteWin ==> r@ == "1.0"@,
            self is Draw ==> r@ == "0.5"@,
            self is BlackWin ==> r@ == "0.0"@,
    {
        match self {
            GameResult::WhiteWin => "1.0",
            GameResult::Draw => "0.5",
            GameResult::BlackWin => "0.0",
        }
    }
}

/// The games that worker `t` of `threads` plays: an even share, with the
/// first `games % threads` workers taking one more.
pub fn games_share(games: u64, threads: usize, t: usize) -> (r: u64)
    requires
        threads > 0,
    ensures
        r == games / (threads as u64) + (if (t as u64) < games % (threads as u64) { 1int } else { 0int }),
{
    let n = threads as u64;
    let base = games / n;
    proof {
        assert(base * n <= games) by (nonlinear_arith)
            requires
                base == games / n,
                n > 0,
        ;
        assert(base < u64::MAX || n == 1) by (nonlinear_arith)
            requires
                base == games / n,
                n > 0,
        ;
    }
    if (t as u64) < games % n {
        assert(n > 1);
        base + 1
    } else {
        base
    }
}

/// The random seed of worker `t`: the base seed mixed with the worker index.
pub fn thread_seed(base: u64, t: u64) -> (r: u64)
    ensures
        r == base ^ t.wrapping_mul(0xD1B5_4A32_D192_ED03),
{
    base ^ t.wrapping_mul(0xD1B5_4A32_D192_ED03)
}

/// Occurrences of `key` in `keys`.
pub open spec fn occurrences(keys: Seq<u64>, key: u64) -> nat
    decreases keys.len(),
{
    if keys.len() == 0 {
        0
    } else {
        occurrences(keys.drop_last(), key) + if keys.last() == key { 1nat } else { 0nat }
    }
}

/// True if `key` already appears at least twice in `keys` (so making the move
/// that produced it is the third occurrence: a threefold repetition).
pub fn is_threefold(keys: &[u64], key: u64) -> (r: bool)
    ensures
        r == (occurrences(keys@, key) >= 2),
{
    let mut count: usize = 0;
    let mut i: usize = 0;
    while i < keys.len()
        invariant
            i <= keys@.len(),
            count == occurrences(keys@.subrange(0, i as int), key),
            count <= i,
        decreases keys@.len() - i,
    {
        assert(keys@.subrange(0, i + 1).drop_last() =~= keys@.subrange(0, i as int));
        if keys[i] == key {
            count = count + 1;
        }
        i = i + 1;
    }
    assert(keys@.subrange(0, keys@.len() as int) =~= keys@);
    count >= 2
}

/// Dead material that ends a game quickly: no pawns, rooks or queens, and at
/// most one minor piece on the board.
pub open spec fn dead_material(p: crate::position::Position) -> bool {
    &&& p.type_set(PieceType::Pawn) == Set::<int>::empty()
    &&& p.type_set(PieceType::Rook) == Set::<int>::empty()
    &&& p.type_set(PieceType::Queen) == Set::<int>::empty()
    &&& crate::bits::popcount(piece_bits(p, PieceType::Knight)) + crate::bits::popcount(piece_bits(p, PieceType::Bishop)) <= 1
}

/// The bits of the squares holding a kind of piece.
pub open spec fn piece_bits(p: crate::position::Position, k: PieceType) -> u64 {
    choose|x: u64| crate::bitboard::Bitboard(x)@ == p.type_set(k)
}

/// Minimal insufficient-material check used to end dead games quickly: only
/// kings, or one minor piece and the kings.
pub fn insufficient_material(board: &Board) -> (r: bool)
    requires
        board.wf(),
    ensures
        r == dead_material(board@),
{
    if board.pieces(PieceType::Pawn).any() || board.pieces(PieceType::Rook).any() || board.pieces(
        PieceType::Queen,
    ).any() {
        return false;
    }
    let n = board.pieces(PieceType::Knight);
    let b = board.pieces(PieceType::Bishop);
    proof {
        let xn = piece_bits(board@, PieceType::Knight);
        let xb = piece_bits(board@, PieceType::Bishop);
        assert(crate::bitboard::Bitboard(n.0)@ == board@.type_set(PieceType::Knight));
        assert(crate::bitboard::Bitboard(b.0)@ == board@.type_set(PieceType::Bishop));
        crate::bitboard::lemma_view_ext(crate::bitboard::Bitboard(xn), n);
        crate::bitboard::lemma_view_ext(crate::bitboard::Bitboard(xb), b);
    }
    let minors = n.count() as u64 + b.count() as u64;
    minors <= 1
}

/// The start position has both kings and room on its clocks.
proof fn lemma_start_playable(b: Board, plies: int)
    requires
        b.valid(),
        b@ == start_position(),
        0 <= plies <= 65534,
    ensures
        playable(b, plies),
{
    assert(b@.squares[4] == Some(Piece::spec_make(Color::White, PieceType::King)));
    assert(b@.squares[60] == Some(Piece::spec_make(Color::Black, PieceType::King)));
}

/// A random opening: `plies` uniformly random legal plies from the start
/// position, or `None` if the game ended on the way (or has no move after).
fn random_opening(rng: &mut Rng, plies: u32) -> (r: Option<Board>)
    requires
        plies <= MAX_RANDOM_PLIES,
    ensures
        r matches Some(b) ==> playable(b, 65000 - plies),
{
    let mut b = Board::startpos();
    proof {
        lemma_start_playable(b, 65000);
    }
    let mut k: u32 = 0;
    while k < plies
        invariant
            k <= plies <= MAX_RANDOM_PLIES,
            playable(b, 65000 - k),
        decreases plies - k,
    {
        let moves = legal_moves(&b);
        if moves.is_empty() {
            return None;
        }
        let idx = rng.below(moves.len());
        let mv = moves.get(idx);
        assert(gen_ok(b@, moves@[idx as int], true));
        let ghost before = b;
        proof {
            crate::board::lemma_wf(b);
        }
        b.make_move(mv);
        proof {
            lemma_play_keeps_playable(before, mv, b, 65000 - k, true);
        }
        k = k + 1;
    }
    if legal_moves(&b).is_empty() {
        return None;
    }
    Some(b)
}

/// How a game stands before a move is searched: over with a result, or
/// going on. With no move to play, the side to move is mated when in check
/// (a win for the other side) and stalemated otherwise; a game is also drawn
/// by the fifty-move rule, a threefold repetition, dead material, or the
/// length cap.
pub open spec fn game_over_spec(
    no_moves: bool,
    in_check: bool,
    stm: Color,
    halfmove: u16,
    threefold: bool,
    dead: bool,
    ply: u32,
) -> Option<GameResult> {
    if no_moves {
        if in_check {
            Some(if stm == Color::White { GameResult::BlackWin } else { GameResult::WhiteWin })
        } else {
            Some(GameResult::Draw)
        }
    } else if halfmove >= 100 || threefold || dead || ply >= MAX_GAME_PLIES {
        Some(GameResult::Draw)
    } else {
        None
    }
}

/// The result of a game in this state, if it is over (see
/// [`game_over_spec`]).
pub fn game_over(
    no_moves: bool,
    in_check: bool,
    stm: Color,
    halfmove: u16,
    threefold: bool,
    dead: bool,
    ply: u32,
) -> (r: Option<GameResult>)
    ensures
        r == game_over_spec(no_moves, in_check, stm, halfmove, threefold, dead, ply),
{
    if no_moves {
        if in_check {
            Some(
                match stm {
                    Color::White => GameResult::BlackWin,
                    Color::Black => GameResult::WhiteWin,
                },
            )
        } else {
            Some(GameResult::Draw)
        }
    } else if halfmove >= 100 || threefold || dead || ply >= MAX_GAME_PLIES {
        Some(GameResult::Draw)
    } else {
        None
    }
}

/// The adjudication counters of a game: how many plies in a row one side
/// (of sign `decisive_sign`) has been ahead by [`RESIGN_CP`], and how many
/// plies in a row the score has been within [`DRAW_CP`] of zero.
#[derive(Clone, Copy, PartialEq, Eq, Debug, Structural)]
pub struct Adjudication {
    pub decisive_streak: u32,
    pub decisive_sign: i32,
    pub draw_streak: u32,
}

/// One ply of adjudication with White's score `s` at ply `ply`: a score of
/// at least [`RESIGN_CP`] either way extends the streak of that side (or
/// starts it) and ends the game once it lasts [`ADJUDICATE_PLIES`] plies;
/// otherwise that streak resets. Then, from ply [`DRAW_ADJ_MIN_PLY`] on, a
/// score within [`DRAW_CP`] of zero extends the draw streak (a draw once it
/// lasts as long); otherwise it resets.
pub open spec fn adjudication_step(a: Adjudication, s: i32, ply: u32) -> (Adjudication, Option<GameResult>) {
    let decisive = s >= RESIGN_CP || s <= -RESIGN_CP;
    let sign: i32 = if s > 0 { 1i32 } else { -1i32 };
    let streak: u32 = if !decisive {
        0u32
    } else if sign == a.decisive_sign {
        (a.decisive_streak + 1) as u32
    } else {
        1u32
    };
    let dsign: i32 = if decisive { sign } else { 0i32 };
    if decisive && streak >= ADJUDICATE_PLIES {
        (
            Adjudication { decisive_streak: streak, decisive_sign: dsign, draw_streak: a.draw_streak },
            Some(if sign > 0 { GameResult::WhiteWin } else { GameResult::BlackWin }),
        )
    } else {
        let quiet = ply >= DRAW_ADJ_MIN_PLY && -DRAW_CP <= s && s <= DRAW_CP;
        let draws: u32 = if quiet { (a.draw_streak + 1) as u32 } else { 0u32 };
        (
            Adjudication { decisive_streak: streak, decisive_sign: dsign, draw_streak: draws },
            if quiet && draws >= ADJUDICATE_PLIES { Some(GameResult::Draw) } else { None },
        )
    }
}

impl Adjudication {
    /// No streaks yet.
    pub fn new() -> (r: Adjudication)
        ensures
            r == (Adjudication { decisive_streak: 0, decisive_sign: 0, draw_streak: 0 }),
    {
        Adjudication { decisive_streak: 0, decisive_sign: 0, draw_streak: 0 }
    }

    /// Advance the counters by one ply (see [`adjudication_step`]).
    pub fn step(self, s: i32, ply: u32) -> (r: (Adjudication, Option<GameResult>))
        requires
            self.decisive_streak < u32::MAX,
            self.draw_streak < u32::MAX,
        ensures
            r == adjudication_step(self, s, ply),
    {
        let decisive = s >= RESIGN_CP || s <= -RESIGN_CP;
        let sign: i32 = if s > 0 {
            1
        } else {
            -1
        };
        let streak: u32 = if !decisive {
            0
        } else if sign == self.decisive_sign {
            self.decisive_streak + 1
        } else {
            1
        };
        let dsign: i32 = if decisive {
            sign
        } else {
            0
        };
        if decisive && streak >= ADJUDICATE_PLIES {
            return (
                Adjudication { decisive_streak: streak, decisive_sign: dsign, draw_streak: self.draw_streak },
                Some(
                    if sign > 0 {
                        GameResult::WhiteWin
                    } else {
                        GameResult::BlackWin
                    },
                ),
            );
        }
        let quiet = ply >= DRAW_ADJ_MIN_PLY && -DRAW_CP <= s && s <= DRAW_CP;
        let draws: u32 = if quiet {
            self.draw_streak + 1
        } else {
            0
        };
        (
            Adjudication { decisive_streak: streak, decisive_sign: dsign, draw_streak: draws },
            if quiet && draws >= ADJUDICATE_PLIES {
                Some(GameResult::Draw)
            } else {
                None
            },
        )
    }
}

/// The side to move is in check in `p`.
pub open spec fn side_in_check(p: Position) -> bool {
    attackers_spec(p, king_square_spec(p, p.stm), p.occupied_set()).intersect(p.color_set(p.stm.spec_flip()))
        != Set::<int>::empty()
}

/// The entry records position `p`: its text is the FEN of `p`, a valid
/// position whose side to move is not in check.
pub open spec fn records(e: (String, i32), p: Position) -> bool {
    &&& p.valid()
    &&& !side_in_check(p)
    &&& e.0@ == ascii_chars(fen_of(p))
}

/// The entry records some position (see [`records`]).
pub open spec fn recorded(e: (String, i32)) -> bool {
    exists|p: Position| #[trigger] records(e, p)
}

/// Play one self-play game, appending recorded `(fen, white_relative_score)`
/// pairs to `buffer`, and return the game result. The game ends on mate,
/// stalemate, the fifty-move rule, threefold repetition, dead material, the
/// length cap, a search with no move, or adjudication: one side ahead by
/// [`RESIGN_CP`] for [`ADJUDICATE_PLIES`] plies in a row, or the score within
/// [`DRAW_CP`] of zero as long after ply [`DRAW_ADJ_MIN_PLY`].
pub fn play_game(
    cfg: &Config,
    rng: &mut Rng,
    tt: &mut Tt,
    stop: &Arc<AtomicBool>,
    eval: &Eval,
    buffer: &mut Vec<(String, i32)>,
) -> (r: GameResult)
    requires
        old(tt).wf(),
        cfg.random_plies <= MAX_RANDOM_PLIES,
    ensures
        final(tt).wf(),
        final(buffer)@.len() >= old(buffer)@.len(),
        final(buffer)@.subrange(0, old(buffer)@.len() as int) == old(buffer)@,
        forall|i: int| old(buffer)@.len() <= i < final(buffer)@.len() ==> -SCORE_RECORD_CAP < (
        #[trigger] final(buffer)@[i]).1 < SCORE_RECORD_CAP,
        forall|i: int| old(buffer)@.len() <= i < final(buffer)@.len() ==> #[trigger] recorded(final(buffer)@[i]),
{
    // Random opening; retry the whole opening if a random line ends the game.
    let mut found: Option<Board> = None;
    let mut tries: u64 = 0;
    while found.is_none() && tries < u64::MAX
        invariant
            cfg.random_plies <= MAX_RANDOM_PLIES,
            found matches Some(b) ==> playable(b, 65000 - cfg.random_plies),
        decreases u64::MAX - tries,
    {
        found = random_opening(rng, cfg.random_plies);
        tries = tries + 1;
    }
    let mut board = match found {
        Some(b) => b,
        None => {
            return GameResult::Draw;
        },
    };

    let mut keys: Vec<u64> = Vec::new();
    keys.push(board.zobrist_key());
    let limits = SearchLimits {
        depth: None,
        nodes: Some(cfg.nodes),
        movetime: None,
        wtime: None,
        btime: None,
        winc: None,
        binc: None,
        movestogo: None,
        infinite: false,
    };

    let mut ply: u32 = 0;
    let mut adjudication = Adjudication::new();
    let ghost start = buffer@;
    loop
        invariant
            tt.wf(),
            cfg.random_plies <= MAX_RANDOM_PLIES,
            ply <= MAX_GAME_PLIES,
            playable(board, 65000 - cfg.random_plies - ply),
            adjudication.decisive_streak <= ply,
            adjudication.draw_streak <= ply,
            buffer@.len() >= start.len(),
            buffer@.subrange(0, start.len() as int) == start,
            start == old(buffer)@,
            forall|i: int| start.len() <= i < buffer@.len() ==> -SCORE_RECORD_CAP < (#[trigger] buffer@[i]).1
                < SCORE_RECORD_CAP,
            forall|i: int| start.len() <= i < buffer@.len() ==> #[trigger] recorded(buffer@[i]),
        decreases MAX_GAME_PLIES - ply,
    {
        let moves = legal_moves(&board);
        let over = game_over(
            moves.is_empty(),
            board.in_check(),
            board.side_to_move(),
            board.halfmove_clock(),
            is_threefold(keys.as_slice(), board.zobrist_key()),
            insufficient_material(&board),
            ply,
        );
        match over {
            Some(result) => {
                return result;
            },
            None => {},
        }

        // Labelling search.
        reset_flag(stop);
        let res = search_sync_tt(&board, keys.as_slice(), limits, eval.clone(), tt, clone_flag(stop));
        let best = res.best_move;
        if best.is_null() {
            return GameResult::Draw;
        }

        let score_white = match board.side_to_move() {
            Color::White => res.score,
            Color::Black => -res.score,
        };

        let quiet = !best.is_capture() && !best.is_promotion();
        if ply >= cfg.random_plies && !board.in_check() && quiet && -SCORE_RECORD_CAP < score_white
            && score_white < SCORE_RECORD_CAP && -MATE_IN_MAX < res.score && res.score < MATE_IN_MAX {
            let fen = board.to_fen();
            let ghost before = buffer@;
            buffer.push((fen, score_white));
            proof {
                assert(buffer@.subrange(0, start.len() as int) =~= before.subrange(0, start.len() as int));
                assert(records(buffer@[before.len() as int], board@));
                assert forall|i: int| start.len() <= i < buffer@.len() implies #[trigger] recorded(buffer@[i]) by {
                    if i < before.len() {
                        assert(buffer@[i] == before[i]);
                    }
                }
            }
        }

        let (next, verdict) = adjudication.step(score_white, ply);
        adjudication = next;
        match verdict {
            Some(result) => {
                return result;
            },
            None => {},
        }
        let ghost before = board;
        proof {
            crate::board::lemma_wf(board);
        }
        board.make_move(best);
        proof {
            lemma_play_keeps_playable(before, best, board, 65000 - cfg.random_plies - ply, true);
        }
        keys.push(board.zobrist_key());
        ply = ply + 1;
    }
}

/// Clear the stop flag before a search.
fn reset_flag(flag: &Arc<AtomicBool>) {
    flag.store(false, Ordering::Relaxed);
}

/// `Arc::clone`: another handle to the same stop flag.
#[verifier::external_body]
fn clone_flag(flag: &Arc<AtomicBool>) -> (r: Arc<AtomicBool>) {
    Arc::clone(flag)
}

} // verus!
