//! Reading moves in UCI long algebraic notation (`e2e4`, `e7e8q`).

use vstd::prelude::*;
use crate::board::{Board, start_position};
use crate::fen::{parse_unsigned, parse_unsigned_bytes, slice_range, split_words, spans, spans_in, words, fen_from_words};
use crate::perft::is_playable;
use crate::position::{Position, apply_move, position_key};
use crate::search::SearchLimits;
use crate::text::{all_ascii, ascii_chars, lossy_string};
use crate::movegen::{castle_move, double_push_move, free_castle, free_double_push, free_pawn_move, free_promotion, promotion_move, free_piece_move, gen_ok, gen_ready, king_step_move, legal_moves, piece_move, safe_king_step};
use crate::moves::{Move, lemma_move_bounds};
use crate::types::Square;

verus! {

use vstd::string::StringSliceAdditionalSpecFns;

/// ASCII lowercase of a byte.
pub open spec fn lower(b: u8) -> u8 {
    if 65 <= b <= 90 {
        (b + 32) as u8
    } else {
        b
    }
}

/// The promotion letter of a move, if it promotes.
pub open spec fn promo_byte(m: Move) -> Option<u8> {
    match m.spec_promotion() {
        Some(pt) => Some(pt.spec_to_char() as u8),
        None => None,
    }
}

/// True if the UCI text `s` names move `m`: its first four bytes name the
/// origin and destination, and a fifth byte (compared in lowercase) names
/// the promotion piece, which a move without one must not have.
pub open spec fn names_move(s: Seq<u8>, m: Move) -> bool {
    &&& s.len() >= 4
    &&& Square::spec_from_uci_bytes(s.subrange(0, 2)) == Some(m.spec_from())
    &&& Square::spec_from_uci_bytes(s.subrange(2, 4)) == Some(m.spec_to())
    &&& promo_byte(m) == (if s.len() > 4 { Some(lower(s[4])) } else { None::<u8> })
}

/// Match a UCI move string against the legal moves of `board`: the first
/// generated move it names, or `None`.
pub fn parse_move(board: &Board, s: &str) -> (r: Option<Move>)
    requires
        gen_ready(*board),
    ensures
        r matches Some(m) ==> gen_ok(board@, m, true) && names_move(s.spec_bytes(), m),
        (s.spec_bytes().len() < 4 || Square::spec_from_uci_bytes(s.spec_bytes().subrange(0, 2)) is None
            || Square::spec_from_uci_bytes(s.spec_bytes().subrange(2, 4)) is None) ==> r is None,
        forall|t: int| #[trigger] safe_king_step(board@, t) && names_move(s.spec_bytes(), king_step_move(board@, t)) ==> r is Some,
        forall|f: int, t: int| #[trigger] free_piece_move(board@, f, t) && names_move(s.spec_bytes(), piece_move(board@, f, t))
            ==> r is Some,
        forall|f: int, t: int| #[trigger] free_pawn_move(board@, f, t) && names_move(s.spec_bytes(), piece_move(board@, f, t))
            ==> r is Some,
        forall|f: int, t: int| #[trigger] free_double_push(board@, f, t) && names_move(s.spec_bytes(), double_push_move(f, t))
            ==> r is Some,
        forall|f: int, t: int, k: int| free_promotion(board@, f, t) && 0 <= k < 4
            && names_move(s.spec_bytes(), #[trigger] promotion_move(board@, f, t, k)) ==> r is Some,
        forall|kingside: bool| #[trigger] free_castle(board@, kingside) && names_move(s.spec_bytes(), castle_move(board@, kingside))
            ==> r is Some,
{
    parse_move_bytes(board, s.as_bytes())
}

/// [`parse_move`] on the bytes of the move text.
pub fn parse_move_bytes(board: &Board, b: &[u8]) -> (r: Option<Move>)
    requires
        gen_ready(*board),
    ensures
        r matches Some(m) ==> gen_ok(board@, m, true) && names_move(b@, m),
        (b@.len() < 4 || Square::spec_from_uci_bytes(b@.subrange(0, 2)) is None
            || Square::spec_from_uci_bytes(b@.subrange(2, 4)) is None) ==> r is None,
        forall|t: int| #[trigger] safe_king_step(board@, t) && names_move(b@, king_step_move(board@, t)) ==> r is Some,
        forall|f: int, t: int| #[trigger] free_piece_move(board@, f, t) && names_move(b@, piece_move(board@, f, t))
            ==> r is Some,
        forall|f: int, t: int| #[trigger] free_pawn_move(board@, f, t) && names_move(b@, piece_move(board@, f, t))
            ==> r is Some,
        forall|f: int, t: int| #[trigger] free_double_push(board@, f, t) && names_move(b@, double_push_move(f, t))
            ==> r is Some,
        forall|f: int, t: int, k: int| free_promotion(board@, f, t) && 0 <= k < 4
            && names_move(b@, #[trigger] promotion_move(board@, f, t, k)) ==> r is Some,
        forall|kingside: bool| #[trigger] free_castle(board@, kingside) && names_move(b@, castle_move(board@, kingside))
            ==> r is Some,
{
    if b.len() < 4 {
        return None;
    }
    let from = match Square::from_uci_bytes(slice_range(b, 0, 2)) {
        Some(sq) => sq,
        None => {
            return None;
        },
    };
    let to = match Square::from_uci_bytes(slice_range(b, 2, 4)) {
        Some(sq) => sq,
        None => {
            return None;
        },
    };
    let want: Option<u8> = if b.len() > 4 {
        let c = b[4];
        Some(
            if 65 <= c && c <= 90 {
                c + 32
            } else {
                c
            },
        )
    } else {
        None
    };
    let moves = legal_moves(board);
    let n = moves.len();
    let mut i: usize = 0;
    while i < n
        invariant
            n == moves@.len(),
            i <= n,
            b@.len() >= 4,
            Square::spec_from_uci_bytes(b@.subrange(0, 2)) == Some(from),
            Square::spec_from_uci_bytes(b@.subrange(2, 4)) == Some(to),
            want == (if b@.len() > 4 { Some(lower(b@[4])) } else { None::<u8> }),
            forall|k: int| 0 <= k < n ==> gen_ok(board@, #[trigger] moves@[k], true),
            forall|k: int| 0 <= k < i ==> !names_move(b@, #[trigger] moves@[k]),
        decreases n - i,
    {
        let mv = moves.get(i);
        assert(gen_ok(board@, moves@[i as int], true));
        proof {
            lemma_move_bounds(mv);
        }
        if mv.from() == from && mv.to() == to {
            let promo: Option<u8> = match mv.promotion() {
                Some(pt) => Some(pt.to_char() as u8),
                None => None,
            };
            if promo == want {
                return Some(mv);
            }
        }
        i = i + 1;
    }
    proof {
        assert forall|t: int| #[trigger] safe_king_step(board@, t) implies !names_move(b@, king_step_move(board@, t)) by {
            assert(moves@.contains(king_step_move(board@, t)));
        }
        assert forall|f: int, t: int| #[trigger] free_piece_move(board@, f, t) implies !names_move(b@, piece_move(board@, f, t)) by {
            assert(moves@.contains(piece_move(board@, f, t)));
        }
        assert forall|f: int, t: int| #[trigger] free_pawn_move(board@, f, t) implies !names_move(b@, piece_move(board@, f, t)) by {
            assert(moves@.contains(piece_move(board@, f, t)));
        }
        assert forall|f: int, t: int| #[trigger] free_double_push(board@, f, t) implies !names_move(b@, double_push_move(f, t)) by {
            assert(moves@.contains(double_push_move(f, t)));
        }
        assert forall|f: int, t: int, k: int| free_promotion(board@, f, t) && 0 <= k < 4 implies !names_move(
            b@, #[trigger] promotion_move(board@, f, t, k)) by {
            assert(moves@.contains(promotion_move(board@, f, t, k)));
        }
        assert forall|kingside: bool| #[trigger] free_castle(board@, kingside) implies !names_move(
            b@, castle_move(board@, kingside)) by {
            assert(moves@.contains(castle_move(board@, kingside)));
        }
    }
    None
}

/// True if the word `t` is the text `s`.
pub open spec fn is_word(t: Seq<u8>, s: &str) -> bool {
    t == s.spec_bytes()
}

/// Whether a word is the text `s`.
pub(crate) fn word_is(t: &[u8], s: &str) -> (r: bool)
    ensures
        r == is_word(t@, s),
{
    let k = s.as_bytes();
    if t.len() != k.len() {
        return false;
    }
    let mut i: usize = 0;
    while i < t.len()
        invariant
            i <= t@.len(),
            t@.len() == k@.len(),
            k@ == s.spec_bytes(),
            forall|j: int| 0 <= j < i ==> t@[j] == k@[j],
        decreases t@.len() - i,
    {
        if t[i] != k[i] {
            return false;
        }
        i = i + 1;
    }
    assert(t@ =~= k@);
    true
}

/// Whether word `k` of `b` (with word bounds `w`) is the text `s`.
fn word_at(b: &[u8], w: &Vec<(usize, usize)>, k: usize, s: &str) -> (r: bool)
    requires
        spans_in(b@, w@),
        k < w@.len(),
    ensures
        r == is_word(spans(b@, w@)[k as int], s),
{
    assert(w@[k as int].0 <= w@[k as int].1 <= b@.len());
    word_is(slice_range(b, w[k].0, w[k].1), s)
}

/// The first index at or after `i` of a word that is `s`, or the number of
/// words.
pub open spec fn find_word(ws: Seq<Seq<u8>>, i: int, s: &str) -> int
    decreases ws.len() - i,
{
    if 0 <= i < ws.len() {
        if is_word(ws[i], s) {
            i
        } else {
            find_word(ws, i + 1, s)
        }
    } else {
        ws.len() as int
    }
}

proof fn lemma_find_word(ws: Seq<Seq<u8>>, i: int, s: &str)
    requires
        0 <= i <= ws.len(),
    ensures
        i <= find_word(ws, i, s) <= ws.len(),
        find_word(ws, i, s) < ws.len() ==> is_word(ws[find_word(ws, i, s)], s),
    decreases ws.len() - i,
{
    if i < ws.len() && !is_word(ws[i], s) {
        lemma_find_word(ws, i + 1, s);
    }
}

/// [`find_word`] on the words of `b`.
fn find_word_at(b: &[u8], w: &Vec<(usize, usize)>, i: usize, s: &str) -> (r: usize)
    requires
        spans_in(b@, w@),
        i <= w@.len(),
    ensures
        r == find_word(spans(b@, w@), i as int, s),
        i <= r <= w@.len(),
{
    let ghost ws = spans(b@, w@);
    let mut j = i;
    while j < w.len()
        invariant
            i <= j <= w@.len(),
            ws == spans(b@, w@),
            spans_in(b@, w@),
            find_word(ws, j as int, s) == find_word(ws, i as int, s),
        decreases w@.len() - j,
    {
        if word_at(b, w, j, s) {
            return j;
        }
        j = j + 1;
    }
    j
}

/// The number in the word after word `i`, if there is one and it reads as a
/// decimal no greater than `max`.
pub open spec fn number_after(ws: Seq<Seq<u8>>, i: int, max: nat) -> Option<nat> {
    if 0 <= i && i + 1 < ws.len() {
        parse_unsigned(ws[i + 1], max)
    } else {
        None
    }
}

/// [`number_after`] on the words of `b`.
fn number_after_at(b: &[u8], w: &Vec<(usize, usize)>, i: usize, max: u64) -> (r: Option<u64>)
    requires
        spans_in(b@, w@),
        i < w@.len(),
    ensures
        r matches Some(v) ==> number_after(spans(b@, w@), i as int, max as nat) == Some(v as nat),
        r is None ==> number_after(spans(b@, w@), i as int, max as nat) is None,
{
    let n = w.len();
    if i + 1 < n {
        assert(w@[i + 1].0 <= w@[i + 1].1 <= b@.len());
        parse_unsigned_bytes(slice_range(b, w[i + 1].0, w[i + 1].1), max)
    } else {
        None
    }
}

/// An optional number as a `u32` (the numbers read here are bounded by
/// `u32::MAX`).
pub open spec fn as_u32(o: Option<nat>) -> Option<u32> {
    match o {
        Some(v) => Some(v as u32),
        None => None,
    }
}

/// An optional number as a `u64`.
pub open spec fn as_u64(o: Option<nat>) -> Option<u64> {
    match o {
        Some(v) => Some(v as u64),
        None => None,
    }
}

/// Search limits with nothing set.
pub open spec fn no_limits() -> SearchLimits {
    SearchLimits {
        depth: None,
        nodes: None,
        movetime: None,
        wtime: None,
        btime: None,
        winc: None,
        binc: None,
        movestogo: None,
        infinite: false,
    }
}

/// The limits that the parameters of `go` from word `i` on give to `acc`.
/// A named limit takes the number in the next word (and is cleared when that
/// word does not read as one); `infinite` stands alone; other words are
/// skipped.
pub open spec fn limits_from(ws: Seq<Seq<u8>>, i: int, acc: SearchLimits) -> SearchLimits
    decreases ws.len() + 1 - i,
{
    if i < 0 || i >= ws.len() {
        acc
    } else if is_word(ws[i], "depth") {
        limits_from(ws, i + 2, SearchLimits { depth: as_u32(number_after(ws, i, u32::MAX as nat)), ..acc })
    } else if is_word(ws[i], "nodes") {
        limits_from(ws, i + 2, SearchLimits { nodes: as_u64(number_after(ws, i, u64::MAX as nat)), ..acc })
    } else if is_word(ws[i], "movetime") {
        limits_from(ws, i + 2, SearchLimits { movetime: as_u64(number_after(ws, i, u64::MAX as nat)), ..acc })
    } else if is_word(ws[i], "wtime") {
        limits_from(ws, i + 2, SearchLimits { wtime: as_u64(number_after(ws, i, u64::MAX as nat)), ..acc })
    } else if is_word(ws[i], "btime") {
        limits_from(ws, i + 2, SearchLimits { btime: as_u64(number_after(ws, i, u64::MAX as nat)), ..acc })
    } else if is_word(ws[i], "winc") {
        limits_from(ws, i + 2, SearchLimits { winc: as_u64(number_after(ws, i, u64::MAX as nat)), ..acc })
    } else if is_word(ws[i], "binc") {
        limits_from(ws, i + 2, SearchLimits { binc: as_u64(number_after(ws, i, u64::MAX as nat)), ..acc })
    } else if is_word(ws[i], "movestogo") {
        limits_from(ws, i + 2, SearchLimits { movestogo: as_u32(number_after(ws, i, u32::MAX as nat)), ..acc })
    } else if is_word(ws[i], "infinite") {
        limits_from(ws, i + 1, SearchLimits { infinite: true, ..acc })
    } else {
        limits_from(ws, i + 1, acc)
    }
}

fn u32_after(b: &[u8], w: &Vec<(usize, usize)>, i: usize) -> (r: Option<u32>)
    requires
        spans_in(b@, w@),
        i < w@.len(),
    ensures
        r == as_u32(number_after(spans(b@, w@), i as int, u32::MAX as nat)),
{
    match number_after_at(b, w, i, u32::MAX as u64) {
        Some(v) => Some(v as u32),
        None => None,
    }
}

fn u64_after(b: &[u8], w: &Vec<(usize, usize)>, i: usize) -> (r: Option<u64>)
    requires
        spans_in(b@, w@),
        i < w@.len(),
    ensures
        r == as_u64(number_after(spans(b@, w@), i as int, u64::MAX as nat)),
{
    number_after_at(b, w, i, u64::MAX)
}

/// The index two words on, stopping at the end.
fn skip_two(i: usize, n: usize) -> (r: usize)
    requires
        i < n,
    ensures
        r == (if i + 2 <= n { i + 2 } else { n as int }),
{
    if i + 1 < n {
        i + 2
    } else {
        n
    }
}

/// Read the parameters of `go` from word `start` on.
fn parse_limits(b: &[u8], w: &Vec<(usize, usize)>, start: usize) -> (r: SearchLimits)
    requires
        spans_in(b@, w@),
        start <= w@.len(),
    ensures
        r == limits_from(spans(b@, w@), start as int, no_limits()),
{
    let ghost ws = spans(b@, w@);
    let mut limits = SearchLimits {
        depth: None,
        nodes: None,
        movetime: None,
        wtime: None,
        btime: None,
        winc: None,
        binc: None,
        movestogo: None,
        infinite: false,
    };
    let mut i = start;
    while i < w.len()
        invariant
            ws == spans(b@, w@),
            spans_in(b@, w@),
            start <= i,
            limits_from(ws, i as int, limits) == limits_from(ws, start as int, no_limits()),
        decreases w@.len() - i,
    {
        proof {
            reveal_with_fuel(limits_from, 2);
        }
        if word_at(b, w, i, "depth") {
            limits.depth = u32_after(b, w, i);
            i = skip_two(i, w.len());
        } else if word_at(b, w, i, "nodes") {
            limits.nodes = u64_after(b, w, i);
            i = skip_two(i, w.len());
        } else if word_at(b, w, i, "movetime") {
            limits.movetime = u64_after(b, w, i);
            i = skip_two(i, w.len());
        } else if word_at(b, w, i, "wtime") {
            limits.wtime = u64_after(b, w, i);
            i = skip_two(i, w.len());
        } else if word_at(b, w, i, "btime") {
            limits.btime = u64_after(b, w, i);
            i = skip_two(i, w.len());
        } else if word_at(b, w, i, "winc") {
            limits.winc = u64_after(b, w, i);
            i = skip_two(i, w.len());
        } else if word_at(b, w, i, "binc") {
            limits.binc = u64_after(b, w, i);
            i = skip_two(i, w.len());
        } else if word_at(b, w, i, "movestogo") {
            limits.movestogo = u32_after(b, w, i);
            i = skip_two(i, w.len());
        } else if word_at(b, w, i, "infinite") {
            limits.infinite = true;
            i = i + 1;
        } else {
            i = i + 1;
        }
    }
    limits
}


/// The position reached by playing `moves` from `p`.
pub open spec fn plays(p: Position, moves: Seq<Move>) -> Position
    decreases moves.len(),
{
    if moves.len() == 0 {
        p
    } else {
        apply_move(plays(p, moves.drop_last()), moves.last())
    }
}

/// A game position set up by `position`: the board reached, the moves played
/// to reach it and the hash key of every position along the way.
pub struct GameLine {
    pub board: Board,
    pub moves: Vec<Move>,
    pub history: Vec<u64>,
}

/// The starting position that `position` names and the index of the word
/// after it: `startpos`, or `fen` followed by the fields up to `moves`.
pub open spec fn setup_of(ws: Seq<Seq<u8>>) -> Option<(Position, int)> {
    if ws.len() < 2 {
        None
    } else if is_word(ws[1], "startpos") {
        Some((start_position(), 2))
    } else if is_word(ws[1], "fen") {
        let end = find_word(ws, 2, "moves");
        match fen_from_words(ws.subrange(2, end)) {
            Ok(p) => Some((p, end)),
            Err(_) => None,
        }
    } else {
        None
    }
}

/// `line` is `p` followed by moves read, in order, from the words after the
/// word `moves` at index `rest`; every move is a generated move of the
/// position it is played in and is named by its word.
pub open spec fn follows(ws: Seq<Seq<u8>>, p: Position, rest: int, line: GameLine) -> bool {
    let moves = line.moves@;
    &&& line.board.valid()
    &&& line.board@ == plays(p, moves)
    &&& line.history@.len() == moves.len() + 1
    &&& forall|k: int| 0 <= k <= moves.len() ==> #[trigger] line.history@[k] == position_key(plays(p, moves.take(k)))
    &&& moves.len() > 0 ==> rest < ws.len() && is_word(ws[rest], "moves") && rest + 1 + moves.len() <= ws.len()
    &&& forall|k: int| 0 <= k < moves.len() ==> gen_ok(plays(p, moves.take(k)), #[trigger] moves[k], true)
        && names_move(ws[rest + 1 + k], moves[k])
}

/// Play the moves named after the word `moves` at index `rest`, from `board`,
/// until a word names no move or the position can take no further move.
fn play_moves(b: &[u8], w: &Vec<(usize, usize)>, rest: usize, board: Board) -> (r: GameLine)
    requires
        spans_in(b@, w@),
        rest <= w@.len(),
        board.valid(),
    ensures
        follows(spans(b@, w@), board@, rest as int, r),
{
    let ghost ws = spans(b@, w@);
    let ghost p0 = board@;
    let mut scratch = board;
    let mut moves: Vec<Move> = Vec::new();
    let mut history: Vec<u64> = Vec::new();
    history.push(scratch.zobrist_key());
    assert(moves@.take(0) =~= moves@);
    if rest < w.len() && word_at(b, w, rest, "moves") {
        let mut i = rest + 1;
        while i < w.len()
            invariant
                ws == spans(b@, w@),
                spans_in(b@, w@),
                rest < i <= w@.len(),
                is_word(ws[rest as int], "moves"),
                i == rest + 1 + moves@.len(),
                scratch.valid(),
                scratch@ == plays(p0, moves@),
                history@.len() == moves@.len() + 1,
                forall|k: int| 0 <= k <= moves@.len() ==> #[trigger] history@[k] == position_key(plays(p0, moves@.take(k))),
                forall|k: int| 0 <= k < moves@.len() ==> gen_ok(plays(p0, moves@.take(k)), #[trigger] moves@[k], true)
                    && names_move(ws[rest + 1 + k], moves@[k]),
            decreases w@.len() - i,
        {
            if !is_playable(&scratch, 1) {
                break;
            }
            assert(w@[i as int].0 <= w@[i as int].1 <= b@.len());
            let token = slice_range(b, w[i].0, w[i].1);
            let mv = match parse_move_bytes(&scratch, token) {
                Some(m) => m,
                None => {
                    break;
                },
            };
            let ghost before = moves@;
            scratch.make_move(mv);
            moves.push(mv);
            history.push(scratch.zobrist_key());
            proof {
                assert(moves@.drop_last() =~= before);
                assert(moves@.take(moves@.len() as int) =~= moves@);
                assert forall|k: int| 0 <= k < moves@.len() implies #[trigger] moves@.take(k) =~= before.take(k) by {}
                assert forall|k: int| 0 <= k <= moves@.len() implies #[trigger] history@[k] == position_key(
                    plays(p0, moves@.take(k)),
                ) by {
                    if k < moves@.len() {
                        assert(moves@.take(k) =~= before.take(k));
                    }
                }
                assert forall|k: int| 0 <= k < moves@.len() implies gen_ok(plays(p0, moves@.take(k)), #[trigger] moves@[k], true)
                    && names_move(ws[rest + 1 + k], moves@[k]) by {
                    assert(moves@.take(k) =~= before.take(k) || k == before.len());
                    if k == before.len() {
                        assert(before.take(k) =~= before);
                    }
                }
            }
            i = i + 1;
        }
    }
    GameLine { board: scratch, moves, history }
}

/// A command of the Universal Chess Interface, as the engine acts on it.
pub enum Command {
    /// `uci`: identify the engine and its options.
    Uci,
    /// `isready`.
    IsReady,
    /// `ucinewgame`: clear the table and return to the starting position.
    NewGame,
    /// `setoption name Hash value <mb>`, with the size clamped to the
    /// allowed range.
    SetHash(usize),
    /// `setoption name Clear Hash`.
    ClearHash,
    /// `setoption name EvalFile value <choice>`.
    SetEvalFile(EvalChoice),
    /// `position ...`: the game it sets up, or `None` when the setup is not
    /// understood (any running search is stopped either way).
    Position(Option<GameLine>),
    /// `go ...`: search with these limits.
    Go(SearchLimits),
    /// `go ... perft <depth>`.
    GoPerft(u32),
    /// `stop`.
    Stop,
    /// `d` or `print`: show the board.
    Display,
    /// `perft <depth>`.
    Perft(u32),
    /// `quit`.
    Quit,
    /// Anything else, including empty lines and commands with bad arguments.
    Ignore,
}

/// The evaluation that `setoption name EvalFile` selects.
pub enum EvalChoice {
    /// `<default>` or no value: the built-in evaluation.
    BuiltIn,
    /// `<none>`: the hand-crafted evaluation.
    HandCrafted,
    /// A network file, by its path.
    File(String),
}

/// Words joined by single spaces.
pub open spec fn join_words(ws: Seq<Seq<u8>>) -> Seq<u8>
    decreases ws.len(),
{
    if ws.len() == 0 {
        Seq::empty()
    } else if ws.len() == 1 {
        ws[0]
    } else {
        join_words(ws.drop_last()) + seq![32u8] + ws.last()
    }
}

/// How the value of `setoption name EvalFile` reads.
pub open spec fn eval_choice_reads_as(value: Seq<Seq<u8>>, c: Command) -> bool {
    if value.len() == 0 || (value.len() == 1 && is_word(value[0], "<default>")) {
        c matches Command::SetEvalFile(EvalChoice::BuiltIn)
    } else if value.len() == 1 && is_word(value[0], "<none>") {
        c matches Command::SetEvalFile(EvalChoice::HandCrafted)
    } else {
        c matches Command::SetEvalFile(EvalChoice::File(path)) && (all_ascii(join_words(value)) ==> path@
            == ascii_chars(join_words(value)))
    }
}

/// The smallest transposition table, in megabytes.
pub const MIN_HASH_MB: usize = 1;
/// The largest transposition table, in megabytes.
pub const MAX_HASH_MB: usize = 4096;

/// A hash size clamped to the allowed range.
pub open spec fn clamp_hash(mb: nat) -> usize {
    if mb < MIN_HASH_MB {
        MIN_HASH_MB
    } else if mb > MAX_HASH_MB {
        MAX_HASH_MB
    } else {
        mb as usize
    }
}

/// How `setoption` reads: the option's name is the words between `name` and
/// `value`, its value the words after `value`.
pub open spec fn option_reads_as(ws: Seq<Seq<u8>>, c: Command) -> bool {
    if ws.len() < 2 || !is_word(ws[1], "name") {
        c is Ignore
    } else {
        let v = find_word(ws, 2, "value");
        let name = ws.subrange(2, v);
        let value = if v < ws.len() {
            ws.subrange(v + 1, ws.len() as int)
        } else {
            Seq::empty()
        };
        if name.len() == 1 && is_word(name[0], "Hash") {
            if value.len() == 1 && parse_unsigned(value[0], usize::MAX as nat) is Some {
                c == Command::SetHash(clamp_hash(parse_unsigned(value[0], usize::MAX as nat).unwrap()))
            } else {
                c is Ignore
            }
        } else if name.len() == 2 && is_word(name[0], "Clear") && is_word(name[1], "Hash") {
            c is ClearHash
        } else if name.len() == 1 && is_word(name[0], "EvalFile") {
            eval_choice_reads_as(value, c)
        } else {
            c is Ignore
        }
    }
}

/// How `go` reads: `perft` with a depth after it anywhere runs perft,
/// otherwise the words are search limits.
pub open spec fn go_reads_as(ws: Seq<Seq<u8>>, c: Command) -> bool {
    let p = find_word(ws, 1, "perft");
    if p < ws.len() {
        match number_after(ws, p, u32::MAX as nat) {
            Some(d) => c == Command::GoPerft(d as u32),
            None => c is Ignore,
        }
    } else {
        c == Command::Go(limits_from(ws, 1, no_limits()))
    }
}

/// How `position` reads.
pub open spec fn position_reads_as(ws: Seq<Seq<u8>>, c: Command) -> bool {
    match setup_of(ws) {
        None => c matches Command::Position(None),
        Some((p, rest)) => c matches Command::Position(Some(line)) && follows(ws, p, rest, line),
    }
}

/// The command that a line of words is.
pub open spec fn reads_as(ws: Seq<Seq<u8>>, c: Command) -> bool {
    if ws.len() == 0 {
        c is Ignore
    } else if is_word(ws[0], "uci") {
        c is Uci
    } else if is_word(ws[0], "isready") {
        c is IsReady
    } else if is_word(ws[0], "ucinewgame") {
        c is NewGame
    } else if is_word(ws[0], "setoption") {
        option_reads_as(ws, c)
    } else if is_word(ws[0], "position") {
        position_reads_as(ws, c)
    } else if is_word(ws[0], "go") {
        go_reads_as(ws, c)
    } else if is_word(ws[0], "stop") {
        c is Stop
    } else if is_word(ws[0], "d") || is_word(ws[0], "print") {
        c is Display
    } else if is_word(ws[0], "perft") {
        match number_after(ws, 0, u32::MAX as nat) {
            Some(d) => c == Command::Perft(d as u32),
            None => c is Ignore,
        }
    } else if is_word(ws[0], "quit") {
        c is Quit
    } else {
        c is Ignore
    }
}

fn parse_setoption(b: &[u8], w: &Vec<(usize, usize)>) -> (r: Command)
    requires
        spans_in(b@, w@),
        w@.len() >= 1,
    ensures
        option_reads_as(spans(b@, w@), r),
{
    let ghost ws = spans(b@, w@);
    let n = w.len();
    if n < 2 || !word_at(b, w, 1, "name") {
        return Command::Ignore;
    }
    let v = find_word_at(b, w, 2, "value");
    proof {
        lemma_find_word(ws, 2, "value");
    }
    let name_len = v - 2;
    let value_len: usize = if v < n {
        n - v - 1
    } else {
        0
    };
    let ghost name = ws.subrange(2, v as int);
    let ghost value = if v < ws.len() {
        ws.subrange(v + 1, ws.len() as int)
    } else {
        Seq::empty()
    };
    assert(name.len() == name_len);
    assert(value.len() == value_len);
    if name_len == 1 && word_at(b, w, 2, "Hash") {
        assert(name[0] == ws[2]);
        if value_len == 1 {
            assert(value[0] == ws[v + 1]);
            assert(w@[v + 1].0 <= w@[v + 1].1 <= b@.len());
            match parse_unsigned_bytes(slice_range(b, w[v + 1].0, w[v + 1].1), usize::MAX as u64) {
                Some(mb) => {
                    let size: usize = if mb < MIN_HASH_MB as u64 {
                        MIN_HASH_MB
                    } else if mb > MAX_HASH_MB as u64 {
                        MAX_HASH_MB
                    } else {
                        mb as usize
                    };
                    return Command::SetHash(size);
                },
                None => {
                    return Command::Ignore;
                },
            }
        }
        return Command::Ignore;
    }
    if name_len == 2 && word_at(b, w, 2, "Clear") && word_at(b, w, 3, "Hash") {
        assert(name[0] == ws[2] && name[1] == ws[3]);
        return Command::ClearHash;
    }
    if name_len == 1 && word_at(b, w, 2, "EvalFile") {
        assert(name[0] == ws[2]);
        if v + 1 >= n {
            assert(value.len() == 0);
            return Command::SetEvalFile(EvalChoice::BuiltIn);
        }
        assert(value =~= ws.subrange(v + 1, n as int));
        return eval_choice(b, w, v + 1);
    }
    proof {
        if name.len() == 1 {
            assert(name[0] == ws[2]);
        }
        if name.len() == 2 {
            assert(name[0] == ws[2] && name[1] == ws[3]);
        }
    }
    Command::Ignore
}

/// The words of `b` from `start` on, joined by single spaces.
fn join_from(b: &[u8], w: &Vec<(usize, usize)>, start: usize) -> (r: Vec<u8>)
    requires
        spans_in(b@, w@),
        start <= w@.len(),
    ensures
        r@ == join_words(spans(b@, w@).subrange(start as int, w@.len() as int)),
{
    let ghost ws = spans(b@, w@);
    let mut out: Vec<u8> = Vec::new();
    let mut k = start;
    assert(ws.subrange(start as int, start as int) =~= Seq::<Seq<u8>>::empty());
    while k < w.len()
        invariant
            ws == spans(b@, w@),
            spans_in(b@, w@),
            start <= k <= w@.len(),
            out@ == join_words(ws.subrange(start as int, k as int)),
        decreases w@.len() - k,
    {
        if k > start {
            out.push(32);
        }
        assert(w@[k as int].0 <= w@[k as int].1 <= b@.len());
        let t = slice_range(b, w[k].0, w[k].1);
        let ghost before = out@;
        let mut j: usize = 0;
        while j < t.len()
            invariant
                j <= t@.len(),
                out@ == before + t@.subrange(0, j as int),
            decreases t@.len() - j,
        {
            out.push(t[j]);
            j = j + 1;
            assert(out@ =~= before + t@.subrange(0, j as int));
        }
        assert(t@.subrange(0, t@.len() as int) =~= t@);
        let ghost sub = ws.subrange(start as int, k + 1);
        assert(sub.drop_last() =~= ws.subrange(start as int, k as int));
        assert(sub.last() == ws[k as int]);
        k = k + 1;
        assert(out@ =~= join_words(ws.subrange(start as int, k as int)));
    }
    out
}

/// The evaluation chosen by the value words of `setoption name EvalFile`,
/// from word `start` on (at least one word).
fn eval_choice(b: &[u8], w: &Vec<(usize, usize)>, start: usize) -> (r: Command)
    requires
        spans_in(b@, w@),
        start < w@.len(),
    ensures
        eval_choice_reads_as(spans(b@, w@).subrange(start as int, w@.len() as int), r),
{
    let ghost ws = spans(b@, w@);
    let ghost value = ws.subrange(start as int, w@.len() as int);
    let n = w.len();
    if start + 1 == n {
        assert(value[0] == ws[start as int]);
        if word_at(b, w, start, "<default>") {
            return Command::SetEvalFile(EvalChoice::BuiltIn);
        }
        if word_at(b, w, start, "<none>") {
            return Command::SetEvalFile(EvalChoice::HandCrafted);
        }
    }
    let bytes = join_from(b, w, start);
    let path = lossy_string(bytes.as_slice());
    Command::SetEvalFile(EvalChoice::File(path))
}

fn parse_position(b: &[u8], w: &Vec<(usize, usize)>) -> (r: Command)
    requires
        spans_in(b@, w@),
        w@.len() >= 1,
    ensures
        position_reads_as(spans(b@, w@), r),
{
    let ghost ws = spans(b@, w@);
    let n = w.len();
    if n < 2 {
        return Command::Position(None);
    }
    if word_at(b, w, 1, "startpos") {
        let board = Board::startpos();
        return Command::Position(Some(play_moves(b, w, 2, board)));
    }
    if word_at(b, w, 1, "fen") {
        let end = find_word_at(b, w, 2, "moves");
        return match Board::from_fen_fields(b, w, 2, end) {
            Ok(board) => Command::Position(Some(play_moves(b, w, end, board))),
            Err(_) => Command::Position(None),
        };
    }
    Command::Position(None)
}

fn parse_go(b: &[u8], w: &Vec<(usize, usize)>) -> (r: Command)
    requires
        spans_in(b@, w@),
        w@.len() >= 1,
    ensures
        go_reads_as(spans(b@, w@), r),
{
    let p = find_word_at(b, w, 1, "perft");
    if p < w.len() {
        return match u32_after(b, w, p) {
            Some(d) => Command::GoPerft(d),
            None => Command::Ignore,
        };
    }
    Command::Go(parse_limits(b, w, 1))
}

/// Read one line of input as a command.
pub fn parse_command(line: &str) -> (r: Command)
    ensures
        reads_as(words(line.spec_bytes()), r),
{
    let b = line.as_bytes();
    let w = split_words(b);
    let ghost ws = spans(b@, w@);
    assert(ws == words(b@));
    if w.len() == 0 {
        return Command::Ignore;
    }
    if word_at(b, &w, 0, "uci") {
        Command::Uci
    } else if word_at(b, &w, 0, "isready") {
        Command::IsReady
    } else if word_at(b, &w, 0, "ucinewgame") {
        Command::NewGame
    } else if word_at(b, &w, 0, "setoption") {
        parse_setoption(b, &w)
    } else if word_at(b, &w, 0, "position") {
        parse_position(b, &w)
    } else if word_at(b, &w, 0, "go") {
        parse_go(b, &w)
    } else if word_at(b, &w, 0, "stop") {
        Command::Stop
    } else if word_at(b, &w, 0, "d") || word_at(b, &w, 0, "print") {
        Command::Display
    } else if word_at(b, &w, 0, "perft") {
        match u32_after(b, &w, 0) {
            Some(d) => Command::Perft(d),
            None => Command::Ignore,
        }
    } else if word_at(b, &w, 0, "quit") {
        Command::Quit
    } else {
        Command::Ignore
    }
}

} // verus!
