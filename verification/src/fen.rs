//! Forsyth-Edwards Notation: the grammar of a FEN record as spec functions
//! over its bytes, and the parser and printer for [`Board`].
//!
//! A FEN record is a list of whitespace-separated fields: piece placement,
//! side to move, castling rights, en-passant square, and the optional
//! halfmove clock and fullmove number (defaulting to 0 and 1). Extra fields
//! are ignored.

use vstd::prelude::*;
use crate::board::Board;
use crate::position::Position;
use crate::text::{all_ascii, ascii_chars, ascii_string, lossy_string};
use crate::types::{CastlingRights, Color, Piece, Square};

verus! {

use vstd::string::StringSliceAdditionalSpecFns;

/// ASCII whitespace: space, tab, line feed, vertical tab, form feed, return.
pub open spec fn is_ws(c: u8) -> bool {
    c == 32 || (9 <= c <= 13)
}

/// The first index at or after `i` that is not whitespace.
pub open spec fn skip_ws(b: Seq<u8>, i: int) -> int
    decreases b.len() - i,
{
    if 0 <= i < b.len() && is_ws(b[i]) {
        skip_ws(b, i + 1)
    } else {
        i
    }
}

/// The first index at or after `i` that is whitespace (or the end).
pub open spec fn skip_word(b: Seq<u8>, i: int) -> int
    decreases b.len() - i,
{
    if 0 <= i < b.len() && !is_ws(b[i]) {
        skip_word(b, i + 1)
    } else {
        i
    }
}

pub proof fn lemma_skip_bounds(b: Seq<u8>, i: int)
    requires
        0 <= i,
    ensures
        i <= skip_ws(b, i),
        i <= skip_word(b, i),
        i <= b.len() ==> skip_ws(b, i) <= b.len(),
        i <= b.len() ==> skip_word(b, i) <= b.len(),
        i < b.len() && !is_ws(b[i]) ==> skip_word(b, i) > i,
        skip_ws(b, i) < b.len() ==> !is_ws(b[skip_ws(b, i)]),
        forall|j: int| i <= j < skip_ws(b, i) ==> is_ws(#[trigger] b[j]),
        forall|j: int| i <= j < skip_word(b, i) ==> !is_ws(#[trigger] b[j]),
    decreases b.len() - i,
{
    if 0 <= i < b.len() {
        lemma_skip_bounds(b, i + 1);
    }
}

/// The whitespace-separated words of `b` from index `i` on.
pub open spec fn words_from(b: Seq<u8>, i: int) -> Seq<Seq<u8>>
    decreases b.len() - i,
{
    if i < 0 {
        Seq::empty()
    } else {
        let s = skip_ws(b, i);
        if s >= b.len() {
            Seq::empty()
        } else {
            let e = skip_word(b, s);
            proof {
                lemma_skip_bounds(b, i);
                lemma_skip_bounds(b, s);
            }
            seq![b.subrange(s, e)] + words_from(b, e)
        }
    }
}

/// The whitespace-separated words of `b`.
pub open spec fn words(b: Seq<u8>) -> Seq<Seq<u8>> {
    words_from(b, 0)
}

/// A failure to parse the piece-placement field.
pub enum PlacementError {
    /// The field does not have eight ranks.
    RankCount,
    /// A character that is neither a digit nor a piece letter.
    BadChar(u8),
    /// A piece placed beyond the h-file.
    TooLong,
    /// A rank that does not span exactly eight files.
    WrongLength,
}

/// Number of `/` separators in `t`.
pub open spec fn slash_count(t: Seq<u8>) -> nat
    decreases t.len(),
{
    if t.len() == 0 {
        0
    } else {
        slash_count(t.drop_last()) + if t.last() == 47u8 { 1nat } else { 0nat }
    }
}

/// Parse the placement bytes from index `i`, on rank `rank` at file `file`
/// (files past the h-file are all counted as 9), with `sq` placed so far.
/// Ranks are separated by `/` and listed from rank 8 down; a digit skips that
/// many files, a piece letter places that piece.
pub open spec fn place_from(
    t: Seq<u8>,
    i: int,
    rank: int,
    file: int,
    sq: Seq<Option<Piece>>,
) -> Result<Seq<Option<Piece>>, PlacementError>
    decreases t.len() - i,
{
    if i >= t.len() || i < 0 {
        if file != 8 {
            Err(PlacementError::WrongLength)
        } else {
            Ok(sq)
        }
    } else {
        let c = t[i];
        if c == 47 {
            if file != 8 {
                Err(PlacementError::WrongLength)
            } else {
                place_from(t, i + 1, rank - 1, 0, sq)
            }
        } else if 48 <= c <= 57 {
            let nf = file + (c - 48);
            place_from(t, i + 1, rank, if nf > 9 { 9 } else { nf }, sq)
        } else {
            match Piece::spec_from_char(c as char) {
                None => Err(PlacementError::BadChar(c)),
                Some(p) => if file >= 8 {
                    Err(PlacementError::TooLong)
                } else {
                    place_from(t, i + 1, rank, file + 1, sq.update(rank * 8 + file, Some(p)))
                },
            }
        }
    }
}

/// The squares described by a piece-placement field.
pub open spec fn parse_placement(t: Seq<u8>) -> Result<Seq<Option<Piece>>, PlacementError> {
    if slash_count(t) != 7 {
        Err(PlacementError::RankCount)
    } else {
        place_from(t, 0, 7, 0, Seq::new(64, |i: int| None::<Piece>))
    }
}

/// The castling bits named by the castling field from index `i` on, or the
/// first byte that names none.
pub open spec fn castling_from(t: Seq<u8>, i: int, acc: u8) -> Result<u8, u8>
    decreases t.len() - i,
{
    if i >= t.len() || i < 0 {
        Ok(acc)
    } else {
        let c = t[i];
        let bit: u8 = if c == 75 {
            1
        } else if c == 81 {
            2
        } else if c == 107 {
            4
        } else if c == 113 {
            8
        } else {
            0
        };
        if bit == 0 {
            Err(c)
        } else {
            castling_from(t, i + 1, acc | bit)
        }
    }
}

/// The castling rights of a castling field (`-` for none).
pub open spec fn parse_castling(t: Seq<u8>) -> Result<u8, u8> {
    if t == seq![45u8] {
        Ok(0)
    } else {
        castling_from(t, 0, 0)
    }
}

/// The value of a string of decimal digits.
pub open spec fn digits_value(d: Seq<u8>) -> nat
    decreases d.len(),
{
    if d.len() == 0 {
        0
    } else {
        digits_value(d.drop_last()) * 10 + (d.last() - 48) as nat
    }
}

pub open spec fn all_digits(d: Seq<u8>) -> bool {
    forall|i: int| 0 <= i < d.len() ==> 48 <= #[trigger] d[i] <= 57
}

/// A decimal `u16` as Rust's `u16::from_str` reads it: an optional `+`, then
/// one or more digits, with a value that fits.
pub open spec fn parse_u16(t: Seq<u8>) -> Option<u16> {
    let d = if t.len() > 0 && t[0] == 43 {
        t.subrange(1, t.len() as int)
    } else {
        t
    };
    if d.len() > 0 && all_digits(d) && digits_value(d) <= 65535 {
        Some(digits_value(d) as u16)
    } else {
        None
    }
}

/// Why a FEN record was rejected, with the offending field.
pub enum FenFailure {
    MissingField(int),
    Placement(PlacementError),
    SideToMove(Seq<u8>),
    Castling(u8),
    EnPassant(Seq<u8>),
    Number(int, Seq<u8>),
}

/// The position a FEN record describes, or why it is rejected.
pub open spec fn parse_fen(b: Seq<u8>) -> Result<Position, FenFailure> {
    fen_from_words(words(b))
}

/// The position described by the fields of a FEN record, or why they are
/// rejected.
pub open spec fn fen_from_words(w: Seq<Seq<u8>>) -> Result<Position, FenFailure> {
    if w.len() < 4 {
        Err(FenFailure::MissingField(w.len() as int))
    } else {
        match parse_placement(w[0]) {
            Err(e) => Err(FenFailure::Placement(e)),
            Ok(squares) => if w[1] != seq![119u8] && w[1] != seq![98u8] {
                Err(FenFailure::SideToMove(w[1]))
            } else {
                match parse_castling(w[2]) {
                    Err(c) => Err(FenFailure::Castling(c)),
                    Ok(castling) => if w[3] != seq![45u8] && Square::spec_from_uci_bytes(w[3]) is None {
                        Err(FenFailure::EnPassant(w[3]))
                    } else if w.len() > 4 && parse_u16(w[4]) is None {
                        Err(FenFailure::Number(4, w[4]))
                    } else if w.len() > 5 && parse_u16(w[5]) is None {
                        Err(FenFailure::Number(5, w[5]))
                    } else {
                        Ok(
                            Position {
                                squares,
                                stm: if w[1] == seq![119u8] {
                                    Color::White
                                } else {
                                    Color::Black
                                },
                                castling,
                                ep: if w[3] == seq![45u8] {
                                    None
                                } else {
                                    Square::spec_from_uci_bytes(w[3])
                                },
                                halfmove: if w.len() > 4 {
                                    parse_u16(w[4]).unwrap()
                                } else {
                                    0
                                },
                                fullmove: if w.len() > 5 {
                                    parse_u16(w[5]).unwrap()
                                } else {
                                    1
                                },
                            },
                        )
                    }
                }
            }
        }
    }
}


fn is_ws_byte(c: u8) -> (r: bool)
    ensures
        r == is_ws(c),
{
    c == 32 || (9 <= c && c <= 13)
}

/// The bounds of the next word at or after `i`.
pub(crate) fn next_word(b: &[u8], i: usize) -> (r: (usize, usize))
    requires
        i <= b@.len(),
    ensures
        r.0 == skip_ws(b@, i as int),
        r.1 == skip_word(b@, r.0 as int),
        i <= r.0 <= r.1 <= b@.len(),
{
    let mut s = i;
    while s < b.len() && is_ws_byte(b[s])
        invariant
            i <= s <= b@.len(),
            skip_ws(b@, s as int) == skip_ws(b@, i as int),
        decreases b@.len() - s,
    {
        s = s + 1;
    }
    let mut e = s;
    while e < b.len() && !is_ws_byte(b[e])
        invariant
            s <= e <= b@.len(),
            skip_word(b@, e as int) == skip_word(b@, s as int),
        decreases b@.len() - e,
    {
        e = e + 1;
    }
    (s, e)
}

/// The words spelled by a list of byte ranges of `b`.
pub open spec fn spans(b: Seq<u8>, r: Seq<(usize, usize)>) -> Seq<Seq<u8>> {
    Seq::new(r.len(), |k: int| b.subrange(r[k].0 as int, r[k].1 as int))
}

/// Every range lies within `b`.
pub open spec fn spans_in(b: Seq<u8>, r: Seq<(usize, usize)>) -> bool {
    forall|k: int| 0 <= k < r.len() ==> #[trigger] r[k].0 <= r[k].1 && r[k].1 <= b.len()
}

/// The byte ranges of the whitespace-separated words of `b`.
pub(crate) fn split_words(b: &[u8]) -> (r: Vec<(usize, usize)>)
    ensures
        spans(b@, r@) == words(b@),
        spans_in(b@, r@),
{
    let mut r: Vec<(usize, usize)> = Vec::new();
    let mut i: usize = 0;
    while i < b.len()
        invariant
            i <= b@.len(),
            spans(b@, r@) + words_from(b@, i as int) == words(b@),
            spans_in(b@, r@),
        decreases b@.len() - i,
    {
        let (s, e) = next_word(b, i);
        proof {
            lemma_skip_bounds(b@, i as int);
            lemma_skip_bounds(b@, s as int);
        }
        if s >= b.len() {
            assert(words_from(b@, i as int) == Seq::<Seq<u8>>::empty());
            assert(words_from(b@, b@.len() as int) == Seq::<Seq<u8>>::empty());
            i = b.len();
        } else {
            let ghost old_r = r@;
            r.push((s, e));
            assert(spans(b@, r@) =~= spans(b@, old_r) + seq![b@.subrange(s as int, e as int)]);
            assert(words_from(b@, i as int) == seq![b@.subrange(s as int, e as int)] + words_from(b@, e as int));
            assert(spans(b@, r@) + words_from(b@, e as int) =~= spans(b@, old_r) + words_from(b@, i as int));
            assert forall|k: int| 0 <= k < r@.len() implies #[trigger] r@[k].0 <= r@[k].1 && r@[k].1 <= b@.len() by {
                if k < old_r.len() {
                    assert(r@[k] == old_r[k]);
                }
            }
            i = e;
        }
    }
    proof {
        lemma_skip_bounds(b@, i as int);
        assert(words_from(b@, i as int) == Seq::<Seq<u8>>::empty());
    }
    assert(spans(b@, r@) =~= spans(b@, r@) + Seq::<Seq<u8>>::empty());
    r
}

proof fn lemma_slash_prefix(t: Seq<u8>, j: int)
    requires
        0 <= j <= t.len(),
    ensures
        slash_count(t.subrange(0, j)) <= slash_count(t),
    decreases t.len(),
{
    if j < t.len() {
        lemma_slash_prefix(t.drop_last(), j);
        assert(t.drop_last().subrange(0, j) =~= t.subrange(0, j));
    } else {
        assert(t.subrange(0, j) =~= t);
    }
}

fn count_slashes(t: &[u8]) -> (r: usize)
    ensures
        r == slash_count(t@),
{
    let mut n: usize = 0;
    let mut i: usize = 0;
    while i < t.len()
        invariant
            i <= t@.len(),
            n == slash_count(t@.subrange(0, i as int)),
            n <= i,
        decreases t@.len() - i,
    {
        assert(t@.subrange(0, i + 1).drop_last() =~= t@.subrange(0, i as int));
        if t[i] == 47 {
            n = n + 1;
        }
        i = i + 1;
    }
    assert(t@.subrange(0, t@.len() as int) =~= t@);
    n
}

/// Squares on ranks below `rank`, or on `rank` at or beyond `file`, are empty.
pub open spec fn untouched(sq: Seq<Option<Piece>>, rank: int, file: int) -> bool {
    forall|j: int| 0 <= j < 64 && (j / 8 < rank || (j / 8 == rank && j % 8 >= file)) ==> #[trigger] sq[j] is None
}

/// Place the pieces of a placement field with seven separators onto an
/// empty board.
fn place_pieces(board: &mut Board, t: &[u8]) -> (r: Result<(), PlacementError>)
    requires
        old(board).wf(),
        old(board)@.squares == Seq::new(64, |i: int| None::<Piece>),
        slash_count(t@) == 7,
    ensures
        final(board).wf(),
        Board::same_game_state(old(board)@, final(board)@),
        match place_from(t@, 0, 7, 0, Seq::new(64, |i: int| None::<Piece>)) {
            Ok(sq) => r is Ok && final(board)@.squares == sq,
            Err(e) => r == Err::<(), PlacementError>(e),
        },
{
    let ghost target = place_from(t@, 0, 7, 0, Seq::new(64, |i: int| None::<Piece>));
    let ghost start = board@;
    let mut i: usize = 0;
    let mut rank: i32 = 7;
    let mut file: u8 = 0;
    assert(t@.subrange(0, 0) =~= Seq::<u8>::empty());
    while i < t.len()
        invariant
            i <= t@.len(),
            board.wf(),
            start == old(board)@,
            target == place_from(t@, 0, 7, 0, Seq::new(64, |i: int| None::<Piece>)),
            Board::same_game_state(start, board@),
            slash_count(t@) == 7,
            rank == 7 - slash_count(t@.subrange(0, i as int)),
            0 <= rank <= 7,
            file <= 9,
            untouched(board@.squares, rank as int, file as int),
            place_from(t@, i as int, rank as int, file as int, board@.squares) == target,
        decreases t@.len() - i,
    {
        let c = t[i];
        proof {
            assert(t@.subrange(0, i + 1).drop_last() =~= t@.subrange(0, i as int));
            lemma_slash_prefix(t@, i + 1);
        }
        if c == 47 {
            if file != 8 {
                return Err(PlacementError::WrongLength);
            }
            proof {
                let sq = board@.squares;
                assert forall|j: int| 0 <= j < 64 && (j / 8 < rank - 1 || (j / 8 == rank - 1 && j % 8 >= 0))
                    implies #[trigger] sq[j] is None by {
                    assert(j / 8 < rank);
                }
            }
            rank = rank - 1;
            file = 0;
        } else if 48 <= c && c <= 57 {
            let nf = file + (c - 48);
            file = if nf > 9 {
                9
            } else {
                nf
            };
        } else {
            match Piece::from_char(c as char) {
                None => {
                    return Err(PlacementError::BadChar(c));
                },
                Some(p) => {
                    if file >= 8 {
                        return Err(PlacementError::TooLong);
                    }
                    let sq = Square((rank as u8) * 8 + file);
                    proof {
                        crate::attacks::lemma_fr(file as int, rank as int);
                        assert(sq.0 / 8 == rank && sq.0 % 8 == file);
                    }
                    let ghost before = board@.squares;
                    proof {
                        crate::board::lemma_wf(*board);
                    }
                    board.place_piece(p, sq);
                    proof {
                        let after = board@.squares;
                        assert forall|j: int| 0 <= j < 64 && (j / 8 < rank || (j / 8 == rank && j % 8 >= file + 1))
                            implies #[trigger] after[j] is None by {
                            assert(j != sq.0);
                            assert(after[j] == before[j]);
                        }
                    }
                    file = file + 1;
                },
            }
        }
        i = i + 1;
    }
    if file != 8 {
        return Err(PlacementError::WrongLength);
    }
    Ok(())
}

/// The castling bits of a castling field, or the first byte naming none.
fn castling_bits(t: &[u8]) -> (r: Result<u8, u8>)
    ensures
        r == parse_castling(t@),
        (r matches Ok(c) ==> c < 16),
{
    if t.len() == 1 && t[0] == 45 {
        assert(t@ =~= seq![45u8]);
        return Ok(0);
    }
    assert(t@ != seq![45u8]);
    let mut acc: u8 = 0;
    let mut i: usize = 0;
    while i < t.len()
        invariant
            i <= t@.len(),
            acc < 16,
            t@ != seq![45u8],
            castling_from(t@, i as int, acc) == castling_from(t@, 0, 0),
        decreases t@.len() - i,
    {
        let c = t[i];
        let bit: u8 = if c == 75 {
            1
        } else if c == 81 {
            2
        } else if c == 107 {
            4
        } else if c == 113 {
            8
        } else {
            0
        };
        if bit == 0 {
            return Err(c);
        }
        assert(acc | bit < 16) by (bit_vector)
            requires
                acc < 16,
                bit == 1 || bit == 2 || bit == 4 || bit == 8,
        ;
        acc = acc | bit;
        i = i + 1;
    }
    Ok(acc)
}

proof fn lemma_digits_step(t: Seq<u8>, start: int, i: int)
    requires
        0 <= start <= i < t.len(),
    ensures
        digits_value(t.subrange(start, i + 1)) == digits_value(t.subrange(start, i)) * 10 + (t[i]
            - 48) as nat,
{
    assert(t.subrange(start, i + 1).drop_last() =~= t.subrange(start, i));
}

/// A decimal `u16` field (see [`parse_u16`]).
fn parse_u16_bytes(t: &[u8]) -> (r: Option<u16>)
    ensures
        r == parse_u16(t@),
{
    let start: usize = if t.len() > 0 && t[0] == 43 {
        1
    } else {
        0
    };
    let ghost d = if t@.len() > 0 && t@[0] == 43 {
        t@.subrange(1, t@.len() as int)
    } else {
        t@
    };
    assert(d =~= t@.subrange(start as int, t@.len() as int));
    if start >= t.len() {
        return None;
    }
    let mut acc: u32 = 0;
    let mut i: usize = start;
    assert(t@.subrange(start as int, start as int) =~= Seq::<u8>::empty());
    while i < t.len()
        invariant
            start <= i <= t@.len(),
            d == t@.subrange(start as int, t@.len() as int),
            d == (if t@.len() > 0 && t@[0] == 43 {
                t@.subrange(1, t@.len() as int)
            } else {
                t@
            }),
            acc <= 65536,
            acc == (if digits_value(t@.subrange(start as int, i as int)) > 65536 {
                65536
            } else {
                digits_value(t@.subrange(start as int, i as int))
            }),
            all_digits(t@.subrange(start as int, i as int)),
        decreases t@.len() - i,
    {
        let c = t[i];
        if !(48 <= c && c <= 57) {
            assert(d[i - start] == c);
            assert(!all_digits(d));
            assert(parse_u16(t@) is None);
            return None;
        }
        proof {
            lemma_digits_step(t@, start as int, i as int);
        }
        let v = acc * 10 + (c - 48) as u32;
        acc = if v > 65536 {
            65536
        } else {
            v
        };
        assert(all_digits(t@.subrange(start as int, i + 1))) by {
            assert forall|k: int| 0 <= k < i + 1 - start implies 48 <= #[trigger] t@.subrange(
                start as int,
                i + 1,
            )[k] <= 57 by {
                if k < i - start {
                    assert(t@.subrange(start as int, i + 1)[k] == t@.subrange(start as int, i as int)[k]);
                }
            }
        }
        i = i + 1;
    }
    if acc > 65535 {
        None
    } else {
        Some(acc as u16)
    }
}

/// A decimal number no greater than `max`, as Rust's `from_str` reads an
/// unsigned integer: an optional `+`, then one or more digits.
pub open spec fn parse_unsigned(t: Seq<u8>, max: nat) -> Option<nat> {
    let d = if t.len() > 0 && t[0] == 43 {
        t.subrange(1, t.len() as int)
    } else {
        t
    };
    if d.len() > 0 && all_digits(d) && digits_value(d) <= max {
        Some(digits_value(d))
    } else {
        None
    }
}

/// Read a decimal number no greater than `max` (see [`parse_unsigned`]).
pub fn parse_unsigned_bytes(t: &[u8], max: u64) -> (r: Option<u64>)
    ensures
        r matches Some(v) ==> parse_unsigned(t@, max as nat) == Some(v as nat),
        r is None ==> parse_unsigned(t@, max as nat) is None,
{
    let start: usize = if t.len() > 0 && t[0] == 43 {
        1
    } else {
        0
    };
    let ghost d = if t@.len() > 0 && t@[0] == 43 {
        t@.subrange(1, t@.len() as int)
    } else {
        t@
    };
    assert(d =~= t@.subrange(start as int, t@.len() as int));
    if start >= t.len() {
        return None;
    }
    let cap: u128 = max as u128 + 1;
    let mut acc: u128 = 0;
    let mut i: usize = start;
    assert(t@.subrange(start as int, start as int) =~= Seq::<u8>::empty());
    while i < t.len()
        invariant
            start <= i <= t@.len(),
            d == t@.subrange(start as int, t@.len() as int),
            d == (if t@.len() > 0 && t@[0] == 43 {
                t@.subrange(1, t@.len() as int)
            } else {
                t@
            }),
            cap == max + 1,
            acc <= cap,
            acc == (if digits_value(t@.subrange(start as int, i as int)) > cap {
                cap as nat
            } else {
                digits_value(t@.subrange(start as int, i as int))
            }),
            all_digits(t@.subrange(start as int, i as int)),
        decreases t@.len() - i,
    {
        let c = t[i];
        if !(48 <= c && c <= 57) {
            assert(d[i - start] == c);
            assert(!all_digits(d));
            return None;
        }
        proof {
            lemma_digits_step(t@, start as int, i as int);
        }
        let v = acc * 10 + (c - 48) as u128;
        acc = if v > cap {
            cap
        } else {
            v
        };
        assert(all_digits(t@.subrange(start as int, i + 1))) by {
            assert forall|k: int| 0 <= k < i + 1 - start implies 48 <= #[trigger] t@.subrange(
                start as int,
                i + 1,
            )[k] <= 57 by {
                if k < i - start {
                    assert(t@.subrange(start as int, i + 1)[k] == t@.subrange(start as int, i as int)[k]);
                }
            }
        }
        i = i + 1;
    }
    if acc > max as u128 {
        None
    } else {
        Some(acc as u64)
    }
}

/// An error encountered while parsing FEN.
#[derive(Debug, Clone, PartialEq, Eq)]
pub enum FenError {
    /// A required field was absent.
    MissingField(&'static str),
    /// The piece-placement field was malformed.
    BadPlacement(String),
    /// The side-to-move field was not `w` or `b`.
    BadSideToMove(String),
    /// The castling field contained an unexpected character.
    BadCastling(String),
    /// The en-passant field was not `-` or a valid square.
    BadEnPassant(String),
    /// A numeric clock field could not be parsed.
    BadNumber(&'static str, String),
}

/// The name of the `n`-th FEN field.
pub open spec fn field_name(n: int) -> Seq<char> {
    if n == 0 {
        "piece placement"@
    } else if n == 1 {
        "side to move"@
    } else if n == 2 {
        "castling rights"@
    } else if n == 3 {
        "en passant"@
    } else if n == 4 {
        "halfmove clock"@
    } else {
        "fullmove number"@
    }
}

/// The message of a placement failure.
pub open spec fn placement_message(e: PlacementError) -> Seq<char> {
    match e {
        PlacementError::RankCount => "expected 8 ranks"@,
        PlacementError::BadChar(c) => seq!['\'', c as char, '\''],
        PlacementError::TooLong => "rank too long"@,
        PlacementError::WrongLength => "rank wrong length"@,
    }
}

/// The error reported for a failure. Fields are quoted back in the error when
/// they are ASCII; for other input the text of the quoted field is not stated.
pub open spec fn reports(e: FenError, f: FenFailure) -> bool {
    match f {
        FenFailure::MissingField(n) => e matches FenError::MissingField(s) && s@ == field_name(n),
        FenFailure::Placement(p) => e matches FenError::BadPlacement(s) && (p matches PlacementError::BadChar(c) && c >= 128 || s@ == placement_message(p)),
        FenFailure::SideToMove(t) => e matches FenError::BadSideToMove(s) && (all_ascii(t) ==> s@ == ascii_chars(t)),
        FenFailure::Castling(c) => e matches FenError::BadCastling(s) && (c < 128 ==> s@ == seq![c as char]),
        FenFailure::EnPassant(t) => e matches FenError::BadEnPassant(s) && (all_ascii(t) ==> s@ == ascii_chars(t)),
        FenFailure::Number(n, t) => e matches FenError::BadNumber(name, s) && name@ == field_name(n) && (all_ascii(t) ==> s@ == ascii_chars(t)),
    }
}


fn field_name_of(n: usize) -> (r: &'static str)
    ensures
        r@ == field_name(n as int),
{
    if n == 0 {
        "piece placement"
    } else if n == 1 {
        "side to move"
    } else if n == 2 {
        "castling rights"
    } else if n == 3 {
        "en passant"
    } else if n == 4 {
        "halfmove clock"
    } else {
        "fullmove number"
    }
}

fn placement_error(e: PlacementError) -> (r: FenError)
    ensures
        reports(r, FenFailure::Placement(e)),
{
    match e {
        PlacementError::RankCount => FenError::BadPlacement("expected 8 ranks".to_owned()),
        PlacementError::BadChar(c) => {
            if c < 128 {
                let mut v: Vec<u8> = Vec::new();
                v.push(39);
                v.push(c);
                v.push(39);
                let s = ascii_string(v);
                assert(s@ =~= seq!['\'', c as char, '\'']);
                FenError::BadPlacement(s)
            } else {
                let v: [u8; 3] = [39, c, 39];
                FenError::BadPlacement(lossy_string(v.as_slice()))
            }
        },
        PlacementError::TooLong => FenError::BadPlacement("rank too long".to_owned()),
        PlacementError::WrongLength => FenError::BadPlacement("rank wrong length".to_owned()),
    }
}

/// True if `t` is the single byte `c`.
fn is_single(t: &[u8], c: u8) -> (r: bool)
    ensures
        r == (t@ == seq![c]),
{
    if t.len() == 1 && t[0] == c {
        assert(t@ =~= seq![c]);
        true
    } else {
        proof {
            if t@ == seq![c] {
                assert(t@.len() == 1 && t@[0] == c);
            }
        }
        false
    }
}

impl Board {
    /// Parse a position from Forsyth-Edwards Notation. The halfmove and
    /// fullmove fields are optional and default to `0` and `1`.
    pub fn from_fen(fen: &str) -> (r: Result<Board, FenError>)
        ensures
            (parse_fen(fen.spec_bytes()) matches Ok(p) ==> (r matches Ok(board) && board.valid()
                && board@ == p)),
            (parse_fen(fen.spec_bytes()) matches Err(f) ==> (r matches Err(e) && reports(e, f))),
    {
        let b = fen.as_bytes();
        let w = split_words(b);
        assert(spans(b@, w@).subrange(0, w@.len() as int) =~= words(b@));
        Board::from_fen_fields(b, &w, 0, w.len())
    }

    /// Parse the FEN fields that are the words `w[lo..hi]` of `b`.
    pub(crate) fn from_fen_fields(b: &[u8], w: &Vec<(usize, usize)>, lo: usize, hi: usize) -> (r: Result<Board, FenError>)
        requires
            spans_in(b@, w@),
            lo <= hi <= w@.len(),
        ensures
            (fen_from_words(spans(b@, w@).subrange(lo as int, hi as int)) matches Ok(p) ==> (r matches Ok(board)
                && board.valid() && board@ == p)),
            (fen_from_words(spans(b@, w@).subrange(lo as int, hi as int)) matches Err(f) ==> (r matches Err(e)
                && reports(e, f))),
    {
        let ghost ws = spans(b@, w@).subrange(lo as int, hi as int);
        let n = hi - lo;
        assert(ws.len() == n);
        if n < 4 {
            return Err(FenError::MissingField(field_name_of(n)));
        }
        assert(ws[0] == b@.subrange(w@[lo as int].0 as int, w@[lo as int].1 as int));
        assert(ws[1] == b@.subrange(w@[lo + 1].0 as int, w@[lo + 1].1 as int));
        assert(ws[2] == b@.subrange(w@[lo + 2].0 as int, w@[lo + 2].1 as int));
        assert(ws[3] == b@.subrange(w@[lo + 3].0 as int, w@[lo + 3].1 as int));
        assert(w@[lo as int].0 <= w@[lo as int].1 <= b@.len());
        assert(w@[lo + 1].0 <= w@[lo + 1].1 <= b@.len());
        assert(w@[lo + 2].0 <= w@[lo + 2].1 <= b@.len());
        assert(w@[lo + 3].0 <= w@[lo + 3].1 <= b@.len());
        let t0 = slice_range(b, w[lo].0, w[lo].1);
        let t1 = slice_range(b, w[lo + 1].0, w[lo + 1].1);
        let t2 = slice_range(b, w[lo + 2].0, w[lo + 2].1);
        let t3 = slice_range(b, w[lo + 3].0, w[lo + 3].1);

        if count_slashes(t0) != 7 {
            return Err(placement_error(PlacementError::RankCount));
        }
        let mut board = Board::empty();
        match place_pieces(&mut board, t0) {
            Err(e) => {
                return Err(placement_error(e));
            },
            Ok(()) => {},
        }

        let stm = if is_single(t1, 119) {
            Color::White
        } else if is_single(t1, 98) {
            Color::Black
        } else {
            return Err(FenError::BadSideToMove(lossy_string(t1)));
        };

        let rights = match castling_bits(t2) {
            Ok(bits) => bits,
            Err(c) => {
                if c < 128 {
                    let mut v: Vec<u8> = Vec::new();
                    v.push(c);
                    let s = ascii_string(v);
                    assert(s@ =~= seq![c as char]);
                    return Err(FenError::BadCastling(s));
                } else {
                    let v: [u8; 1] = [c];
                    return Err(FenError::BadCastling(lossy_string(v.as_slice())));
                }
            },
        };

        let ep = if is_single(t3, 45) {
            None
        } else {
            match Square::from_uci_bytes(t3) {
                Some(sq) => Some(sq),
                None => {
                    return Err(FenError::BadEnPassant(lossy_string(t3)));
                },
            }
        };

        let halfmove = if n > 4 {
            assert(ws[4] == b@.subrange(w@[lo + 4].0 as int, w@[lo + 4].1 as int));
            assert(w@[lo + 4].0 <= w@[lo + 4].1 <= b@.len());
            let t4 = slice_range(b, w[lo + 4].0, w[lo + 4].1);
            match parse_u16_bytes(t4) {
                Some(v) => v,
                None => {
                    return Err(FenError::BadNumber(field_name_of(4), lossy_string(t4)));
                },
            }
        } else {
            0
        };
        let fullmove = if n > 5 {
            assert(ws[5] == b@.subrange(w@[lo + 5].0 as int, w@[lo + 5].1 as int));
            assert(w@[lo + 5].0 <= w@[lo + 5].1 <= b@.len());
            let t5 = slice_range(b, w[lo + 5].0, w[lo + 5].1);
            match parse_u16_bytes(t5) {
                Some(v) => v,
                None => {
                    return Err(FenError::BadNumber(field_name_of(5), lossy_string(t5)));
                },
            }
        } else {
            1
        };

        board.set_state(stm, CastlingRights(rights), ep, halfmove, fullmove);
        Ok(board)
    }
}

/// The bytes `b[s..e]`.
pub(crate) fn slice_range(b: &[u8], s: usize, e: usize) -> (r: &[u8])
    requires
        s <= e <= b@.len(),
    ensures
        r@ == b@.subrange(s as int, e as int),
{
    &b[s..e]
}


/// Decimal digits of `n` (no leading zeros).
pub open spec fn decimal(n: nat) -> Seq<u8>
    decreases n,
{
    if n < 10 {
        seq![(48 + n) as u8]
    } else {
        decimal(n / 10) + seq![(48 + n % 10) as u8]
    }
}

/// The digit for a count of empty squares, if any.
pub open spec fn empty_run(n: int) -> Seq<u8> {
    if n > 0 {
        seq![(48 + n) as u8]
    } else {
        Seq::empty()
    }
}

/// The placement text of rank `r` from file `f` on, after `run` empty squares.
pub open spec fn rank_text(sq: Seq<Option<Piece>>, r: int, f: int, run: int) -> Seq<u8>
    decreases 8 - f,
{
    if f >= 8 {
        empty_run(run)
    } else {
        match sq[r * 8 + f] {
            Some(p) => empty_run(run) + seq![p.spec_to_char() as u8] + rank_text(sq, r, f + 1, 0),
            None => rank_text(sq, r, f + 1, run + 1),
        }
    }
}

/// The placement text of ranks `r` down to 1, separated by `/`.
pub open spec fn ranks_text(sq: Seq<Option<Piece>>, r: int) -> Seq<u8>
    decreases r,
{
    if r < 0 {
        Seq::empty()
    } else if r == 0 {
        rank_text(sq, 0, 0, 0)
    } else {
        rank_text(sq, r, 0, 0) + seq![47u8] + ranks_text(sq, r - 1)
    }
}

/// The en-passant field.
pub open spec fn ep_text(ep: Option<Square>) -> Seq<u8> {
    match ep {
        Some(e) => e.spec_name(),
        None => seq![45u8],
    }
}

/// The FEN record of a position.
pub open spec fn fen_of(p: Position) -> Seq<u8> {
    ranks_text(p.squares, 7) + seq![32u8] + seq![
        if p.stm == Color::White {
            119u8
        } else {
            98u8
        },
    ] + seq![32u8] + CastlingRights(p.castling).spec_fen() + seq![32u8] + ep_text(p.ep) + seq![32u8]
        + decimal(p.halfmove as nat) + seq![32u8] + decimal(p.fullmove as nat)
}

/// Append the decimal digits of `n`.
fn push_decimal(out: &mut Vec<u8>, n: u16)
    ensures
        final(out)@ == old(out)@ + decimal(n as nat),
    decreases n,
{
    if n < 10 {
        out.push(48 + n as u8);
    } else {
        push_decimal(out, n / 10);
        out.push(48 + (n % 10) as u8);
    }
    assert(final(out)@ =~= old(out)@ + decimal(n as nat));
}

/// Append the digit for a run of empty squares, if any.
fn push_run(out: &mut Vec<u8>, run: u8)
    requires
        run <= 8,
    ensures
        final(out)@ == old(out)@ + empty_run(run as int),
{
    if run > 0 {
        out.push(48 + run);
    }
    assert(final(out)@ =~= old(out)@ + empty_run(run as int));
}

/// All text produced for a FEN record is ASCII.
proof fn lemma_decimal_ascii(n: nat)
    ensures
        all_ascii(decimal(n)),
    decreases n,
{
    if n >= 10 {
        lemma_decimal_ascii(n / 10);
    }
}

impl Board {
    /// Serialize the position to FEN bytes.
    pub fn fen_bytes(&self) -> (r: Vec<u8>)
        requires
            self.wf(),
        ensures
            r@ == fen_of(self@),
    {
        proof {
            crate::board::lemma_wf(*self);
        }
        let mut s: Vec<u8> = Vec::new();
        let mut rank: i8 = 7;
        while rank >= 0
            invariant
                -1 <= rank <= 7,
                self.wf(),
                self@.valid(),
                s@ + ranks_text(self@.squares, rank as int) == ranks_text(self@.squares, 7),
            decreases rank + 1,
        {
            let ghost before = s@;
            let mut run: u8 = 0;
            let mut file: u8 = 0;
            while file < 8
                invariant
                    0 <= rank <= 7,
                    file <= 8,
                    run <= file,
                    self@.valid(),
                    s@ + rank_text(self@.squares, rank as int, file as int, run as int) == before
                        + rank_text(self@.squares, rank as int, 0, 0),
                decreases 8 - file,
            {
                let sq = Square((rank as u8) * 8 + file);
                match self.piece_on(sq) {
                    Some(pc) => {
                        let ghost s0 = s@;
                        push_run(&mut s, run);
                        s.push(pc.to_char() as u8);
                        assert(s@ + rank_text(self@.squares, rank as int, file + 1, 0) =~= s0
                            + rank_text(self@.squares, rank as int, file as int, run as int));
                        run = 0;
                    },
                    None => {
                        run = run + 1;
                    },
                }
                file = file + 1;
            }
            push_run(&mut s, run);
            assert(s@ =~= before + rank_text(self@.squares, rank as int, 0, 0));
            if rank > 0 {
                s.push(47);
                assert(s@ + ranks_text(self@.squares, rank - 1) =~= before + ranks_text(
                    self@.squares,
                    rank as int,
                ));
            } else {
                assert(s@ + ranks_text(self@.squares, rank - 1) =~= before + ranks_text(
                    self@.squares,
                    rank as int,
                ));
            }
            rank = rank - 1;
        }
        assert(s@ =~= ranks_text(self@.squares, 7));
        s.push(32);
        s.push(
            if self.side_to_move() == Color::White {
                119
            } else {
                98
            },
        );
        s.push(32);
        self.castling_rights().push_fen(&mut s);
        s.push(32);
        match self.en_passant() {
            Some(e) => {
                let n = e.name_bytes();
                s.push(n[0]);
                s.push(n[1]);
            },
            None => {
                s.push(45);
            },
        }
        s.push(32);
        push_decimal(&mut s, self.halfmove_clock());
        s.push(32);
        push_decimal(&mut s, self.fullmove_number());
        assert(s@ =~= fen_of(self@));
        s
    }
}


pub proof fn lemma_ascii_concat(a: Seq<u8>, b: Seq<u8>)
    requires
        all_ascii(a),
        all_ascii(b),
    ensures
        all_ascii(a + b),
{
    assert forall|i: int| 0 <= i < (a + b).len() implies #[trigger] (a + b)[i] < 128 by {
        if i < a.len() {
            assert((a + b)[i] == a[i]);
        } else {
            assert((a + b)[i] == b[i - a.len()]);
        }
    }
}

proof fn lemma_rank_text_ascii(sq: Seq<Option<Piece>>, r: int, f: int, run: int)
    requires
        0 <= run <= 8,
        0 <= f,
        run <= f,
    ensures
        all_ascii(rank_text(sq, r, f, run)),
    decreases 8 - f,
{
    if f < 8 {
        match sq[r * 8 + f] {
            Some(p) => {
                lemma_rank_text_ascii(sq, r, f + 1, 0);
                let c = p.spec_to_char();
                assert(all_ascii(seq![c as u8]));
                lemma_ascii_concat(empty_run(run), seq![c as u8]);
                lemma_ascii_concat(empty_run(run) + seq![c as u8], rank_text(sq, r, f + 1, 0));
            },
            None => {
                lemma_rank_text_ascii(sq, r, f + 1, run + 1);
            },
        }
    }
}

proof fn lemma_ranks_text_ascii(sq: Seq<Option<Piece>>, r: int)
    ensures
        all_ascii(ranks_text(sq, r)),
    decreases r,
{
    if r == 0 {
        lemma_rank_text_ascii(sq, 0, 0, 0);
    } else if r > 0 {
        lemma_rank_text_ascii(sq, r, 0, 0);
        lemma_ranks_text_ascii(sq, r - 1);
        lemma_ascii_concat(rank_text(sq, r, 0, 0), seq![47u8]);
        lemma_ascii_concat(rank_text(sq, r, 0, 0) + seq![47u8], ranks_text(sq, r - 1));
    }
}

/// A FEN record is ASCII text.
pub proof fn lemma_fen_ascii(p: Position)
    requires
        p.valid(),
    ensures
        all_ascii(fen_of(p)),
{
    lemma_ranks_text_ascii(p.squares, 7);
    lemma_decimal_ascii(p.halfmove as nat);
    lemma_decimal_ascii(p.fullmove as nat);
    let side = seq![
        if p.stm == Color::White {
            119u8
        } else {
            98u8
        },
    ];
    let sp = seq![32u8];
    let c = CastlingRights(p.castling).spec_fen();
    assert(all_ascii(c));
    assert(all_ascii(ep_text(p.ep)));
    let a1 = ranks_text(p.squares, 7) + sp;
    lemma_ascii_concat(ranks_text(p.squares, 7), sp);
    lemma_ascii_concat(a1, side);
    lemma_ascii_concat(a1 + side, sp);
    lemma_ascii_concat(a1 + side + sp, c);
    lemma_ascii_concat(a1 + side + sp + c, sp);
    lemma_ascii_concat(a1 + side + sp + c + sp, ep_text(p.ep));
    lemma_ascii_concat(a1 + side + sp + c + sp + ep_text(p.ep), sp);
    lemma_ascii_concat(a1 + side + sp + c + sp + ep_text(p.ep) + sp, decimal(p.halfmove as nat));
    lemma_ascii_concat(a1 + side + sp + c + sp + ep_text(p.ep) + sp + decimal(p.halfmove as nat), sp);
    lemma_ascii_concat(
        a1 + side + sp + c + sp + ep_text(p.ep) + sp + decimal(p.halfmove as nat) + sp,
        decimal(p.fullmove as nat),
    );
}

impl Board {
    /// Serialize the position to FEN.
    pub fn to_fen(&self) -> (r: String)
        requires
            self.wf(),
        ensures
            r@ == ascii_chars(fen_of(self@)),
    {
        proof {
            crate::board::lemma_wf(*self);
            lemma_fen_ascii(self@);
        }
        ascii_string(self.fen_bytes())
    }
}

} // verus!
