//! Reading back what was written: parsing the FEN record of a position gives
//! the position back.

use vstd::prelude::*;
use crate::fen::{
    is_ws, skip_ws, skip_word, words_from, words, lemma_skip_bounds, decimal, digits_value,
    all_digits, parse_u16, castling_from, parse_castling, place_from, parse_placement, slash_count,
    empty_run, rank_text, ranks_text, ep_text, fen_of, parse_fen, fen_from_words, FenFailure,
};
use crate::position::Position;
use crate::types::{CastlingRights, Color, Piece, Square};

verus! {

/// A word: non-empty, with no whitespace.
pub open spec fn is_word(w: Seq<u8>) -> bool {
    w.len() > 0 && forall|i: int| 0 <= i < w.len() ==> !is_ws(#[trigger] w[i])
}

/// Skipping over the part of a sequence behind a prefix.
proof fn lemma_skip_shift(a: Seq<u8>, b: Seq<u8>, k: int)
    requires
        0 <= k,
    ensures
        skip_ws(a + b, a.len() + k) == a.len() + skip_ws(b, k),
        skip_word(a + b, a.len() + k) == a.len() + skip_word(b, k),
    decreases b.len() - k,
{
    if k < b.len() {
        assert((a + b)[a.len() + k] == b[k]);
        lemma_skip_shift(a, b, k + 1);
    }
}

/// The words after a prefix are the words of what follows it.
proof fn lemma_words_shift(a: Seq<u8>, b: Seq<u8>, k: int)
    requires
        0 <= k,
    ensures
        words_from(a + b, a.len() + k) == words_from(b, k),
    decreases b.len() - k,
{
    lemma_skip_shift(a, b, k);
    let s = skip_ws(b, k);
    lemma_skip_bounds(b, k);
    if s < b.len() {
        lemma_skip_shift(a, b, s);
        lemma_skip_bounds(b, s);
        let e = skip_word(b, s);
        assert((a + b).subrange(a.len() + s, a.len() + e) =~= b.subrange(s, e));
        lemma_words_shift(a, b, e);
    }
}

/// Inside a word, the word runs to its end.
proof fn lemma_word_end(w: Seq<u8>, r: Seq<u8>, j: int)
    requires
        is_word(w),
        0 <= j <= w.len(),
        r.len() == 0 || is_ws(r[0]),
    ensures
        skip_word(w + r, j) == w.len(),
    decreases w.len() - j,
{
    if j < w.len() {
        assert((w + r)[j] == w[j]);
        lemma_word_end(w, r, j + 1);
    } else if r.len() > 0 {
        assert((w + r)[j] == r[0]);
    }
}

/// A word followed by a space and more text splits off as the first word.
proof fn lemma_word_then(w: Seq<u8>, r: Seq<u8>)
    requires
        is_word(w),
    ensures
        words_from(w + seq![32u8] + r, 0) == seq![w] + words_from(r, 0),
{
    let b = w + seq![32u8] + r;
    let sp = seq![32u8] + r;
    assert(b =~= w + sp);
    assert(b[0] == w[0]);
    lemma_word_end(w, sp, 0);
    assert(skip_ws(b, 0) == 0);
    assert(b.subrange(0, w.len() as int) =~= w);
    assert(b[w.len() as int] == 32u8);
    assert(skip_ws(b, w.len() as int) == skip_ws(b, w.len() + 1int));
    lemma_words_shift(w + seq![32u8], r, 0);
    assert(words_from(b, w.len() as int) == words_from(b, w.len() + 1int));
}

/// A lone word is the only word.
proof fn lemma_last_word(w: Seq<u8>)
    requires
        is_word(w),
    ensures
        words_from(w, 0) == seq![w],
{
    lemma_word_end(w, Seq::empty(), 0);
    assert(w + Seq::<u8>::empty() =~= w);
    assert(w.subrange(0, w.len() as int) =~= w);
    assert(skip_ws(w, w.len() as int) == w.len());
    assert(words_from(w, w.len() as int) == Seq::<Seq<u8>>::empty());
}


/// The decimal digits of a number are digits, there is at least one, and
/// they spell the number.
proof fn lemma_decimal(n: nat)
    ensures
        decimal(n).len() > 0,
        all_digits(decimal(n)),
        digits_value(decimal(n)) == n,
        is_word(decimal(n)),
    decreases n,
{
    if n >= 10 {
        lemma_decimal(n / 10);
        let d = decimal(n / 10);
        let c = seq![(48 + n % 10) as u8];
        assert((d + c).drop_last() =~= d);
        assert((d + c).last() == (48 + n % 10) as u8);
        assert(((48 + n % 10) as u8 - 48) as nat == n % 10);
        assert(digits_value(d + c) == digits_value(d) * 10 + n % 10);
        assert((n / 10) * 10 + n % 10 == n);
        assert(decimal(n) == d + c);
        assert forall|i: int| 0 <= i < (d + c).len() implies 48 <= #[trigger] (d + c)[i] <= 57 by {
            if i < d.len() {
                assert((d + c)[i] == d[i]);
            }
        }
    } else {
        let t = decimal(n);
        assert(t == seq![(48 + n) as u8]);
        assert(t.drop_last() =~= Seq::<u8>::empty());
        assert(digits_value(t) == digits_value(t.drop_last()) * 10 + (t.last() - 48) as nat);
    }
}

/// A number's decimal digits parse back to it.
proof fn lemma_parse_decimal(n: u16)
    ensures
        parse_u16(decimal(n as nat)) == Some(n),
{
    lemma_decimal(n as nat);
}

/// A square's name reads back as the square.
proof fn lemma_square_name(e: Square)
    requires
        e.0 < 64,
    ensures
        Square::spec_from_uci_bytes(e.spec_name()) == Some(e),
        e.spec_name() != seq![45u8],
        is_word(e.spec_name()),
{
    let n = e.spec_name();
    assert(n[0] != 45u8);
}

/// The letters of castling rights, read one after another.
proof fn lemma_castling_concat(x: Seq<u8>, y: Seq<u8>, acc: u8, i: int)
    requires
        0 <= i <= x.len(),
    ensures
        castling_from(x + y, i, acc) == (match castling_from(x, i, acc) {
            Ok(a) => castling_from(y, 0, a),
            Err(c) => Err(c),
        }),
    decreases x.len() - i,
{
    if i < x.len() {
        assert((x + y)[i] == x[i]);
        let c = x[i];
        let bit: u8 = if c == 75 {
            1
        } else if c == 81 {
            2
        } else if c == 107 {
            4
        } else if c == 113 {
            8
        } else {
            0
        };
        if bit != 0 {
            lemma_castling_concat(x, y, acc | bit, i + 1);
        }
    } else {
        lemma_castling_tail(x, y, acc, 0);
    }
}

proof fn lemma_castling_tail(x: Seq<u8>, y: Seq<u8>, acc: u8, k: int)
    requires
        0 <= k,
    ensures
        castling_from(x + y, x.len() + k, acc) == castling_from(y, k, acc),
    decreases y.len() - k,
{
    if k < y.len() {
        assert((x + y)[x.len() + k] == y[k]);
        let c = y[k];
        let bit: u8 = if c == 75 {
            1
        } else if c == 81 {
            2
        } else if c == 107 {
            4
        } else if c == 113 {
            8
        } else {
            0
        };
        if bit != 0 {
            lemma_castling_tail(x, y, acc | bit, k + 1);
        }
    }
}

/// One optional castling letter.
pub open spec fn castle_letter(c: u8, bit: u8, letter: u8) -> Seq<u8> {
    if c & bit != 0 {
        seq![letter]
    } else {
        Seq::empty()
    }
}

proof fn lemma_castle_bits(c: u8)
    by (bit_vector)
    requires
        c < 16,
    ensures
        ({
            let a1: u8 = if c & 1 != 0 { 0u8 | 1u8 } else { 0u8 };
            let a2: u8 = if c & 2 != 0 { a1 | 2u8 } else { a1 };
            let a3: u8 = if c & 4 != 0 { a2 | 4u8 } else { a2 };
            let a4: u8 = if c & 8 != 0 { a3 | 8u8 } else { a3 };
            a4 == c
        }),
        c != 0 ==> (c & 1 != 0 || c & 2 != 0 || c & 4 != 0 || c & 8 != 0),
{
}

/// One optional letter, read from `acc`.
proof fn lemma_castle_letter(c: u8, bit: u8, letter: u8, acc: u8)
    requires
        (bit == 1 && letter == 75) || (bit == 2 && letter == 81) || (bit == 4 && letter == 107) || (bit == 8
            && letter == 113),
    ensures
        castling_from(castle_letter(c, bit, letter), 0, acc) == Ok::<u8, u8>(if c & bit != 0 { acc | bit } else { acc }),
{
    if c & bit != 0 {
        let t = seq![letter];
        assert(castling_from(t, 1, acc | bit) == Ok::<u8, u8>(acc | bit));
    }
}

/// Castling rights read back from their FEN field.
proof fn lemma_castling_roundtrip(c: u8)
    requires
        c < 16,
    ensures
        parse_castling(CastlingRights(c).spec_fen()) == Ok::<u8, u8>(c),
        is_word(CastlingRights(c).spec_fen()),
{
    lemma_castle_bits(c);
    if c != 0 {
        let k = castle_letter(c, 1, 75);
        let q = castle_letter(c, 2, 81);
        let bk = castle_letter(c, 4, 107);
        let bq = castle_letter(c, 8, 113);
        let t = CastlingRights(c).spec_fen();
        assert(t =~= k + q + bk + bq);
        lemma_castle_letter(c, 1, 75, 0);
        let a1: u8 = if c & 1 != 0 { 0u8 | 1u8 } else { 0u8 };
        lemma_castle_letter(c, 2, 81, a1);
        let a2: u8 = if c & 2 != 0 { a1 | 2u8 } else { a1 };
        lemma_castle_letter(c, 4, 107, a2);
        let a3: u8 = if c & 4 != 0 { a2 | 4u8 } else { a2 };
        lemma_castle_letter(c, 8, 113, a3);
        lemma_castling_concat(k, q, 0, 0);
        lemma_castling_concat(k + q, bk, 0, 0);
        lemma_castling_concat(k + q + bk, bq, 0, 0);
        assert(t.len() > 0);
        assert(t[0] != 45u8);
        assert(t != seq![45u8]);
        assert forall|i: int| 0 <= i < t.len() implies !is_ws(#[trigger] t[i]) by {
            assert(t[i] == 75 || t[i] == 81 || t[i] == 107 || t[i] == 113);
        }
    }
}


/// Placement parsing past a prefix reads what follows it.
proof fn lemma_place_shift(a: Seq<u8>, b: Seq<u8>, k: int, rank: int, file: int, sq: Seq<Option<Piece>>)
    requires
        0 <= k,
    ensures
        place_from(a + b, a.len() + k, rank, file, sq) == place_from(b, k, rank, file, sq),
    decreases b.len() - k,
{
    if k < b.len() {
        assert((a + b)[a.len() + k] == b[k]);
        let c = b[k];
        if c == 47 {
            lemma_place_shift(a, b, k + 1, rank - 1, 0, sq);
        } else if 48 <= c <= 57 {
            let nf = file + (c - 48);
            lemma_place_shift(a, b, k + 1, rank, if nf > 9 { 9 } else { nf }, sq);
        } else {
            match Piece::spec_from_char(c as char) {
                None => {},
                Some(p) => {
                    if file < 8 {
                        lemma_place_shift(a, b, k + 1, rank, file + 1, sq.update(rank * 8 + file, Some(p)));
                    }
                },
            }
        }
    }
}

/// A piece's letter reads back as the piece, and is neither a digit, a
/// slash nor whitespace.
proof fn lemma_piece_letter(p: Piece)
    ensures
        Piece::spec_from_char((p.spec_to_char() as u8) as char) == Some(p),
        (p.spec_to_char() as u8) != 47u8,
        !(48 <= (p.spec_to_char() as u8) <= 57),
        !is_ws(p.spec_to_char() as u8),
{
    match p {
        Piece::WhitePawn => {},
        Piece::WhiteKnight => {},
        Piece::WhiteBishop => {},
        Piece::WhiteRook => {},
        Piece::WhiteQueen => {},
        Piece::WhiteKing => {},
        Piece::BlackPawn => {},
        Piece::BlackKnight => {},
        Piece::BlackBishop => {},
        Piece::BlackRook => {},
        Piece::BlackQueen => {},
        Piece::BlackKing => {},
    }
}

/// `acc` with the pieces of `sq` on rank `r`, files `f..8`, written in.
pub open spec fn overlay(acc: Seq<Option<Piece>>, sq: Seq<Option<Piece>>, r: int, f: int) -> Seq<Option<Piece>>
    decreases 8 - f,
{
    if f >= 8 || f < 0 {
        acc
    } else {
        let a2 = match sq[r * 8 + f] {
            Some(p) => acc.update(r * 8 + f, Some(p)),
            None => acc,
        };
        overlay(a2, sq, r, f + 1)
    }
}

/// `acc` with the pieces of `sq` on ranks `r` down to 0 written in.
pub open spec fn overlay_ranks(acc: Seq<Option<Piece>>, sq: Seq<Option<Piece>>, r: int) -> Seq<Option<Piece>>
    decreases r + 1,
{
    if r < 0 {
        acc
    } else {
        overlay_ranks(overlay(acc, sq, r, 0), sq, r - 1)
    }
}

/// Parsing the text of a rank from file `f - run` writes that rank's
/// pieces and ends at the h-file.
proof fn lemma_place_rank(
    sq0: Seq<Option<Piece>>,
    r: int,
    f: int,
    run: int,
    rest: Seq<u8>,
    acc: Seq<Option<Piece>>,
)
    requires
        0 <= run <= f <= 8,
        0 <= r < 8,
    ensures
        place_from(rank_text(sq0, r, f, run) + rest, 0, r, f - run, acc) == place_from(rest, 0, r, 8, overlay(acc, sq0, r, f)),
    decreases 8 - f,
{
    if f >= 8 {
        if run > 0 {
            let d = seq![(48 + run) as u8];
            assert(empty_run(run) == d);
            assert((d + rest)[0] == (48 + run) as u8);
            lemma_place_shift(d, rest, 0, r, 8, acc);
        } else {
            assert(empty_run(run) + rest =~= rest);
        }
    } else {
        match sq0[r * 8 + f] {
            Some(p) => {
                let ch = p.spec_to_char() as u8;
                lemma_piece_letter(p);
                let tail = rank_text(sq0, r, f + 1, 0);
                let x = seq![ch] + tail + rest;
                let acc2 = acc.update(r * 8 + f, Some(p));
                assert(rank_text(sq0, r, f, run) == empty_run(run) + seq![ch] + tail);
                assert(x[0] == ch);
                lemma_place_shift(seq![ch], tail + rest, 0, r, f + 1, acc2);
                assert(seq![ch] + (tail + rest) =~= x);
                assert(place_from(x, 0, r, f, acc) == place_from(tail + rest, 0, r, f + 1, acc2));
                lemma_place_rank(sq0, r, f + 1, 0, rest, acc2);
                if run > 0 {
                    let d = seq![(48 + run) as u8];
                    assert(empty_run(run) == d);
                    assert(empty_run(run) + seq![ch] + tail + rest =~= d + x);
                    assert((d + x)[0] == (48 + run) as u8);
                    lemma_place_shift(d, x, 0, r, f, acc);
                } else {
                    assert(empty_run(run) + seq![ch] + tail + rest =~= x);
                }
            },
            None => {
                lemma_place_rank(sq0, r, f + 1, run + 1, rest, acc);
            },
        }
    }
}

/// Parsing the text of ranks `r` down to 1 writes their pieces.
proof fn lemma_place_ranks(sq0: Seq<Option<Piece>>, r: int, acc: Seq<Option<Piece>>)
    requires
        0 <= r < 8,
    ensures
        place_from(ranks_text(sq0, r), 0, r, 0, acc) == Ok::<Seq<Option<Piece>>, crate::fen::PlacementError>(overlay_ranks(acc, sq0, r)),
    decreases r,
{
    let acc2 = overlay(acc, sq0, r, 0);
    if r == 0 {
        lemma_place_rank(sq0, 0, 0, 0, Seq::empty(), acc);
        assert(rank_text(sq0, 0, 0, 0) + Seq::<u8>::empty() =~= rank_text(sq0, 0, 0, 0));
        assert(overlay_ranks(acc, sq0, 0) == overlay_ranks(acc2, sq0, -1));
    } else {
        let below = ranks_text(sq0, r - 1);
        let rest = seq![47u8] + below;
        lemma_place_rank(sq0, r, 0, 0, rest, acc);
        assert(rank_text(sq0, r, 0, 0) + rest =~= ranks_text(sq0, r));
        assert(rest[0] == 47u8);
        lemma_place_shift(seq![47u8], below, 0, r - 1, 0, acc2);
        lemma_place_ranks(sq0, r - 1, acc2);
    }
}

/// What an overlay of rank `r` from file `f` holds.
proof fn lemma_overlay_at(acc: Seq<Option<Piece>>, sq: Seq<Option<Piece>>, r: int, f: int, j: int)
    requires
        0 <= f <= 8,
        0 <= r < 8,
        acc.len() == 64,
        0 <= j < 64,
    ensures
        overlay(acc, sq, r, f).len() == 64,
        overlay(acc, sq, r, f)[j] == (if j / 8 == r && j % 8 >= f && sq[j] is Some { sq[j] } else { acc[j] }),
    decreases 8 - f,
{
    if f < 8 {
        let a2 = match sq[r * 8 + f] {
            Some(p) => acc.update(r * 8 + f, Some(p)),
            None => acc,
        };
        lemma_overlay_at(a2, sq, r, f + 1, j);
    }
}

/// What an overlay of ranks `r` down to 0 holds.
proof fn lemma_overlay_ranks_at(acc: Seq<Option<Piece>>, sq: Seq<Option<Piece>>, r: int, j: int)
    requires
        r < 8,
        acc.len() == 64,
        0 <= j < 64,
    ensures
        overlay_ranks(acc, sq, r).len() == 64,
        overlay_ranks(acc, sq, r)[j] == (if j / 8 <= r && sq[j] is Some { sq[j] } else { acc[j] }),
    decreases r + 1,
{
    if r >= 0 {
        let a2 = overlay(acc, sq, r, 0);
        lemma_overlay_at(acc, sq, r, 0, j);
        lemma_overlay_at(acc, sq, r, 0, 0);
        lemma_overlay_ranks_at(a2, sq, r - 1, j);
    }
}

proof fn lemma_slash_concat(a: Seq<u8>, b: Seq<u8>)
    ensures
        slash_count(a + b) == slash_count(a) + slash_count(b),
    decreases b.len(),
{
    if b.len() > 0 {
        assert((a + b).drop_last() =~= a + b.drop_last());
        lemma_slash_concat(a, b.drop_last());
    } else {
        assert(a + b =~= a);
    }
}

/// The text of a rank: letters and run digits, no slash, no whitespace, and
/// not empty once it reaches the h-file with something to say.
proof fn lemma_rank_text_chars(sq: Seq<Option<Piece>>, r: int, f: int, run: int)
    requires
        0 <= run <= f <= 8,
    ensures
        slash_count(rank_text(sq, r, f, run)) == 0,
        forall|i: int| 0 <= i < rank_text(sq, r, f, run).len() ==> !is_ws(#[trigger] rank_text(sq, r, f, run)[i])
            && rank_text(sq, r, f, run)[i] != 47u8,
        (f < 8 || run > 0) ==> rank_text(sq, r, f, run).len() > 0,
    decreases 8 - f,
{
    if f >= 8 {
        if run > 0 {
            let e = empty_run(run);
            assert(e.drop_last() =~= Seq::<u8>::empty());
            assert(slash_count(e) == slash_count(e.drop_last()) + (if e.last() == 47u8 { 1nat } else { 0nat }));
        } else {
            assert(slash_count(empty_run(run)) == 0);
        }
    } else {
        match sq[r * 8 + f] {
            Some(p) => {
                lemma_piece_letter(p);
                lemma_rank_text_chars(sq, r, f + 1, 0);
                let e = empty_run(run);
                let c = seq![p.spec_to_char() as u8];
                let t = rank_text(sq, r, f + 1, 0);
                if run > 0 {
                    assert(e.drop_last() =~= Seq::<u8>::empty());
                    assert(slash_count(e) == slash_count(e.drop_last()) + (if e.last() == 47u8 { 1nat } else { 0nat }));
                } else {
                    assert(slash_count(e) == 0);
                }
                assert(c.drop_last() =~= Seq::<u8>::empty());
                assert(slash_count(c) == slash_count(c.drop_last()) + (if c.last() == 47u8 { 1nat } else { 0nat }));
                lemma_slash_concat(e, c);
                lemma_slash_concat(e + c, t);
                assert forall|i: int| 0 <= i < (e + c + t).len() implies !is_ws(#[trigger] (e + c + t)[i]) && (e
                    + c + t)[i] != 47u8 by {
                    if i < e.len() {
                        assert((e + c + t)[i] == e[i]);
                    } else if i < e.len() + 1 {
                        assert((e + c + t)[i] == c[i - e.len()]);
                    } else {
                        assert((e + c + t)[i] == t[i - e.len() - 1]);
                    }
                }
            },
            None => {
                lemma_rank_text_chars(sq, r, f + 1, run + 1);
            },
        }
    }
}

/// The placement text: one slash per rank boundary and no whitespace.
proof fn lemma_ranks_text_chars(sq: Seq<Option<Piece>>, r: int)
    requires
        0 <= r < 8,
    ensures
        slash_count(ranks_text(sq, r)) == r,
        is_word(ranks_text(sq, r)),
    decreases r,
{
    lemma_rank_text_chars(sq, r, 0, 0);
    if r > 0 {
        lemma_ranks_text_chars(sq, r - 1);
        let a = rank_text(sq, r, 0, 0);
        let b = ranks_text(sq, r - 1);
        let s = seq![47u8];
        assert(s.drop_last() =~= Seq::<u8>::empty());
        assert(slash_count(s) == slash_count(s.drop_last()) + 1);
        lemma_slash_concat(a, s);
        lemma_slash_concat(a + s, b);
        assert forall|i: int| 0 <= i < (a + s + b).len() implies !is_ws(#[trigger] (a + s + b)[i]) by {
            if i < a.len() {
                assert((a + s + b)[i] == a[i]);
            } else if i < a.len() + 1 {
                assert((a + s + b)[i] == 47u8);
            } else {
                assert((a + s + b)[i] == b[i - a.len() - 1]);
            }
        }
    }
}

/// The placement text of 64 squares parses back to them.
proof fn lemma_placement_roundtrip(sq: Seq<Option<Piece>>)
    requires
        sq.len() == 64,
    ensures
        parse_placement(ranks_text(sq, 7)) == Ok::<Seq<Option<Piece>>, crate::fen::PlacementError>(sq),
        is_word(ranks_text(sq, 7)),
{
    lemma_ranks_text_chars(sq, 7);
    let empty = Seq::new(64, |i: int| None::<Piece>);
    lemma_place_ranks(sq, 7, empty);
    let res = overlay_ranks(empty, sq, 7);
    assert forall|j: int| 0 <= j < 64 implies #[trigger] res[j] == sq[j] by {
        lemma_overlay_ranks_at(empty, sq, 7, j);
    }
    lemma_overlay_ranks_at(empty, sq, 7, 0);
    assert(res =~= sq);
}


/// The six fields of the FEN record of a position.
pub open spec fn fen_fields(p: Position) -> Seq<Seq<u8>> {
    seq![
        ranks_text(p.squares, 7),
        seq![
            if p.stm == Color::White {
                119u8
            } else {
                98u8
            },
        ],
        CastlingRights(p.castling).spec_fen(),
        ep_text(p.ep),
        decimal(p.halfmove as nat),
        decimal(p.fullmove as nat),
    ]
}

/// The fields of the FEN record of a position read back as the position.
proof fn lemma_fields_roundtrip(p: Position)
    requires
        p.valid(),
    ensures
        fen_from_words(fen_fields(p)) == Ok::<Position, FenFailure>(p),
{
    lemma_placement_roundtrip(p.squares);
    lemma_castling_roundtrip(p.castling);
    lemma_parse_decimal(p.halfmove);
    lemma_parse_decimal(p.fullmove);
    let w = fen_fields(p);
    assert(w.len() == 6);
    if p.stm == Color::White {
        assert(w[1] == seq![119u8]);
    } else {
        assert(w[1] == seq![98u8]);
        assert(w[1][0] != seq![119u8][0]);
    }
    match p.ep {
        Some(e) => {
            lemma_square_name(e);
            assert(w[3] == e.spec_name());
        },
        None => {
            assert(w[3] == seq![45u8]);
        },
    }
    assert(parse_u16(w[4]) == Some(p.halfmove));
    assert(parse_u16(w[5]) == Some(p.fullmove));
    let q = fen_from_words(w);
    assert(q matches Ok(r) && r == p);
}

/// The words of the FEN record of a position are its fields.
proof fn lemma_fen_words(p: Position)
    requires
        p.valid(),
    ensures
        words(fen_of(p)) == fen_fields(p),
{
    let w0 = ranks_text(p.squares, 7);
    let w1 = seq![
        if p.stm == Color::White {
            119u8
        } else {
            98u8
        },
    ];
    let w2 = CastlingRights(p.castling).spec_fen();
    let w3 = ep_text(p.ep);
    let w4 = decimal(p.halfmove as nat);
    let w5 = decimal(p.fullmove as nat);
    let sp = seq![32u8];
    lemma_placement_roundtrip(p.squares);
    lemma_castling_roundtrip(p.castling);
    lemma_decimal(p.halfmove as nat);
    lemma_decimal(p.fullmove as nat);
    match p.ep {
        Some(e) => {
            lemma_square_name(e);
        },
        None => {
            assert(is_word(w3));
        },
    }
    assert(is_word(w1));
    let t4 = w4 + sp + w5;
    let t3 = w3 + sp + t4;
    let t2 = w2 + sp + t3;
    let t1 = w1 + sp + t2;
    let t0 = w0 + sp + t1;
    assert(fen_of(p) =~= t0);
    lemma_last_word(w5);
    lemma_word_then(w4, w5);
    lemma_word_then(w3, t4);
    lemma_word_then(w2, t3);
    lemma_word_then(w1, t2);
    lemma_word_then(w0, t1);
    assert(words(fen_of(p)) =~= fen_fields(p));
}

/// Parsing the FEN record of a position gives the position back.
pub proof fn lemma_fen_roundtrip(p: Position)
    requires
        p.valid(),
    ensures
        parse_fen(fen_of(p)) == Ok::<Position, FenFailure>(p),
{
    lemma_fen_words(p);
    lemma_fields_roundtrip(p);
}

/// A valid board built from the FEN record of a valid board is that board.
pub proof fn lemma_board_fen_roundtrip(a: crate::board::Board, b: crate::board::Board)
    requires
        a.valid(),
        b.valid(),
        parse_fen(fen_of(a@)) matches Ok(q) && b@ == q,
    ensures
        b == a,
{
    crate::board::lemma_wf(a);
    lemma_fen_roundtrip(a@);
    crate::board::lemma_key_determined(b, a);
}

} // verus!
