//! Text renderings for people: the board diagram and the messages of FEN
//! errors.

use vstd::prelude::*;
use crate::board::Board;
use crate::fen::{fen_of, lemma_ascii_concat, lemma_fen_ascii, FenError};
use crate::position::{Position, position_key};
use crate::text::{all_ascii, ascii_chars, ascii_string};
use crate::bitboard::Bitboard;
use crate::types::{CastlingRights, Piece, Square};

verus! {

use vstd::string::StringSliceAdditionalSpecFns;
use vstd::string::StringExecFns;

/// Append the bytes of `s`.
fn push_str(out: &mut Vec<u8>, s: &str)
    ensures
        final(out)@ == old(out)@ + s.spec_bytes(),
{
    let b = s.as_bytes();
    let mut i: usize = 0;
    while i < b.len()
        invariant
            i <= b@.len(),
            b@ == s.spec_bytes(),
            out@ == old(out)@ + b@.subrange(0, i as int),
        decreases b@.len() - i,
    {
        out.push(b[i]);
        i = i + 1;
        assert(out@ =~= old(out)@ + b@.subrange(0, i as int));
    }
    assert(b@.subrange(0, b@.len() as int) =~= b@);
}

/// The bytes of an ASCII string literal are ASCII.
proof fn lemma_literal_ascii(s: &str)
    requires
        vstd::string::is_ascii(s),
    ensures
        all_ascii(s.spec_bytes()),
{
    broadcast use vstd::string::is_ascii_spec_bytes;

    assert forall|i: int| 0 <= i < s.spec_bytes().len() implies #[trigger] s.spec_bytes()[i] < 128 by {
        assert('\0' <= s@[i] <= '\u{7f}');
    }
}

/// The character shown for a square.
pub open spec fn cell(o: Option<Piece>) -> u8 {
    match o {
        Some(pc) => pc.spec_to_char() as u8,
        None => 46,
    }
}

/// Files `0..f` of rank `r`, each followed by a space.
pub open spec fn row_cells(sq: Seq<Option<Piece>>, r: int, f: int) -> Seq<u8>
    decreases f,
{
    if f <= 0 {
        Seq::empty()
    } else {
        row_cells(sq, r, f - 1) + seq![cell(sq[r * 8 + f - 1]), 32u8]
    }
}

/// The line of rank `r`: its number, a frame and its squares.
pub open spec fn rank_line(sq: Seq<Option<Piece>>, r: int) -> Seq<u8> {
    seq![(49 + r) as u8, 32u8, 124u8, 32u8] + row_cells(sq, r, 8) + seq![124u8, 10u8]
}

/// The lines of the top `n` ranks, rank 8 first.
pub open spec fn rank_lines(sq: Seq<Option<Piece>>, n: int) -> Seq<u8>
    decreases n,
{
    if n <= 0 {
        Seq::empty()
    } else {
        rank_lines(sq, n - 1) + rank_line(sq, 8 - n)
    }
}

/// A lowercase hexadecimal digit.
pub open spec fn hex_digit(v: u64) -> u8 {
    if v < 10 {
        (48 + v) as u8
    } else {
        (87 + v) as u8
    }
}

/// The sixteen hexadecimal digits of `k`, most significant first.
pub open spec fn hex16(k: u64) -> Seq<u8> {
    Seq::new(16, |i: int| hex_digit((k >> ((60 - 4 * i) as u64)) & 15u64))
}

/// The frame line of the diagram.
pub open spec fn frame() -> Seq<u8> {
    "  +-----------------+\n".spec_bytes()
}

/// The file letters under the diagram.
pub open spec fn file_letters() -> Seq<u8> {
    "    a b c d e f g h\n".spec_bytes()
}

/// An ASCII diagram of `p` with rank 8 on top, then its FEN and hash key.
pub open spec fn diagram_of(p: Position, key: u64) -> Seq<u8> {
    frame() + rank_lines(p.squares, 8) + frame() + file_letters() + "FEN: ".spec_bytes() + fen_of(p)
        + seq![10u8] + "Key: ".spec_bytes() + hex16(key)
}

proof fn lemma_cell_ascii(o: Option<Piece>)
    ensures
        cell(o) < 128,
{
    match o {
        Some(pc) => {
            match pc {
                Piece::WhitePawn => {},
                Piece::WhiteKnight => {},
                Piece::WhiteBishop => {},
                Piece::WhiteRook => {},
                Piece::WhiteQueen => {},
                Piece::WhiteKing => {},
                Piece::BlackPawn => {},
                Piece::BlackKnight => {},
                Piece::BlackBishop => {},
                Piece::BlackRook => {},
                Piece::BlackQueen => {},
                Piece::BlackKing => {},
            }
        },
        None => {},
    }
}

proof fn lemma_row_ascii(sq: Seq<Option<Piece>>, r: int, f: int)
    ensures
        all_ascii(row_cells(sq, r, f)),
    decreases f,
{
    if f > 0 {
        lemma_row_ascii(sq, r, f - 1);
        lemma_cell_ascii(sq[r * 8 + f - 1]);
        lemma_ascii_concat(row_cells(sq, r, f - 1), seq![cell(sq[r * 8 + f - 1]), 32u8]);
    }
}

proof fn lemma_lines_ascii(sq: Seq<Option<Piece>>, n: int)
    requires
        n <= 8,
    ensures
        all_ascii(rank_lines(sq, n)),
    decreases n,
{
    if n > 0 {
        let r = 8 - n;
        lemma_lines_ascii(sq, n - 1);
        lemma_row_ascii(sq, r, 8);
        let head = seq![(49 + r) as u8, 32u8, 124u8, 32u8];
        assert(all_ascii(head));
        lemma_ascii_concat(head, row_cells(sq, r, 8));
        lemma_ascii_concat(head + row_cells(sq, r, 8), seq![124u8, 10u8]);
        lemma_ascii_concat(rank_lines(sq, n - 1), rank_line(sq, r));
    }
}

proof fn lemma_diagram_ascii(p: Position, key: u64)
    requires
        p.valid(),
    ensures
        all_ascii(diagram_of(p, key)),
{
    reveal_strlit("  +-----------------+\n");
    reveal_strlit("    a b c d e f g h\n");
    reveal_strlit("FEN: ");
    reveal_strlit("Key: ");
    lemma_literal_ascii("  +-----------------+\n");
    lemma_literal_ascii("    a b c d e f g h\n");
    lemma_literal_ascii("FEN: ");
    lemma_literal_ascii("Key: ");
    lemma_lines_ascii(p.squares, 8);
    lemma_fen_ascii(p);
    assert forall|i: int| 0 <= i < 16 implies #[trigger] hex16(key)[i] < 128 by {
        let sh = (60 - 4 * i) as u64;
        let v = (key >> sh) & 15u64;
        assert(v <= 15) by (bit_vector)
            requires
                v == (key >> sh) & 15u64,
        ;
    }
    let a = frame() + rank_lines(p.squares, 8);
    lemma_ascii_concat(frame(), rank_lines(p.squares, 8));
    lemma_ascii_concat(a, frame());
    lemma_ascii_concat(a + frame(), file_letters());
    let b = a + frame() + file_letters();
    lemma_ascii_concat(b, "FEN: ".spec_bytes());
    lemma_ascii_concat(b + "FEN: ".spec_bytes(), fen_of(p));
    let c = b + "FEN: ".spec_bytes() + fen_of(p);
    assert(all_ascii(seq![10u8]));
    lemma_ascii_concat(c, seq![10u8]);
    lemma_ascii_concat(c + seq![10u8], "Key: ".spec_bytes());
    lemma_ascii_concat(c + seq![10u8] + "Key: ".spec_bytes(), hex16(key));
}

/// Append the hexadecimal digits of `k`.
fn push_hex16(out: &mut Vec<u8>, k: u64)
    ensures
        final(out)@ == old(out)@ + hex16(k),
{
    let mut i: u64 = 0;
    while i < 16
        invariant
            i <= 16,
            out@ == old(out)@ + hex16(k).subrange(0, i as int),
        decreases 16 - i,
    {
        let sh: u64 = 60 - 4 * i;
        let v = (k >> sh) & 15;
        assert(v <= 15) by (bit_vector)
            requires
                v == (k >> sh) & 15,
        ;
        assert(sh == (60 - 4 * i) as u64);
        let d: u8 = if v < 10 {
            48 + v as u8
        } else {
            87 + v as u8
        };
        assert(d == hex16(k)[i as int]);
        out.push(d);
        i = i + 1;
        assert(out@ =~= old(out)@ + hex16(k).subrange(0, i as int));
    }
    assert(hex16(k).subrange(0, 16) =~= hex16(k));
}

impl Board {
    /// An ASCII diagram with rank 8 on top, plus the FEN and hash.
    pub fn diagram(&self) -> (r: String)
        requires
            self.valid(),
        ensures
            r@ == ascii_chars(diagram_of(self@, position_key(self@))),
    {
        proof {
            crate::board::lemma_wf(*self);
        }
        let mut out: Vec<u8> = Vec::new();
        push_str(&mut out, "  +-----------------+\n");
        let ghost head = out@;
        let mut n: u8 = 0;
        while n < 8
            invariant
                n <= 8,
                self.valid(),
                self@.squares.len() == 64,
                out@ == head + rank_lines(self@.squares, n as int),
            decreases 8 - n,
        {
            let r: u8 = 7 - n;
            out.push(49 + r);
            out.push(32);
            out.push(124);
            out.push(32);
            let ghost start = out@;
            let mut f: u8 = 0;
            while f < 8
                invariant
                    f <= 8,
                    r < 8,
                    self@.squares.len() == 64,
                    out@ == start + row_cells(self@.squares, r as int, f as int),
                decreases 8 - f,
            {
                let c: u8 = match self.piece_on(Square(r * 8 + f)) {
                    Some(pc) => pc.to_char() as u8,
                    None => 46,
                };
                out.push(c);
                out.push(32);
                f = f + 1;
                assert(out@ =~= start + row_cells(self@.squares, r as int, f as int));
            }
            out.push(124);
            out.push(10);
            n = n + 1;
            assert(out@ =~= head + rank_lines(self@.squares, n as int));
        }
        push_str(&mut out, "  +-----------------+\n");
        push_str(&mut out, "    a b c d e f g h\n");
        push_str(&mut out, "FEN: ");
        let fen = self.fen_bytes();
        let mut i: usize = 0;
        let ghost before = out@;
        while i < fen.len()
            invariant
                i <= fen@.len(),
                out@ == before + fen@.subrange(0, i as int),
            decreases fen@.len() - i,
        {
            out.push(fen[i]);
            i = i + 1;
            assert(out@ =~= before + fen@.subrange(0, i as int));
        }
        assert(fen@.subrange(0, fen@.len() as int) =~= fen@);
        out.push(10);
        push_str(&mut out, "Key: ");
        push_hex16(&mut out, self.zobrist_key());
        proof {
            lemma_diagram_ascii(self@, position_key(self@));
        }
        assert(out@ =~= diagram_of(self@, position_key(self@)));
        ascii_string(out)
    }
}

/// The message of a FEN error.
pub open spec fn error_message(e: FenError) -> Seq<char> {
    match e {
        FenError::MissingField(name) => "FEN missing field: "@ + name@,
        FenError::BadPlacement(msg) => "invalid FEN placement: "@ + msg@,
        FenError::BadSideToMove(s) => "invalid FEN side to move: "@ + s@,
        FenError::BadCastling(s) => "invalid FEN castling: "@ + s@,
        FenError::BadEnPassant(s) => "invalid FEN en passant: "@ + s@,
        FenError::BadNumber(field, s) => "invalid FEN "@ + field@ + ": "@ + s@,
    }
}

impl FenError {
    /// The error as a sentence, naming the field and quoting what was found.
    pub fn message(&self) -> (r: String)
        ensures
            r@ == error_message(*self),
    {
        let mut out = String::new();
        match self {
            FenError::MissingField(name) => {
                out.append("FEN missing field: ");
                out.append(name);
            },
            FenError::BadPlacement(msg) => {
                out.append("invalid FEN placement: ");
                out.append(msg.as_str());
            },
            FenError::BadSideToMove(s) => {
                out.append("invalid FEN side to move: ");
                out.append(s.as_str());
            },
            FenError::BadCastling(s) => {
                out.append("invalid FEN castling: ");
                out.append(s.as_str());
            },
            FenError::BadEnPassant(s) => {
                out.append("invalid FEN en passant: ");
                out.append(s.as_str());
            },
            FenError::BadNumber(field, s) => {
                out.append("invalid FEN ");
                out.append(field);
                out.append(": ");
                out.append(s.as_str());
            },
        }
        out
    }
}

/// The grid of a bitboard: a blank line, then the ranks from 8 down to 1,
/// `X` on a set square and `.` on an empty one, each followed by a space.
pub open spec fn grid_of(b: Bitboard) -> Seq<u8> {
    seq![10u8] + grid_lines(b, 8)
}

/// Files `0..f` of rank `r` of the grid.
pub open spec fn grid_cells(b: Bitboard, r: int, f: int) -> Seq<u8>
    decreases f,
{
    if f <= 0 {
        Seq::empty()
    } else {
        grid_cells(b, r, f - 1) + seq![if b@.contains(r * 8 + f - 1) { 88u8 } else { 46u8 }, 32u8]
    }
}

/// The lines of the top `n` ranks of the grid, rank 8 first.
pub open spec fn grid_lines(b: Bitboard, n: int) -> Seq<u8>
    decreases n,
{
    if n <= 0 {
        Seq::empty()
    } else {
        grid_lines(b, n - 1) + grid_cells(b, 8 - n, 8) + seq![10u8]
    }
}

proof fn lemma_grid_ascii(b: Bitboard)
    ensures
        all_ascii(grid_of(b)),
{
    assert forall|i: int| 0 <= i < grid_of(b).len() implies #[trigger] grid_of(b)[i] < 128 by {
        lemma_grid_bytes(b, 8);
        if i > 0 {
            assert(grid_of(b)[i] == grid_lines(b, 8)[i - 1]);
        }
    }
}

proof fn lemma_grid_bytes(b: Bitboard, n: int)
    ensures
        forall|i: int| 0 <= i < grid_lines(b, n).len() ==> #[trigger] grid_lines(b, n)[i] < 128,
    decreases n,
{
    if n > 0 {
        lemma_grid_bytes(b, n - 1);
        lemma_cells_bytes(b, 8 - n, 8);
        let a = grid_lines(b, n - 1);
        let c = grid_cells(b, 8 - n, 8);
        assert forall|i: int| 0 <= i < grid_lines(b, n).len() implies #[trigger] grid_lines(b, n)[i] < 128 by {
            if i < a.len() {
                assert(grid_lines(b, n)[i] == a[i]);
            } else if i < a.len() + c.len() {
                assert(grid_lines(b, n)[i] == c[i - a.len()]);
            }
        }
    }
}

proof fn lemma_cells_bytes(b: Bitboard, r: int, f: int)
    ensures
        forall|i: int| 0 <= i < grid_cells(b, r, f).len() ==> #[trigger] grid_cells(b, r, f)[i] < 128,
    decreases f,
{
    if f > 0 {
        lemma_cells_bytes(b, r, f - 1);
        let a = grid_cells(b, r, f - 1);
        assert forall|i: int| 0 <= i < grid_cells(b, r, f).len() implies #[trigger] grid_cells(b, r, f)[i] < 128 by {
            if i < a.len() {
                assert(grid_cells(b, r, f)[i] == a[i]);
            }
        }
    }
}

impl Bitboard {
    /// The set squares as a grid with rank 8 on top (see [`grid_of`]).
    pub fn grid(self) -> (r: String)
        ensures
            r@ == ascii_chars(grid_of(self)),
    {
        let mut out: Vec<u8> = Vec::new();
        out.push(10);
        let ghost head = out@;
        let mut n: u8 = 0;
        while n < 8
            invariant
                n <= 8,
                head == seq![10u8],
                out@ == head + grid_lines(self, n as int),
            decreases 8 - n,
        {
            let r: u8 = 7 - n;
            let ghost start = out@;
            let mut f: u8 = 0;
            while f < 8
                invariant
                    f <= 8,
                    r < 8,
                    out@ == start + grid_cells(self, r as int, f as int),
                decreases 8 - f,
            {
                let c: u8 = if self.contains(Square(r * 8 + f)) {
                    88
                } else {
                    46
                };
                out.push(c);
                out.push(32);
                f = f + 1;
                assert(out@ =~= start + grid_cells(self, r as int, f as int));
            }
            out.push(10);
            n = n + 1;
            assert(out@ =~= head + grid_lines(self, n as int));
        }
        proof {
            lemma_grid_ascii(self);
        }
        assert(out@ =~= grid_of(self));
        ascii_string(out)
    }
}

impl Square {
    /// The algebraic name of the square, e.g. `e4`.
    pub fn name(self) -> (r: String)
        requires
            self.valid(),
        ensures
            r@ == ascii_chars(self.spec_name()),
    {
        let n = self.name_bytes();
        let mut v: Vec<u8> = Vec::new();
        v.push(n[0]);
        v.push(n[1]);
        assert(v@ =~= self.spec_name());
        ascii_string(v)
    }
}

impl CastlingRights {
    /// The rights as in FEN: `-`, or the letters of the held rights in `KQkq`
    /// order.
    pub fn text(self) -> (r: String)
        ensures
            r@ == ascii_chars(self.spec_fen()),
    {
        let mut v: Vec<u8> = Vec::new();
        self.push_fen(&mut v);
        assert(v@ =~= self.spec_fen());
        assert(all_ascii(self.spec_fen()));
        ascii_string(v)
    }
}

} // verus!
