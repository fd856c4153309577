//! Fundamental chess value types: colors, piece kinds, pieces, squares and
//! castling rights.
//!
//! Squares use the Little-Endian Rank-File mapping: `a1 = 0`, `b1 = 1`, ...
//! `h1 = 7`, `a2 = 8`, ... `h8 = 63`, so `file = index % 8` and
//! `rank = index / 8`.

use vstd::prelude::*;

verus! {

use vstd::string::StringSliceAdditionalSpecFns;

/// Side to move / piece color.
#[derive(Clone, Copy, PartialEq, Eq, Debug, Hash, Structural)]
pub enum Color {
    White,
    Black,
}

impl Color {
    /// Number of colors.
    pub const COUNT: usize = 2;

    pub open spec fn spec_index(self) -> usize {
        match self {
            Color::White => 0,
            Color::Black => 1,
        }
    }

    pub open spec fn spec_flip(self) -> Color {
        match self {
            Color::White => Color::Black,
            Color::Black => Color::White,
        }
    }

    /// Index into color-keyed arrays (`White = 0`, `Black = 1`).
    #[verifier::when_used_as_spec(spec_index)]
    pub fn index(self) -> (r: usize)
        ensures
            r == self.spec_index(),
    {
        match self {
            Color::White => 0,
            Color::Black => 1,
        }
    }

    /// The opposing color.
    #[verifier::when_used_as_spec(spec_flip)]
    pub fn flip(self) -> (r: Color)
        ensures
            r == self.spec_flip(),
    {
        match self {
            Color::White => Color::Black,
            Color::Black => Color::White,
        }
    }

    /// Build a color from an index (`0 = White`, anything else `Black`).
    pub fn from_index(i: usize) -> (r: Color)
        ensures
            r == (if i == 0 { Color::White } else { Color::Black }),
    {
        if i == 0 {
            Color::White
        } else {
            Color::Black
        }
    }
}

/// The six kinds of chess piece, independent of color.
#[derive(Clone, Copy, PartialEq, Eq, Debug, Hash, Structural)]
pub enum PieceType {
    Pawn,
    Knight,
    Bishop,
    Rook,
    Queen,
    King,
}

impl PieceType {
    /// Number of distinct piece kinds.
    pub const COUNT: usize = 6;

    pub open spec fn spec_index(self) -> usize {
        match self {
            PieceType::Pawn => 0,
            PieceType::Knight => 1,
            PieceType::Bishop => 2,
            PieceType::Rook => 3,
            PieceType::Queen => 4,
            PieceType::King => 5,
        }
    }

    pub open spec fn spec_from_index(i: usize) -> PieceType {
        if i == 0 {
            PieceType::Pawn
        } else if i == 1 {
            PieceType::Knight
        } else if i == 2 {
            PieceType::Bishop
        } else if i == 3 {
            PieceType::Rook
        } else if i == 4 {
            PieceType::Queen
        } else {
            PieceType::King
        }
    }

    /// All piece kinds in index order.
    pub fn all() -> (r: [PieceType; 6])
        ensures
            forall|i: int| 0 <= i < 6 ==> #[trigger] r[i].spec_index() == i,
    {
        [
            PieceType::Pawn,
            PieceType::Knight,
            PieceType::Bishop,
            PieceType::Rook,
            PieceType::Queen,
            PieceType::King,
        ]
    }

    /// Index into piece-keyed arrays (`Pawn = 0` ... `King = 5`).
    #[verifier::when_used_as_spec(spec_index)]
    pub fn index(self) -> (r: usize)
        ensures
            r == self.spec_index(),
            r < 6,
    {
        match self {
            PieceType::Pawn => 0,
            PieceType::Knight => 1,
            PieceType::Bishop => 2,
            PieceType::Rook => 3,
            PieceType::Queen => 4,
            PieceType::King => 5,
        }
    }

    /// Build a piece kind from an index in `0..6`.
    pub fn from_index(i: usize) -> (r: PieceType)
        requires
            i < 6,
        ensures
            r == Self::spec_from_index(i),
            r.spec_index() == i,
    {
        match i {
            0 => PieceType::Pawn,
            1 => PieceType::Knight,
            2 => PieceType::Bishop,
            3 => PieceType::Rook,
            4 => PieceType::Queen,
            _ => PieceType::King,
        }
    }

    pub open spec fn spec_to_char(self) -> char {
        match self {
            PieceType::Pawn => 'p',
            PieceType::Knight => 'n',
            PieceType::Bishop => 'b',
            PieceType::Rook => 'r',
            PieceType::Queen => 'q',
            PieceType::King => 'k',
        }
    }

    /// Lowercase piece letter as used in FEN / UCI promotion suffixes.
    #[verifier::when_used_as_spec(spec_to_char)]
    pub fn to_char(self) -> (r: char)
        ensures
            r == self.spec_to_char(),
    {
        match self {
            PieceType::Pawn => 'p',
            PieceType::Knight => 'n',
            PieceType::Bishop => 'b',
            PieceType::Rook => 'r',
            PieceType::Queen => 'q',
            PieceType::King => 'k',
        }
    }
}

/// A colored piece (color and kind combined). Its index is
/// `color.index() * 6 + piece_type.index()`, so white pieces occupy `0..6`
/// and black pieces `6..12`.
#[derive(Clone, Copy, PartialEq, Eq, Debug, Hash, Structural)]
pub enum Piece {
    WhitePawn,
    WhiteKnight,
    WhiteBishop,
    WhiteRook,
    WhiteQueen,
    WhiteKing,
    BlackPawn,
    BlackKnight,
    BlackBishop,
    BlackRook,
    BlackQueen,
    BlackKing,
}

impl Piece {
    /// Number of distinct colored pieces.
    pub const COUNT: usize = 12;

    pub open spec fn spec_index(self) -> usize {
        match self {
            Piece::WhitePawn => 0,
            Piece::WhiteKnight => 1,
            Piece::WhiteBishop => 2,
            Piece::WhiteRook => 3,
            Piece::WhiteQueen => 4,
            Piece::WhiteKing => 5,
            Piece::BlackPawn => 6,
            Piece::BlackKnight => 7,
            Piece::BlackBishop => 8,
            Piece::BlackRook => 9,
            Piece::BlackQueen => 10,
            Piece::BlackKing => 11,
        }
    }

    pub open spec fn spec_from_index(i: usize) -> Piece {
        if i == 0 {
            Piece::WhitePawn
        } else if i == 1 {
            Piece::WhiteKnight
        } else if i == 2 {
            Piece::WhiteBishop
        } else if i == 3 {
            Piece::WhiteRook
        } else if i == 4 {
            Piece::WhiteQueen
        } else if i == 5 {
            Piece::WhiteKing
        } else if i == 6 {
            Piece::BlackPawn
        } else if i == 7 {
            Piece::BlackKnight
        } else if i == 8 {
            Piece::BlackBishop
        } else if i == 9 {
            Piece::BlackRook
        } else if i == 10 {
            Piece::BlackQueen
        } else {
            Piece::BlackKing
        }
    }

    pub open spec fn spec_color(self) -> Color {
        if self.spec_index() < 6 {
            Color::White
        } else {
            Color::Black
        }
    }

    pub open spec fn spec_piece_type(self) -> PieceType {
        PieceType::spec_from_index((self.spec_index() % 6) as usize)
    }

    pub open spec fn spec_make(color: Color, kind: PieceType) -> Piece {
        Piece::spec_from_index((color.spec_index() * 6 + kind.spec_index()) as usize)
    }

    /// Compose a colored piece from a color and a kind.
    pub fn make(color: Color, kind: PieceType) -> (r: Piece)
        ensures
            r == Self::spec_make(color, kind),
            r.spec_color() == color,
            r.spec_piece_type() == kind,
    {
        Piece::from_index(color.index() * 6 + kind.index())
    }

    /// Index into piece-keyed arrays (`0..12`).
    #[verifier::when_used_as_spec(spec_index)]
    pub fn index(self) -> (r: usize)
        ensures
            r == self.spec_index(),
            r < 12,
    {
        match self {
            Piece::WhitePawn => 0,
            Piece::WhiteKnight => 1,
            Piece::WhiteBishop => 2,
            Piece::WhiteRook => 3,
            Piece::WhiteQueen => 4,
            Piece::WhiteKing => 5,
            Piece::BlackPawn => 6,
            Piece::BlackKnight => 7,
            Piece::BlackBishop => 8,
            Piece::BlackRook => 9,
            Piece::BlackQueen => 10,
            Piece::BlackKing => 11,
        }
    }

    /// Build a colored piece from an index in `0..12`.
    pub fn from_index(i: usize) -> (r: Piece)
        requires
            i < 12,
        ensures
            r == Self::spec_from_index(i),
            r.spec_index() == i,
    {
        match i {
            0 => Piece::WhitePawn,
            1 => Piece::WhiteKnight,
            2 => Piece::WhiteBishop,
            3 => Piece::WhiteRook,
            4 => Piece::WhiteQueen,
            5 => Piece::WhiteKing,
            6 => Piece::BlackPawn,
            7 => Piece::BlackKnight,
            8 => Piece::BlackBishop,
            9 => Piece::BlackRook,
            10 => Piece::BlackQueen,
            _ => Piece::BlackKing,
        }
    }

    /// The color of this piece.
    #[verifier::when_used_as_spec(spec_color)]
    pub fn color(self) -> (r: Color)
        ensures
            r == self.spec_color(),
    {
        if self.index() < 6 {
            Color::White
        } else {
            Color::Black
        }
    }

    /// The kind of this piece.
    #[verifier::when_used_as_spec(spec_piece_type)]
    pub fn piece_type(self) -> (r: PieceType)
        ensures
            r == self.spec_piece_type(),
            Piece::spec_make(self.spec_color(), r) == self,
    {
        PieceType::from_index(self.index() % 6)
    }

    pub open spec fn spec_to_char(self) -> char {
        match self {
            Piece::WhitePawn => 'P',
            Piece::WhiteKnight => 'N',
            Piece::WhiteBishop => 'B',
            Piece::WhiteRook => 'R',
            Piece::WhiteQueen => 'Q',
            Piece::WhiteKing => 'K',
            Piece::BlackPawn => 'p',
            Piece::BlackKnight => 'n',
            Piece::BlackBishop => 'b',
            Piece::BlackRook => 'r',
            Piece::BlackQueen => 'q',
            Piece::BlackKing => 'k',
        }
    }

    /// FEN letter for this piece (uppercase for white, lowercase for black).
    #[verifier::when_used_as_spec(spec_to_char)]
    pub fn to_char(self) -> (r: char)
        ensures
            r == self.spec_to_char(),
    {
        let lower = self.piece_type().to_char();
        match self.color() {
            Color::White => {
                // The six lowercase letters map to their uppercase forms.
                if lower == 'p' {
                    'P'
                } else if lower == 'n' {
                    'N'
                } else if lower == 'b' {
                    'B'
                } else if lower == 'r' {
                    'R'
                } else if lower == 'q' {
                    'Q'
                } else {
                    'K'
                }
            },
            Color::Black => lower,
        }
    }

    pub open spec fn spec_from_char(c: char) -> Option<Piece> {
        if c == 'P' {
            Some(Piece::WhitePawn)
        } else if c == 'N' {
            Some(Piece::WhiteKnight)
        } else if c == 'B' {
            Some(Piece::WhiteBishop)
        } else if c == 'R' {
            Some(Piece::WhiteRook)
        } else if c == 'Q' {
            Some(Piece::WhiteQueen)
        } else if c == 'K' {
            Some(Piece::WhiteKing)
        } else if c == 'p' {
            Some(Piece::BlackPawn)
        } else if c == 'n' {
            Some(Piece::BlackKnight)
        } else if c == 'b' {
            Some(Piece::BlackBishop)
        } else if c == 'r' {
            Some(Piece::BlackRook)
        } else if c == 'q' {
            Some(Piece::BlackQueen)
        } else if c == 'k' {
            Some(Piece::BlackKing)
        } else {
            None
        }
    }

    /// Parse a FEN piece letter into a colored piece.
    #[verifier::when_used_as_spec(spec_from_char)]
    pub fn from_char(c: char) -> (r: Option<Piece>)
        ensures
            r == Self::spec_from_char(c),
            r matches Some(p) ==> p.spec_to_char() == c,
    {
        let (color, lower) = if 'A' <= c && c <= 'Z' {
            (Color::White, ((c as u32) + 32) as u8 as char)
        } else {
            (Color::Black, c)
        };
        let kind = if lower == 'p' {
            PieceType::Pawn
        } else if lower == 'n' {
            PieceType::Knight
        } else if lower == 'b' {
            PieceType::Bishop
        } else if lower == 'r' {
            PieceType::Rook
        } else if lower == 'q' {
            PieceType::Queen
        } else if lower == 'k' {
            PieceType::King
        } else {
            return None;
        };
        Some(Piece::make(color, kind))
    }
}

/// A board square, `0..64` in LERF order (`a1 = 0` ... `h8 = 63`).
#[derive(Clone, Copy, PartialEq, Eq, PartialOrd, Ord, Hash, Debug, Structural)]
pub struct Square(pub u8);

impl Square {
    /// Number of squares on the board.
    pub const COUNT: usize = 64;

    /// True for the 64 real squares.
    pub open spec fn valid(self) -> bool {
        self.0 < 64
    }

    pub open spec fn spec_file(self) -> u8 {
        (self.0 % 8) as u8
    }

    pub open spec fn spec_rank(self) -> u8 {
        (self.0 / 8) as u8
    }

    pub open spec fn spec_index(self) -> usize {
        self.0 as usize
    }

    /// Construct a square from a raw index.
    pub fn new(index: u8) -> (r: Square)
        ensures
            r.0 == index,
    {
        Square(index)
    }

    /// Construct a square from file (`0..8`, a-h) and rank (`0..8`, 1-8).
    pub fn from_file_rank(file: u8, rank: u8) -> (r: Square)
        requires
            rank * 8 + file < 256,
        ensures
            r.0 == rank * 8 + file,
    {
        Square(rank * 8 + file)
    }

    /// The square's index.
    #[verifier::when_used_as_spec(spec_index)]
    pub fn index(self) -> (r: usize)
        ensures
            r == self.0,
    {
        self.0 as usize
    }

    /// File of the square (`0 = a` ... `7 = h`).
    #[verifier::when_used_as_spec(spec_file)]
    pub fn file(self) -> (r: u8)
        ensures
            r == self.0 % 8,
    {
        let x = self.0;
        assert(x & 7 == x % 8) by (bit_vector);
        x & 7
    }

    /// Rank of the square (`0 = rank 1` ... `7 = rank 8`).
    #[verifier::when_used_as_spec(spec_rank)]
    pub fn rank(self) -> (r: u8)
        ensures
            r == self.0 / 8,
    {
        let x = self.0;
        assert(x >> 3 == x / 8) by (bit_vector);
        x >> 3
    }

    /// The square named by algebraic bytes, if they name one.
    pub open spec fn spec_from_uci_bytes(b: Seq<u8>) -> Option<Square> {
        if b.len() == 2 && 97 <= b[0] <= 104 && 49 <= b[1] <= 56 {
            Some(Square(((b[1] - 49) * 8 + (b[0] - 97)) as u8))
        } else {
            None
        }
    }

    /// Parse a square from its algebraic bytes such as `b"e4"`.
    pub fn from_uci_bytes(bytes: &[u8]) -> (r: Option<Square>)
        ensures
            r == Self::spec_from_uci_bytes(bytes@),
    {
        if bytes.len() != 2 {
            return None;
        }
        let file = bytes[0];
        let rank = bytes[1];
        if !(97 <= file && file <= 104) || !(49 <= rank && rank <= 56) {
            return None;
        }
        Some(Square::from_file_rank(file - 97, rank - 49))
    }

    /// Parse a square from algebraic notation such as `"e4"`.
    pub fn from_uci(s: &str) -> (r: Option<Square>)
        ensures
            r == Self::spec_from_uci_bytes(s.spec_bytes()),
    {
        Self::from_uci_bytes(s.as_bytes())
    }

    /// The two algebraic bytes naming this square, e.g. `b"e4"`.
    pub open spec fn spec_name(self) -> Seq<u8> {
        seq![(97 + self.0 % 8) as u8, (49 + self.0 / 8) as u8]
    }

    /// The algebraic name of the square (file letter then rank digit).
    pub fn name_bytes(self) -> (r: [u8; 2])
        requires
            self.valid(),
        ensures
            r@ == self.spec_name(),
    {
        [97 + self.file(), 49 + self.rank()]
    }

}

/// Castling availability, stored as four independent bit flags.
#[derive(Clone, Copy, PartialEq, Eq, Debug, Structural)]
pub struct CastlingRights(pub u8);

impl CastlingRights {
    /// No castling rights.
    pub fn none() -> (r: CastlingRights)
        ensures
            r.0 == 0,
    {
        CastlingRights(0)
    }

    /// White kingside (`O-O`).
    pub const WHITE_KING: u8 = 1;
    /// White queenside (`O-O-O`).
    pub const WHITE_QUEEN: u8 = 2;
    /// Black kingside.
    pub const BLACK_KING: u8 = 4;
    /// Black queenside.
    pub const BLACK_QUEEN: u8 = 8;

    /// True if the given flag (e.g. [`CastlingRights::WHITE_KING`]) is set.
    pub fn has(self, flag: u8) -> (r: bool)
        ensures
            r == (self.0 & flag != 0),
    {
        self.0 & flag != 0
    }

    /// Raw bits, also used to index the 16-entry Zobrist castling table.
    pub fn index(self) -> (r: usize)
        ensures
            r == self.0,
    {
        self.0 as usize
    }

    /// The FEN castling field: `-` or the letters of the held rights in
    /// `KQkq` order.
    pub open spec fn spec_fen(self) -> Seq<u8> {
        if self.0 == 0 {
            seq![45u8]
        } else {
            (if self.0 & 1 != 0 { seq![75u8] } else { Seq::empty() })
            + (if self.0 & 2 != 0 { seq![81u8] } else { Seq::empty() })
            + (if self.0 & 4 != 0 { seq![107u8] } else { Seq::empty() })
            + (if self.0 & 8 != 0 { seq![113u8] } else { Seq::empty() })
        }
    }

    /// Write the FEN castling field (see [`Self::spec_fen`]) onto `out`.
    pub fn push_fen(self, out: &mut Vec<u8>)
        ensures
            final(out)@ == old(out)@ + self.spec_fen(),
    {
        if self.0 == 0 {
            out.push(45);
            assert(final(out)@ =~= old(out)@ + self.spec_fen());
            return;
        }
        let ghost o = out@;
        if self.has(Self::WHITE_KING) {
            out.push(75);
        }
        let ghost o1 = out@;
        if self.has(Self::WHITE_QUEEN) {
            out.push(81);
        }
        let ghost o2 = out@;
        if self.has(Self::BLACK_KING) {
            out.push(107);
        }
        let ghost o3 = out@;
        if self.has(Self::BLACK_QUEEN) {
            out.push(113);
        }
        assert(out@ =~= o + self.spec_fen());
    }
}

} // verus!
