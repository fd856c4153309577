//! Text for people: the board diagram and FEN error messages.

use mindless::bitboard::Bitboard;
use mindless::board::Board;
use mindless::fen::FenError;
use mindless::types::{CastlingRights, Square};

#[test]
fn startpos_diagram() {
    let board = Board::startpos();
    let expected = format!(
        "  +-----------------+\n\
         8 | r n b q k b n r |\n\
         7 | p p p p p p p p |\n\
         6 | . . . . . . . . |\n\
         5 | . . . . . . . . |\n\
         4 | . . . . . . . . |\n\
         3 | . . . . . . . . |\n\
         2 | P P P P P P P P |\n\
         1 | R N B Q K B N R |\n\
         \x20 +-----------------+\n\
         \x20   a b c d e f g h\n\
         FEN: rnbqkbnr/pppppppp/8/8/8/8/PPPPPPPP/RNBQKBNR w KQkq - 0 1\n\
         Key: {:016x}",
        board.zobrist_key()
    );
    assert_eq!(board.diagram(), expected);
}

#[test]
fn diagram_key_is_sixteen_hex_digits() {
    let board = Board::from_fen("8/8/8/4k3/8/4K3/8/8 w - - 0 1").unwrap();
    let text = board.diagram();
    let key_line = text.lines().last().unwrap();
    assert_eq!(key_line, format!("Key: {:016x}", board.zobrist_key()));
    assert_eq!(key_line.len(), 5 + 16);
}

fn fen_error(fen: &str) -> FenError {
    match Board::from_fen(fen) {
        Ok(_) => panic!("accepted {fen}"),
        Err(e) => e,
    }
}

#[test]
fn fen_error_messages() {
    let e = fen_error("8/8/8/8/8/8/8/8 w");
    assert_eq!(e, FenError::MissingField("castling rights"));
    assert_eq!(e.message(), "FEN missing field: castling rights");

    let e = fen_error("8/8/8/8/8/8/8/8 x - -");
    assert_eq!(e.message(), "invalid FEN side to move: x");

    let e = fen_error("8/8/8/8/8/8/8/8 w KX -");
    assert_eq!(e.message(), "invalid FEN castling: X");

    let e = fen_error("8/8/8/8/8/8/8/8 w - e9");
    assert_eq!(e.message(), "invalid FEN en passant: e9");

    let e = fen_error("8/8/8/8/8/8/8/8 w - - 0 -3");
    assert_eq!(e.message(), "invalid FEN fullmove number: -3");

    let e = fen_error("8/8/8/8/8/8/8 w - -");
    assert_eq!(e.message(), "invalid FEN placement: expected 8 ranks");

    let e = fen_error("8/8/8/8/8/8/8/7x w - -");
    assert_eq!(e.message(), "invalid FEN placement: 'x'");
}

#[test]
fn bitboard_grid() {
    let b = Bitboard::from_square(Square::new(0)).or(Bitboard::from_square(Square::new(63)));
    let expected = "\n\
        . . . . . . . X \n\
        . . . . . . . . \n\
        . . . . . . . . \n\
        . . . . . . . . \n\
        . . . . . . . . \n\
        . . . . . . . . \n\
        . . . . . . . . \n\
        X . . . . . . . \n";
    assert_eq!(b.grid(), expected);
}

#[test]
fn square_and_castling_text() {
    assert_eq!(Square::new(0).name(), "a1");
    assert_eq!(Square::new(60).name(), "e8");
    assert_eq!(CastlingRights(0).text(), "-");
    assert_eq!(CastlingRights(15).text(), "KQkq");
    assert_eq!(CastlingRights(CastlingRights::WHITE_QUEEN | CastlingRights::BLACK_KING).text(), "Qk");
}
