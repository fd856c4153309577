//! Squares, pieces, castling rights and the packed move encoding.

use mindless::bitboard::Bitboard;
use mindless::board::Board;
use mindless::moves::{flag, Move, MoveList};
use mindless::perft::is_playable;
use mindless::types::{CastlingRights, Color, Piece, PieceType, Square};

#[test]
fn squares_by_name() {
    assert_eq!(Square::from_uci("a1"), Some(Square::new(0)));
    assert_eq!(Square::from_uci("h8"), Some(Square::new(63)));
    assert_eq!(Square::from_uci("e4"), Some(Square::from_file_rank(4, 3)));
    assert_eq!(Square::from_uci("i1"), None);
    assert_eq!(Square::from_uci("a9"), None);
    assert_eq!(Square::from_uci("a10"), None);
    assert_eq!(Square::new(28).name_bytes(), *b"e4");
    let sq = Square::new(46);
    assert_eq!((sq.file(), sq.rank()), (6, 5));
}

#[test]
fn pieces_and_letters() {
    for i in 0..Piece::COUNT {
        let p = Piece::from_index(i);
        assert_eq!(p.index(), i);
        assert_eq!(Piece::from_char(p.to_char()), Some(p));
        assert_eq!(Piece::make(p.color(), p.piece_type()), p);
    }
    assert_eq!(Piece::from_char('Q'), Some(Piece::make(Color::White, PieceType::Queen)));
    assert_eq!(Piece::from_char('k'), Some(Piece::make(Color::Black, PieceType::King)));
    assert_eq!(Piece::from_char('x'), None);
    assert_eq!(Color::White.flip(), Color::Black);
}

#[test]
fn castling_rights_text() {
    let mut out = Vec::new();
    CastlingRights(0).push_fen(&mut out);
    assert_eq!(out, b"-");
    let mut out = Vec::new();
    CastlingRights(CastlingRights::WHITE_KING | CastlingRights::BLACK_QUEEN).push_fen(&mut out);
    assert_eq!(out, b"Kq");
    assert!(CastlingRights(15).has(CastlingRights::BLACK_KING));
    assert!(!CastlingRights(3).has(CastlingRights::BLACK_KING));
}

#[test]
fn move_encoding_round_trips() {
    let m = Move::new(Square::new(52), Square::new(60), flag::PROMO_QUEEN_CAPTURE);
    assert_eq!(m.from(), Square::new(52));
    assert_eq!(m.to(), Square::new(60));
    assert!(m.is_capture() && m.is_promotion());
    assert_eq!(m.promotion(), Some(PieceType::Queen));
    assert_eq!(m.to_uci(), "e7e8q");
    assert_eq!(Move::from_bits(m.to_bits()), m);
    assert!(Move::null().is_null());
    assert_eq!(Move::null().to_uci(), "0000");
    let ep = Move::new(Square::new(36), Square::new(43), flag::EN_PASSANT);
    assert!(ep.is_en_passant() && ep.is_capture() && !ep.is_promotion());
    let castle = Move::new(Square::new(4), Square::new(6), flag::KING_CASTLE);
    assert!(castle.is_castle() && !castle.is_capture());
}

#[test]
fn move_list_basics() {
    let mut list = MoveList::new();
    assert!(list.is_empty());
    assert!(MoveList::default().is_empty());
    list.push(Move::new(Square::new(12), Square::new(28), flag::DOUBLE_PAWN));
    assert_eq!(list.len(), 1);
    assert_eq!(list.as_slice()[0].to_uci(), "e2e4");
}

#[test]
fn playability() {
    let board = Board::startpos();
    assert!(is_playable(&board, 6));
    let no_kings = Board::from_fen("8/8/8/8/8/8/8/8 w - - 0 1").unwrap();
    assert!(!is_playable(&no_kings, 1));
    let late = Board::from_fen("8/8/8/4k3/8/4K3/8/8 w - - 0 65535").unwrap();
    assert!(is_playable(&late, 0));
    assert!(!is_playable(&late, 1));
}

#[test]
fn bitboard_squares_ascend() {
    let b = Bitboard::from_square(Square::new(40))
        .or(Bitboard::from_square(Square::new(3)))
        .or(Bitboard::from_square(Square::new(17)));
    let sq: Vec<u8> = b.squares().iter().map(|s| s.0).collect();
    assert_eq!(sq, vec![3, 17, 40]);
    assert!(Bitboard::empty().squares().is_empty());
    assert_eq!(Bitboard::full().squares().len(), 64);
}
