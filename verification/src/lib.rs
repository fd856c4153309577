//! Mindless: a chess engine library with verified move representation,
//! board bookkeeping and search infrastructure.

pub mod bits;
pub mod types;
pub mod bitboard;
pub mod text;
pub mod moves;
pub mod zobrist;
pub mod attacks;
pub mod magic;
pub mod position;
pub mod board;
pub mod fen;
pub mod movegen;
pub mod perft;
pub mod eval;
pub mod see;
pub mod tt;
pub mod clock;
pub mod search;
pub mod nnue;
pub mod fen_law;
pub mod datagen;
pub mod uci;
pub mod display;
