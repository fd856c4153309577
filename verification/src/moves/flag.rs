//! Move flag values stored in the top nibble of a [`Move`](crate::moves::Move).
//!
//! Bit 2 marks captures, bit 3 marks promotions, and the low two bits of a
//! promotion select the piece (knight, bishop, rook, queen).

use vstd::prelude::*;

verus! {

/// A non-capturing, non-special move.
pub const QUIET: u16 = 0;
/// A pawn's initial two-square advance.
pub const DOUBLE_PAWN: u16 = 1;
/// Kingside castling (`O-O`).
pub const KING_CASTLE: u16 = 2;
/// Queenside castling (`O-O-O`).
pub const QUEEN_CASTLE: u16 = 3;
/// A capture that is not a promotion or en passant.
pub const CAPTURE: u16 = 4;
/// An en-passant capture.
pub const EN_PASSANT: u16 = 5;
/// Promotion to knight (no capture).
pub const PROMO_KNIGHT: u16 = 8;
/// Promotion to bishop (no capture).
pub const PROMO_BISHOP: u16 = 9;
/// Promotion to rook (no capture).
pub const PROMO_ROOK: u16 = 10;
/// Promotion to queen (no capture).
pub const PROMO_QUEEN: u16 = 11;
/// Capture with promotion to knight.
pub const PROMO_KNIGHT_CAPTURE: u16 = 12;
/// Capture with promotion to bishop.
pub const PROMO_BISHOP_CAPTURE: u16 = 13;
/// Capture with promotion to rook.
pub const PROMO_ROOK_CAPTURE: u16 = 14;
/// Capture with promotion to queen.
pub const PROMO_QUEEN_CAPTURE: u16 = 15;
/// Bit set on every capturing flag (plain, en passant, promotion capture).
pub const CAPTURE_BIT: u16 = 4;
/// Bit set on every promotion flag.
pub const PROMO_BIT: u16 = 8;

} // verus!
