//! A verified chess position engine: bitboard storage, legality-aware move
//! generation per piece kind, a move-application transition function covering
//! captures, en passant, promotion and castling, and FEN import/export.
//!
//! Squares are numbered `column + 8 * row`, where row 0 is the rank FEN
//! lists first (black's back rank) and black pawns advance toward higher
//! rows. Every square set is a 64-bit mask over these indices.

pub mod apply;
pub mod bits;
pub mod board;
pub mod fen;
pub mod game;
pub mod input;
pub mod laws;
pub mod movegen;
pub mod moves;
pub mod notation;
pub mod piece;
