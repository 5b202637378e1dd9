//! Bitboard board model and pseudo-legal move generation for a chess engine.
pub mod bitboard;
pub mod board;
pub mod moves;
pub mod apply;
pub mod notation;
