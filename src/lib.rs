//! Board state for an eight-by-eight game: bit-packed occupancy sets, square
//! names, and a board built from a set per coloured piece.

pub mod bitboard;
pub mod board_representation;
pub mod errors;
