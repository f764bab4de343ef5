//! A bitboard-based move-generation engine for chess-like games on
//! rectangular grids, with fully reversible move application.
pub mod actions;
pub mod bits;
pub mod board;
pub mod edges;
pub mod moves;
pub mod pawn;
pub mod pieces;
pub mod sliders;
pub mod state;

pub use bits::BitBoard;
pub use bits::BitSet;
pub use bits::Direction;
