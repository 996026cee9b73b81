//! Board representation and move application for a chess engine: 64-bit
//! square sets, perfect-hash lookup of sliding-piece attacks, and a
//! reversible make/undo protocol on positions.

pub mod bits;
pub mod square;
pub mod bitboard;
pub mod motion;
pub mod position;
pub mod record;
pub mod rays;
pub mod magic;
pub mod movegen;
pub mod render;
