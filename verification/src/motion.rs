//! Moves as requests: where from, where to, and what else the mover asks for.

use vstd::prelude::*;
use crate::square::Square;
use crate::position::PieceKind;

verus! {

/// A request to move the piece on `from` to `to`.  Whether it can be carried
/// out is for the position to say.
#[derive(Clone, Copy, Debug, Eq, PartialEq)]
pub struct Move {
    pub from: Square,
    pub to: Square,
    pub promote_to: Option<PieceKind>,
    pub castling: Option<CastlingType>,
}

/// The wing to which a king castles.
#[derive(Clone, Copy, Debug, Eq, PartialEq, Structural)]
pub enum CastlingType {
    Kingside,
    Queenside,
}

} // verus!
