use vstd::prelude::*;
use crate::game::{Square, Move, Piece, BoardState};

verus! {

/// A choice in the game seen as a tree: the position dealt at the root, a
/// sense, or a move (`None` passes).
#[derive(Debug, Clone, PartialEq, Eq)]
pub enum Action {
    ChoosePosition(BoardState),
    Sense(Square),
    Move(Option<Move>),
}

/// One thing a player learns: the position it was dealt, what a sense
/// showed, where the other side took a piece, or how its own move went.
#[derive(Debug, Clone, PartialEq, Eq, Hash)]
pub enum Inflet {
    ChoosePosition(BoardState),
    Sense(Square, Vec<(Square, Option<Piece>)>),
    OpponentCapture(Option<Square>),
    Move { requested: Option<Move>, taken: Option<Move>, capture: Option<Square> },
}

} // verus!
