use vstd::prelude::*;

use crate::player::Player;

verus! {

/// Whether a board (a region, or the whole game) is still being played.
#[derive(Clone, Copy, Debug, PartialEq, Eq, Structural)]
pub enum BoardState {
    InProgress,
    Complete(BoardOutcome),
}

/// The outcome of a completed board.
#[derive(Clone, Copy, Debug, PartialEq, Eq, Structural)]
pub enum BoardOutcome {
    Draw,
    WonBy(Player),
}

} // verus!
