use vstd::prelude::*;

use crate::board_item::BoardItem;
use crate::board_state::BoardOutcome;
use crate::player::Player;

verus! {

/// One tile of a region's 3x3 board.
#[derive(Clone, Copy, Debug, PartialEq, Eq, Structural)]
pub enum Tile {
    Unmarked,
    Marked(Player),
}

/// What happened when a play was handed to the rules engine.
#[derive(Clone, Copy, Debug, PartialEq, Eq, Structural)]
pub enum MarkTileResult {
    /// No tile has been marked.
    NoChange,
    /// A tile has been marked, but the outcome has not been decided yet.
    TileMarked,
    /// A tile has been marked, and the outcome has been decided.
    OutcomeDecided(BoardOutcome),
}

impl BoardItem for Tile {
    open spec fn spec_markable(self) -> bool {
        self is Unmarked
    }

    open spec fn spec_marked_by(self, player: Player) -> bool {
        self == Tile::Marked(player)
    }

    fn is_markable(&self) -> (r: bool) {
        matches!(*self, Tile::Unmarked)
    }

    fn is_marked_by(&self, player: Player) -> (r: bool) {
        match *self {
            Tile::Marked(p) => p == player,
            Tile::Unmarked => false,
        }
    }
}

} // verus!
