use vstd::prelude::*;

use crate::player::Player;

verus! {

/// Something that can occupy one slot of a 3x3 board: a [`crate::tile::Tile`]
/// on a region's board, or a whole [`crate::region::Region`] on the top-level
/// board.
pub trait BoardItem: Sized {
    /// Whether this slot can still be marked.
    spec fn spec_markable(self) -> bool;

    /// Whether this slot counts as marked by `player` when looking for a
    /// three-in-a-line.
    spec fn spec_marked_by(self, player: Player) -> bool;

    /// Returns whether this slot can still be marked.
    fn is_markable(&self) -> (r: bool)
        ensures
            r == self.spec_markable(),
    ;

    /// Returns whether this slot counts as marked by `player`.
    fn is_marked_by(&self, player: Player) -> (r: bool)
        ensures
            r == self.spec_marked_by(player),
    ;
}

} // verus!
