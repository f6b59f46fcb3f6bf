use vstd::prelude::*;

verus! {

/// One of the two players. `Circle` always moves first.
#[derive(Clone, Copy, Debug, PartialEq, Eq, Structural)]
pub enum Player {
    Circle,
    Cross,
}

impl Player {
    /// The opponent of this player.
    pub open spec fn spec_other(self) -> Player {
        match self {
            Player::Circle => Player::Cross,
            Player::Cross => Player::Circle,
        }
    }

    /// Returns the opponent of this player.
    pub fn other(self) -> (r: Player)
        ensures
            r == self.spec_other(),
    {
        match self {
            Player::Circle => Player::Cross,
            Player::Cross => Player::Circle,
        }
    }
}

} // verus!
