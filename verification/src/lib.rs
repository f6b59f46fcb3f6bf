//! A playable "super" tic-tac-toe: nine 3x3 regions arranged in a 3x3 grid,
//! with a forced-region rule, together with computer players.
//!
//! The rules engine lives in [`board`], [`region`] and [`game`]; the Monte
//! Carlo tree search player in [`mct`]; a uniformly random player in
//! [`random`]; and an exhaustive game-tree scorer in [`exhaustive`].

pub mod board;
pub mod board_index;
pub mod board_item;
pub mod board_iter;
pub mod board_state;
pub mod exhaustive;
pub mod fixed;
pub mod game;
pub mod mct;
pub mod player;
pub mod random;
pub mod region;
pub mod rng;
pub mod tile;

pub use board::Board;
pub use board_index::BoardIndex;
pub use board_item::BoardItem;
pub use board_iter::{BoardEnumerate, Unmarked};
pub use board_state::{BoardOutcome, BoardState};
pub use game::{Game, Play};
pub use player::Player;
pub use region::Region;
pub use tile::{MarkTileResult, Tile};
