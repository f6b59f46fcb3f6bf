use vstd::prelude::*;

use crate::board::{board_state_of, Board};
use crate::board_index::{BoardIndex, N};
use crate::board_item::BoardItem;
use crate::board_state::{BoardOutcome, BoardState};
use crate::player::Player;
use crate::tile::{MarkTileResult, Tile};

verus! {

/// One of the nine 3x3 sub-boards of a game, with its cached state.
#[derive(Clone, Debug)]
pub struct Region {
    pub board: Board<Tile>,
    pub state: BoardState,
}

/// The mathematical value of a [`Region`]: its nine tiles and its state.
#[verifier::ext_equal]
pub ghost struct RegionS {
    pub tiles: Seq<Tile>,
    pub state: BoardState,
}

impl View for Region {
    type V = RegionS;

    open spec fn view(&self) -> RegionS {
        RegionS { tiles: self.board.tiles@, state: self.state }
    }
}

impl RegionS {
    /// The cached state always equals the state recomputed from the tiles.
    pub open spec fn wf(self) -> bool {
        &&& self.tiles.len() == N
        &&& self.state == board_state_of(self.tiles)
    }
}

/// What [`Region::mark_tile`] does: the region afterwards, and what it
/// reports.
///
/// A play on a completed region or on an already-marked tile changes
/// nothing; otherwise the tile is marked and the region's state is
/// recomputed from its tiles.
pub open spec fn region_mark_spec(rs: RegionS, index: BoardIndex, player: Player) -> (
    RegionS,
    MarkTileResult,
) {
    if !(rs.state is InProgress && rs.tiles[index.as_int()] is Unmarked) {
        (rs, MarkTileResult::NoChange)
    } else {
        let tiles2 = rs.tiles.update(index.as_int(), Tile::Marked(player));
        let state2 = board_state_of(tiles2);
        let rs2 = RegionS { tiles: tiles2, state: state2 };
        match state2 {
            BoardState::InProgress => (rs2, MarkTileResult::TileMarked),
            BoardState::Complete(outcome) => (rs2, MarkTileResult::OutcomeDecided(outcome)),
        }
    }
}

impl Region {
    /// A fresh region: all tiles unmarked, still in progress.
    pub fn new() -> (r: Region)
        ensures
            r@.wf(),
            r@.tiles =~= Seq::new(N as nat, |i: int| Tile::Unmarked),
            r@.state == BoardState::InProgress,
    {
        let mut tiles: Vec<Tile> = Vec::new();
        let mut i: usize = 0;
        while i < N
            invariant
                i <= N,
                tiles@.len() == i,
                forall|k: int| 0 <= k < i ==> tiles@[k] == Tile::Unmarked,
            decreases N - i,
        {
            tiles.push(Tile::Unmarked);
            i = i + 1;
        }
        let board = Board { tiles };
        proof {
            lemma_all_unmarked_in_progress(board.tiles@);
        }
        Region { board, state: BoardState::InProgress }
    }

    /// Marks the tile at `index` for `player`, then refreshes the region's
    /// cached state; reports what happened exactly as
    /// [`region_mark_spec`] says.
    pub fn mark_tile(&mut self, index: BoardIndex, player: Player) -> (r: MarkTileResult)
        requires
            old(self)@.wf(),
        ensures
            final(self)@.wf(),
            (final(self)@, r) == region_mark_spec(old(self)@, index, player),
    {
        if !self.is_tile_enabled(index) {
            return MarkTileResult::NoChange;
        }
        self.board.set(index, Tile::Marked(player));
        match self.board.get_state() {
            BoardState::InProgress => MarkTileResult::TileMarked,
            BoardState::Complete(outcome) => {
                self.state = BoardState::Complete(outcome);
                MarkTileResult::OutcomeDecided(outcome)
            },
        }
    }

    /// Returns whether the tile at `index` may be marked: the region is
    /// still in progress and the tile is unmarked.
    pub fn is_tile_enabled(&self, index: BoardIndex) -> (r: bool)
        requires
            self@.wf(),
        ensures
            r == (self@.state is InProgress && self@.tiles[index.as_int()] is Unmarked),
    {
        self.is_markable() && self.board.get(index).is_markable()
    }
}

impl BoardItem for Region {
    /// A region counts as won by `player` when its cached state says so.
    open spec fn spec_marked_by(self, player: Player) -> bool {
        self.state == BoardState::Complete(BoardOutcome::WonBy(player))
    }

    /// A region can still take marks while its cached state is in progress.
    open spec fn spec_markable(self) -> bool {
        self.state is InProgress
    }

    fn is_marked_by(&self, player: Player) -> (r: bool) {
        match self.state {
            BoardState::Complete(BoardOutcome::WonBy(p)) => p == player,
            _ => false,
        }
    }

    fn is_markable(&self) -> (r: bool) {
        matches!(self.state, BoardState::InProgress)
    }
}

/// A board with every tile unmarked is still in progress.
pub proof fn lemma_all_unmarked_in_progress(s: Seq<Tile>)
    requires
        s.len() == N,
        forall|k: int| 0 <= k < N ==> s[k] == Tile::Unmarked,
    ensures
        board_state_of(s) == BoardState::InProgress,
{
    assert forall|l: int, p: Player| 0 <= l < crate::board_index::N_LINES implies !crate::board::line_won_by(
        s,
        l,
        p,
    ) by {
        let (a, b, c) = crate::board_index::spec_line(l);
        assert(s[a] == Tile::Unmarked);
    }
    assert(s[0].spec_markable());
}

} // verus!
