use vstd::prelude::*;

use crate::board::{board_state_of, Board};
use crate::board_index::{spec_line, BoardIndex, N, N_LINES};
use crate::board_item::BoardItem;
use crate::board_state::{BoardOutcome, BoardState};
use crate::player::Player;
use crate::region::{region_mark_spec, Region, RegionS};
use crate::tile::{MarkTileResult, Tile};

verus! {

/// A move: the region to play in, and the tile within that region.
pub type Play = (BoardIndex, BoardIndex);

/// The whole game: nine regions, the cached top-level state, the player to
/// move, and the tile index of the previous move (which forces the region
/// the opponent must answer in).
#[derive(Clone, Debug)]
pub struct Game {
    pub board: Board<Region>,
    pub state: BoardState,
    pub current_player: Player,
    pub previous_play_index: Option<BoardIndex>,
}

/// The mathematical value of a [`Game`].
#[verifier::ext_equal]
pub ghost struct GameS {
    pub regions: Seq<RegionS>,
    pub state: BoardState,
    pub current_player: Player,
    pub previous_play_index: Option<BoardIndex>,
}

impl View for Game {
    type V = GameS;

    open spec fn view(&self) -> GameS {
        GameS {
            regions: self.board.tiles@.map_values(|r: Region| r@),
            state: self.state,
            current_player: self.current_player,
            previous_play_index: self.previous_play_index,
        }
    }
}

/// Whether the region slot `rs` counts as marked by `p` on the top-level
/// board: it is complete and won by `p`.
pub open spec fn region_slot_marked_by(rs: RegionS, p: Player) -> bool {
    rs.state == BoardState::Complete(BoardOutcome::WonBy(p))
}

/// Whether the region slot `rs` can still take marks: it is in progress.
pub open spec fn region_slot_markable(rs: RegionS) -> bool {
    rs.state is InProgress
}

/// Whether player `p` owns the `l`-th line of the top-level board.
pub open spec fn regions_line_won_by(s: Seq<RegionS>, l: int, p: Player) -> bool {
    let (a, b, c) = spec_line(l);
    &&& region_slot_marked_by(s[a], p)
    &&& region_slot_marked_by(s[b], p)
    &&& region_slot_marked_by(s[c], p)
}

/// Whether player `p` owns at least one line of the top-level board.
pub open spec fn regions_won_by(s: Seq<RegionS>, p: Player) -> bool {
    exists|l: int| 0 <= l < N_LINES && regions_line_won_by(s, l, p)
}

/// Whether every region of the top-level board is complete.
pub open spec fn regions_filled(s: Seq<RegionS>) -> bool {
    forall|i: int| 0 <= i < N ==> !region_slot_markable(#[trigger] s[i])
}

/// The top-level state of the game: won by whoever owns a line of regions
/// (with `Circle` checked first), drawn when every region is complete and
/// nobody owns a line, and in progress otherwise.
pub open spec fn regions_state(s: Seq<RegionS>) -> BoardState {
    if regions_won_by(s, Player::Circle) {
        BoardState::Complete(BoardOutcome::WonBy(Player::Circle))
    } else if regions_won_by(s, Player::Cross) {
        BoardState::Complete(BoardOutcome::WonBy(Player::Cross))
    } else if regions_filled(s) {
        BoardState::Complete(BoardOutcome::Draw)
    } else {
        BoardState::InProgress
    }
}

impl GameS {
    /// Every region is internally consistent, and both cached states equal
    /// what recomputation from the tiles would give.
    pub open spec fn wf(self) -> bool {
        &&& self.regions.len() == N
        &&& forall|i: int| 0 <= i < N ==> (#[trigger] self.regions[i]).wf()
        &&& self.state == regions_state(self.regions)
    }

    /// The region the mover is constrained to, if any: the region named by
    /// the previous move's tile index, unless that region is already
    /// complete (or there is no previous move).
    pub open spec fn allowed_region(self) -> Option<BoardIndex> {
        match self.previous_play_index {
            Option::None => Option::None,
            Option::Some(i) => if region_slot_markable(self.regions[i.as_int()]) {
                Option::Some(i)
            } else {
                Option::None
            },
        }
    }

    /// Whether the mover may play in region `index`: the game is still in
    /// progress and the forced-region rule allows it.
    pub open spec fn region_enabled(self, index: BoardIndex) -> bool {
        &&& self.state is InProgress
        &&& (self.allowed_region() is None || self.allowed_region() == Option::Some(index))
    }

    /// Whether `play` would actually mark a tile: its region is enabled and
    /// still in progress, and its tile is unmarked.
    pub open spec fn play_legal(self, play: Play) -> bool {
        &&& self.region_enabled(play.0)
        &&& region_slot_markable(self.regions[play.0.as_int()])
        &&& self.regions[play.0.as_int()].tiles[play.1.as_int()] is Unmarked
    }
}

/// What [`Game::mark_tile`] does: the game afterwards, and what it reports.
///
/// An illegal play changes nothing. A legal play marks the tile for the
/// mover, refreshes the region's state, refreshes the top-level state when
/// the region completed, always flips the mover, and always records the
/// tile index as the next forced region.
#[verifier::opaque]
pub open spec fn mark_spec(g: GameS, play: Play) -> (GameS, MarkTileResult) {
    if !g.play_legal(play) {
        (g, MarkTileResult::NoChange)
    } else {
        let r = play.0.as_int();
        let t = play.1.as_int();
        let (region2, rres) = region_mark_spec(g.regions[r], play.1, g.current_player);
        let regions2 = g.regions.update(r, region2);
        let state2 = if region2.state is Complete {
            regions_state(regions2)
        } else {
            g.state
        };
        let result = match state2 {
            BoardState::Complete(outcome) => MarkTileResult::OutcomeDecided(outcome),
            BoardState::InProgress => MarkTileResult::TileMarked,
        };
        let g2 = GameS {
            regions: regions2,
            state: state2,
            current_player: g.current_player.spec_other(),
            previous_play_index: Option::Some(play.1),
        };
        (g2, result)
    }
}

impl Game {
    /// Well-formedness of the executable value: the vectors have the right
    /// lengths and the view is consistent.
    pub open spec fn wf(self) -> bool {
        &&& self.board.wf()
        &&& forall|i: int| 0 <= i < N ==> (#[trigger] self.board.tiles@[i])@.tiles.len() == N
        &&& self@.wf()
    }

    /// A fresh game: all tiles unmarked, `Circle` to move, no forced region.
    pub fn new() -> (g: Game)
        ensures
            g.wf(),
            g@.state == BoardState::InProgress,
            g@.current_player == Player::Circle,
            g@.previous_play_index is None,
            forall|r: int, t: int|
                0 <= r < N && 0 <= t < N ==> (#[trigger] g@.regions[r].tiles[t]) is Unmarked,
    {
        let mut regions: Vec<Region> = Vec::new();
        let mut i: usize = 0;
        while i < N
            invariant
                i <= N,
                regions@.len() == i,
                forall|k: int| 0 <= k < i ==> (#[trigger] regions@[k])@.wf(),
                forall|k: int| 0 <= k < i ==> (#[trigger] regions@[k])@.state is InProgress,
                forall|k: int, t: int|
                    0 <= k < i && 0 <= t < N ==> (#[trigger] regions@[k]@.tiles[t]) is Unmarked,
            decreases N - i,
        {
            regions.push(Region::new());
            i = i + 1;
        }
        let g = Game {
            board: Board { tiles: regions },
            state: BoardState::InProgress,
            current_player: Player::Circle,
            previous_play_index: Option::None,
        };
        proof {
            lemma_no_complete_regions_in_progress(g@.regions);
        }
        g
    }

    /// Returns the index of the region that the current player has to play
    /// in, or `None` when the player may play in any region.
    pub fn allowed_region_index(&self) -> (r: Option<BoardIndex>)
        requires
            self.wf(),
        ensures
            r == self@.allowed_region(),
    {
        match self.previous_play_index {
            Option::None => Option::None,
            Option::Some(i) => {
                if self.board.get(i).is_markable() {
                    Option::Some(i)
                } else {
                    Option::None
                }
            },
        }
    }

    /// Returns whether the current player may play in region `index`.
    pub fn is_region_enabled(&self, index: BoardIndex) -> (r: bool)
        requires
            self.wf(),
        ensures
            r == self@.region_enabled(index),
    {
        let in_progress = matches!(self.state, BoardState::InProgress);
        if !in_progress {
            return false;
        }
        match self.allowed_region_index() {
            Option::None => true,
            Option::Some(i) => i == index,
        }
    }

    /// Applies `play` for the current player, exactly as [`mark_spec`]
    /// says: an illegal play reports `NoChange` and leaves the game
    /// untouched; a legal one marks the tile, refreshes the cached states,
    /// flips the mover and records the forced region.
    pub fn mark_tile(&mut self, play: Play) -> (r: MarkTileResult)
        requires
            old(self).wf(),
        ensures
            final(self).wf(),
            (final(self)@, r) == mark_spec(old(self)@, play),
    {
        proof {
            reveal(crate::game::mark_spec);
        }
        let (region_index, tile_index) = play;
        if !self.is_region_enabled(region_index) {
            return MarkTileResult::NoChange;
        }
        let ri = region_index.to_usize();
        proof {
            assert(0 <= region_index.as_int() < N);
            assert(old(self)@.regions[ri as int] == old(self).board.tiles@[ri as int]@);
            assert(old(self)@.regions[ri as int].wf());
        }
        let region = &mut self.board.tiles[ri];
        let rres = region.mark_tile(tile_index, self.current_player);
        proof {
            assert(self@.regions =~= old(self)@.regions.update(
                region_index.as_int(),
                region_mark_spec(
                    old(self)@.regions[region_index.as_int()],
                    tile_index,
                    old(self).current_player,
                ).0,
            ));
        }
        let result = match rres {
            MarkTileResult::NoChange => {
                proof {
                    assert(self@ =~= old(self)@);
                }
                return MarkTileResult::NoChange;
            },
            MarkTileResult::TileMarked => {
                proof {
                    lemma_regions_state_same_states(old(self)@.regions, self@.regions);
                }
                MarkTileResult::TileMarked
            },
            MarkTileResult::OutcomeDecided(_) => {
                proof {
                    lemma_regions_state_view(self.board.tiles@);
                }
                match self.board.get_state() {
                    BoardState::InProgress => MarkTileResult::TileMarked,
                    BoardState::Complete(outcome) => {
                        self.state = BoardState::Complete(outcome);
                        MarkTileResult::OutcomeDecided(outcome)
                    },
                }
            },
        };
        self.current_player = self.current_player.other();
        self.previous_play_index = Option::Some(tile_index);
        result
    }
}

impl Game {
    /// Returns a copy of this game with the very same contents.
    pub fn duplicate(&self) -> (g: Game)
        requires
            self.wf(),
        ensures
            g.wf(),
            g@ == self@,
    {
        let mut regions: Vec<Region> = Vec::new();
        let mut i: usize = 0;
        while i < N
            invariant
                self.wf(),
                i <= N,
                regions@.len() == i,
                forall|k: int| 0 <= k < i ==> (#[trigger] regions@[k])@ == self@.regions[k],
            decreases N - i,
        {
            let src = &self.board.tiles[i];
            let mut tiles: Vec<Tile> = Vec::new();
            let mut j: usize = 0;
            while j < N
                invariant
                    j <= N,
                    tiles@.len() == j,
                    src@.tiles.len() == N,
                    forall|k: int| 0 <= k < j ==> tiles@[k] == src@.tiles[k],
                decreases N - j,
            {
                tiles.push(src.board.tiles[j]);
                j = j + 1;
            }
            let copy = Region { board: Board { tiles }, state: src.state };
            proof {
                assert(copy@ =~= self@.regions[i as int]);
            }
            regions.push(copy);
            i = i + 1;
        }
        let g = Game {
            board: Board { tiles: regions },
            state: self.state,
            current_player: self.current_player,
            previous_play_index: self.previous_play_index,
        };
        proof {
            assert(g@ =~~= self@);
        }
        g
    }

    /// Collects every legal play from this game's state: all unmarked tiles
    /// of the forced region, or of every open region when the mover is
    /// unconstrained. An in-progress game always has at least one.
    pub fn legal_plays(&self) -> (v: Vec<Play>)
        requires
            self.wf(),
            self@.state is InProgress,
        ensures
            forall|p: Play| v@.contains(p) <==> self@.play_legal(p),
            forall|k1: int, k2: int| 0 <= k1 < k2 < v@.len() ==> v@[k1] != v@[k2],
            v@.len() > 0,
            v@.len() <= N * N,
    {
        let mut v: Vec<Play> = Vec::new();
        match self.allowed_region_index() {
            Option::Some(ri) => {
                let tiles = self.board.get(ri).board.unmarked_indices();
                let mut j: usize = 0;
                while j < tiles.len()
                    invariant
                        v@.len() <= j,
                        tiles@.len() <= N,
                        self.wf(),
                        self@.state is InProgress,
                        self@.allowed_region() == Option::Some(ri),
                        forall|b: BoardIndex|
                            tiles@.contains(b) <==> self@.regions[ri.as_int()].tiles[b.as_int()] is Unmarked,
                        j <= tiles@.len(),
                        forall|k1: int, k2: int|
                            0 <= k1 < k2 < tiles@.len() ==> tiles@[k1].as_int()
                                < tiles@[k2].as_int(),
                        forall|p: Play|
                            v@.contains(p) <==> (exists|k: int|
                                0 <= k < j && p == (ri, #[trigger] tiles@[k])),
                        forall|k1: int, k2: int| 0 <= k1 < k2 < v@.len() ==> v@[k1] != v@[k2],
                    decreases tiles@.len() - j,
                {
                    let ghost old_v = v@;
                    v.push((ri, tiles[j]));
                    proof {
                        assert(!old_v.contains((ri, tiles@[j as int]))) by {
                            if old_v.contains((ri, tiles@[j as int])) {
                                let k = choose|k: int|
                                    0 <= k < j && (ri, tiles@[j as int]) == (
                                    ri,
                                    #[trigger] tiles@[k],
                                );
                                assert(tiles@[k].as_int() < tiles@[j as int].as_int());
                            }
                        }
                        assert forall|k1: int, k2: int|
                            0 <= k1 < k2 < v@.len() implies v@[k1] != v@[k2] by {
                            if k2 == v@.len() - 1 {
                                assert(v@[k1] == old_v[k1]);
                                assert(old_v.contains(old_v[k1]));
                            }
                        }
                        assert forall|p: Play|
                            v@.contains(p) <==> (exists|k: int|
                                0 <= k < j + 1 && p == (ri, #[trigger] tiles@[k])) by {
                            if v@.contains(p) {
                                let k = choose|k: int| 0 <= k < v@.len() && v@[k] == p;
                                if k < old_v.len() {
                                    assert(old_v[k] == p);
                                    assert(old_v.contains(p));
                                } else {
                                    assert(p == (ri, tiles@[j as int]));
                                }
                            }
                            if exists|k: int| 0 <= k < j + 1 && p == (ri, #[trigger] tiles@[k]) {
                                let k = choose|k: int|
                                    0 <= k < j + 1 && p == (ri, #[trigger] tiles@[k]);
                                if k < j {
                                    assert(old_v.contains(p));
                                    let m = choose|m: int|
                                        0 <= m < old_v.len() && old_v[m] == p;
                                    assert(v@[m] == p);
                                } else {
                                    assert(v@[v@.len() - 1] == p);
                                }
                            }
                        }
                    }
                    j = j + 1;
                }
                proof {
                    assert forall|p: Play| v@.contains(p) implies self@.play_legal(p) by {
                        let k = choose|k: int| 0 <= k < j && p == (ri, tiles@[k]);
                        assert(tiles@.contains(tiles@[k]));
                    }
                    assert forall|p: Play| self@.play_legal(p) implies v@.contains(p) by {
                        assert(p.0 == ri);
                        assert(tiles@.contains(p.1));
                        let k = choose|k: int| 0 <= k < tiles@.len() && tiles@[k] == p.1;
                        assert(p == (ri, tiles@[k]));
                    }
                }
            },
            Option::None => {
                let open_regions = self.board.unmarked_indices();
                let mut i: usize = 0;
                while i < open_regions.len()
                    invariant
                        v@.len() <= N * i,
                        open_regions@.len() <= N,
                        self.wf(),
                        self@.state is InProgress,
                        self@.allowed_region() is None,
                        forall|b: BoardIndex|
                            open_regions@.contains(b) <==> region_slot_markable(
                                self@.regions[b.as_int()],
                            ),
                        i <= open_regions@.len(),
                        forall|k1: int, k2: int|
                            0 <= k1 < k2 < open_regions@.len() ==> open_regions@[k1].as_int()
                                < open_regions@[k2].as_int(),
                        forall|p: Play|
                            v@.contains(p) <==> (self@.play_legal(p) && exists|k: int|
                                0 <= k < i && p.0 == #[trigger] open_regions@[k]),
                        forall|k1: int, k2: int| 0 <= k1 < k2 < v@.len() ==> v@[k1] != v@[k2],
                    decreases open_regions@.len() - i,
                {
                    let ri = open_regions[i];
                    proof {
                        assert(open_regions@.contains(open_regions@[i as int]));
                    }
                    let tiles = self.board.get(ri).board.unmarked_indices();
                    let mut j: usize = 0;
                    while j < tiles.len()
                        invariant
                            v@.len() <= N * i + j,
                            tiles@.len() <= N,
                            open_regions@.len() <= N,
                            self.wf(),
                            self@.state is InProgress,
                            self@.allowed_region() is None,
                            region_slot_markable(self@.regions[ri.as_int()]),
                            forall|b: BoardIndex|
                                open_regions@.contains(b) <==> region_slot_markable(
                                    self@.regions[b.as_int()],
                                ),
                            forall|b: BoardIndex|
                                tiles@.contains(b) <==> self@.regions[ri.as_int()].tiles[b.as_int()] is Unmarked,
                            i < open_regions@.len(),
                            ri == open_regions@[i as int],
                            j <= tiles@.len(),
                            forall|k1: int, k2: int|
                                0 <= k1 < k2 < open_regions@.len() ==> open_regions@[k1].as_int()
                                    < open_regions@[k2].as_int(),
                            forall|k1: int, k2: int|
                                0 <= k1 < k2 < tiles@.len() ==> tiles@[k1].as_int()
                                    < tiles@[k2].as_int(),
                            forall|p: Play|
                                v@.contains(p) <==> (self@.play_legal(p) && ((exists|k: int|
                                    0 <= k < i && p.0 == #[trigger] open_regions@[k]) || (p.0 == ri
                                    && exists|k: int| 0 <= k < j && p.1 == #[trigger] tiles@[k]))),
                            forall|k1: int, k2: int|
                                0 <= k1 < k2 < v@.len() ==> v@[k1] != v@[k2],
                        decreases tiles@.len() - j,
                    {
                        let ghost old_v = v@;
                        let t = tiles[j];
                        v.push((ri, t));
                        proof {
                            assert(tiles@.contains(tiles@[j as int]));
                            assert(self@.play_legal((ri, t)));
                            assert(!old_v.contains((ri, t))) by {
                                if old_v.contains((ri, t)) {
                                    if exists|k: int|
                                        0 <= k < i && ri == #[trigger] open_regions@[k] {
                                        let k = choose|k: int|
                                            0 <= k < i && ri == #[trigger] open_regions@[k];
                                        assert(open_regions@[k].as_int()
                                            < open_regions@[i as int].as_int());
                                    } else {
                                        let k = choose|k: int|
                                            0 <= k < j && t == #[trigger] tiles@[k];
                                        assert(tiles@[k].as_int() < tiles@[j as int].as_int());
                                    }
                                }
                            }
                            assert forall|k1: int, k2: int|
                                0 <= k1 < k2 < v@.len() implies v@[k1] != v@[k2] by {
                                if k2 == v@.len() - 1 {
                                    assert(v@[k1] == old_v[k1]);
                                    assert(old_v.contains(old_v[k1]));
                                }
                            }
                            assert forall|p: Play|
                                v@.contains(p) implies (self@.play_legal(p) && ((exists|k: int|
                                    0 <= k < i && p.0 == #[trigger] open_regions@[k]) || (p.0 == ri
                                    && exists|k: int|
                                        0 <= k < j + 1 && p.1 == #[trigger] tiles@[k]))) by {
                                let k = choose|k: int| 0 <= k < v@.len() && v@[k] == p;
                                if k < old_v.len() {
                                    assert(old_v[k] == p);
                                    assert(old_v.contains(p));
                                } else {
                                    assert(p == (ri, tiles@[j as int]));
                                }
                            }
                            assert forall|p: Play|
                                (self@.play_legal(p) && ((exists|k: int|
                                    0 <= k < i && p.0 == #[trigger] open_regions@[k]) || (p.0 == ri
                                    && exists|k: int|
                                        0 <= k < j + 1 && p.1 == #[trigger] tiles@[k]))) implies v@.contains(
                                p,
                            ) by {
                                let in_old = self@.play_legal(p) && ((exists|k: int|
                                    0 <= k < i && p.0 == #[trigger] open_regions@[k]) || (p.0 == ri
                                    && exists|k: int| 0 <= k < j && p.1 == #[trigger] tiles@[k]));
                                if in_old {
                                    assert(old_v.contains(p));
                                    let m = choose|m: int| 0 <= m < old_v.len() && old_v[m] == p;
                                    assert(v@[m] == p);
                                } else {
                                    assert(p.0 == ri);
                                    let k = choose|k: int|
                                        0 <= k < j + 1 && p.1 == #[trigger] tiles@[k];
                                    assert(k == j);
                                    assert(p == (ri, tiles@[j as int]));
                                    assert(v@[v@.len() - 1] == p);
                                }
                            }
                        }
                        j = j + 1;
                    }
                    proof {
                        assert forall|p: Play|
                            v@.contains(p) <==> (self@.play_legal(p) && exists|k: int|
                                0 <= k < i + 1 && p.0 == #[trigger] open_regions@[k]) by {
                            if self@.play_legal(p) && exists|k: int|
                                0 <= k < i + 1 && p.0 == #[trigger] open_regions@[k] {
                                let k = choose|k: int|
                                    0 <= k < i + 1 && p.0 == #[trigger] open_regions@[k];
                                if k == i {
                                    assert(p.0 == ri);
                                    assert(tiles@.contains(p.1));
                                    let m = choose|m: int|
                                        0 <= m < tiles@.len() && tiles@[m] == p.1;
                                    assert(p.1 == tiles@[m]);
                                }
                            }
                        }
                    }
                    i = i + 1;
                }
                proof {
                    assert forall|p: Play| self@.play_legal(p) implies v@.contains(p) by {
                        assert(region_slot_markable(self@.regions[p.0.as_int()]));
                        assert(open_regions@.contains(p.0));
                        let k = choose|k: int|
                            0 <= k < open_regions@.len() && open_regions@[k] == p.0;
                        assert(p.0 == open_regions@[k]);
                    }
                }
            },
        }
        proof {
            lemma_in_progress_has_play(self@);
            let p = choose|p: Play| self@.play_legal(p);
            assert(v@.contains(p));
        }
        v
    }
}

/// Marking preserves well-formedness of the game model.
pub proof fn lemma_mark_spec_wf(g: GameS, play: Play)
    requires
        g.wf(),
    ensures
        mark_spec(g, play).0.wf(),
{
    reveal(crate::game::mark_spec);
    if g.play_legal(play) {
        let r = play.0.as_int();
        let (region2, rres) = region_mark_spec(g.regions[r], play.1, g.current_player);
        let regions2 = g.regions.update(r, region2);
        if !(region2.state is Complete) {
            assert forall|k: int| 0 <= k < N implies (#[trigger] g.regions[k]).state
                == (#[trigger] regions2[k]).state by {}
            lemma_regions_state_same_states(g.regions, regions2);
        }
    }
}

/// What [`mark_spec`] does, stated without unfolding it: an illegal play
/// changes nothing; a legal play marks exactly its tile for the mover,
/// flips the mover, records the forced region, and reports the new state.
pub proof fn lemma_mark_spec_facts(g: GameS, play: Play)
    requires
        g.wf(),
    ensures
        !g.play_legal(play) ==> mark_spec(g, play) == (g, MarkTileResult::NoChange),
        g.play_legal(play) ==> {
            let g2 = mark_spec(g, play).0;
            let r = mark_spec(g, play).1;
            &&& !(r is NoChange)
            &&& (r is TileMarked <==> g2.state is InProgress)
            &&& match r {
                MarkTileResult::OutcomeDecided(o) => g2.state == BoardState::Complete(o),
                _ => true,
            }
            &&& (r is OutcomeDecided <==> g2.state is Complete)
            &&& g2.current_player == g.current_player.spec_other()
            &&& g2.previous_play_index == Option::Some(play.1)
            &&& g2.regions.len() == N
            &&& g2.regions[play.0.as_int()].tiles == g.regions[play.0.as_int()].tiles.update(
                play.1.as_int(),
                Tile::Marked(g.current_player),
            )
            &&& forall|k: int|
                0 <= k < N && k != play.0.as_int() ==> g2.regions[k] == g.regions[k]
        },
{
    reveal(crate::game::mark_spec);
    if g.play_legal(play) {
        let rr = play.0.as_int();
        let (region2, rres) = region_mark_spec(g.regions[rr], play.1, g.current_player);
        let regions2 = g.regions.update(rr, region2);
        if !(region2.state is Complete) {
            assert forall|k: int| 0 <= k < N implies (#[trigger] g.regions[k]).state
                == (#[trigger] regions2[k]).state by {}
            lemma_regions_state_same_states(g.regions, regions2);
            assert(mark_spec(g, play).0.state is InProgress);
        }
    }
}

/// A play on a disabled region or an already-marked tile reports
/// `NoChange` and leaves the game exactly as it was.
pub proof fn lemma_mark_rejected(g: GameS, play: Play)
    requires
        g.wf(),
        !g.play_legal(play),
    ensures
        mark_spec(g, play) == (g, MarkTileResult::NoChange),
{
    lemma_mark_spec_facts(g, play);
}

/// When the previous move points at a region that is already complete, the
/// mover is unconstrained: any region may be chosen while the game is in
/// progress, and none once the game is complete.
pub proof fn lemma_completed_region_frees_mover(g: GameS, i: BoardIndex)
    requires
        g.wf(),
        g.previous_play_index == Option::Some(i),
        !region_slot_markable(g.regions[i.as_int()]),
    ensures
        g.allowed_region() is None,
        forall|j: BoardIndex| #[trigger] g.region_enabled(j) <==> g.state is InProgress,
{
}

/// An in-progress game always has at least one legal play.
pub proof fn lemma_in_progress_has_play(g: GameS)
    requires
        g.wf(),
        g.state is InProgress,
    ensures
        exists|p: Play| g.play_legal(p),
{
    crate::board_index::lemma_index_round_trip();
    let ri: BoardIndex = match g.allowed_region() {
        Option::Some(i) => i,
        Option::None => {
            assert(!regions_filled(g.regions));
            let r0 = choose|r0: int| 0 <= r0 < N && region_slot_markable(g.regions[r0]);
            BoardIndex::from_int(r0)
        },
    };
    assert(region_slot_markable(g.regions[ri.as_int()]));
    let rs = g.regions[ri.as_int()];
    assert(rs.wf());
    assert(board_state_of(rs.tiles) is InProgress);
    assert(!crate::board::board_filled(rs.tiles));
    let t0 = choose|t0: int| 0 <= t0 < N && (#[trigger] rs.tiles[t0]).spec_markable();
    let p: Play = (ri, BoardIndex::from_int(t0));
    assert(g.play_legal(p));
}

/// On the top-level board, a sequence of regions with no complete region is
/// still in progress.
pub proof fn lemma_no_complete_regions_in_progress(s: Seq<RegionS>)
    requires
        s.len() == N,
        forall|k: int| 0 <= k < N ==> (#[trigger] s[k]).state is InProgress,
    ensures
        regions_state(s) == BoardState::InProgress,
{
    assert forall|l: int, p: Player| 0 <= l < N_LINES implies !regions_line_won_by(s, l, p) by {
        let (a, b, c) = spec_line(l);
        assert(s[a].state is InProgress);
    }
    assert(region_slot_markable(s[0]));
}

/// Two region sequences whose states agree slot for slot have the same
/// top-level state.
pub proof fn lemma_regions_state_same_states(s1: Seq<RegionS>, s2: Seq<RegionS>)
    requires
        s1.len() == N,
        s2.len() == N,
        forall|k: int| 0 <= k < N ==> (#[trigger] s1[k]).state == (#[trigger] s2[k]).state,
    ensures
        regions_state(s1) == regions_state(s2),
{
    assert forall|l: int, p: Player| 0 <= l < N_LINES implies regions_line_won_by(s1, l, p)
        == regions_line_won_by(s2, l, p) by {
        let (a, b, c) = spec_line(l);
        assert(s1[a].state == s2[a].state && s1[b].state == s2[b].state && s1[c].state
            == s2[c].state);
    }
    assert(regions_won_by(s1, Player::Circle) == regions_won_by(s2, Player::Circle));
    assert(regions_won_by(s1, Player::Cross) == regions_won_by(s2, Player::Cross));
    if regions_filled(s1) {
        assert forall|k: int| 0 <= k < N implies !region_slot_markable(#[trigger] s2[k]) by {
            assert(!region_slot_markable(s1[k]));
        }
    }
    if regions_filled(s2) {
        assert forall|k: int| 0 <= k < N implies !region_slot_markable(#[trigger] s1[k]) by {
            assert(!region_slot_markable(s2[k]));
        }
    }
    assert(regions_filled(s1) == regions_filled(s2));
}

/// The number of unmarked tiles among the first `m` tiles of a region.
pub open spec fn tiles_unmarked_below(tiles: Seq<Tile>, m: int) -> int
    decreases m,
{
    if m <= 0 {
        0
    } else {
        tiles_unmarked_below(tiles, m - 1) + if tiles[m - 1] is Unmarked {
            1int
        } else {
            0int
        }
    }
}

/// The number of unmarked tiles in the first `m` regions.
pub open spec fn regions_unmarked_below(rs: Seq<RegionS>, m: int) -> int
    decreases m,
{
    if m <= 0 {
        0
    } else {
        regions_unmarked_below(rs, m - 1) + tiles_unmarked_below(rs[m - 1].tiles, N as int)
    }
}

/// The number of unmarked tiles in the whole game.
pub open spec fn unmarked_count(g: GameS) -> int {
    regions_unmarked_below(g.regions, N as int)
}

/// Counts of unmarked tiles are never negative.
pub proof fn lemma_tiles_unmarked_nonneg(tiles: Seq<Tile>, m: int)
    ensures
        tiles_unmarked_below(tiles, m) >= 0,
    decreases m,
{
    if m > 0 {
        lemma_tiles_unmarked_nonneg(tiles, m - 1);
    }
}

/// The whole game's count of unmarked tiles is never negative.
pub proof fn lemma_unmarked_nonneg(rs: Seq<RegionS>, m: int)
    ensures
        regions_unmarked_below(rs, m) >= 0,
    decreases m,
{
    if m > 0 {
        lemma_unmarked_nonneg(rs, m - 1);
        lemma_tiles_unmarked_nonneg(rs[m - 1].tiles, N as int);
    }
}

/// Marking one unmarked tile lowers a region's count by one.
proof fn lemma_tiles_unmarked_update(tiles: Seq<Tile>, t: int, v: Tile, m: int)
    requires
        0 <= t < m,
        m <= tiles.len(),
        tiles[t] is Unmarked,
        !(v is Unmarked),
    ensures
        tiles_unmarked_below(tiles.update(t, v), m) == tiles_unmarked_below(tiles, m) - 1,
    decreases m,
{
    let t2 = tiles.update(t, v);
    if t == m - 1 {
        lemma_tiles_unmarked_agree(tiles, t2, m - 1);
    } else {
        lemma_tiles_unmarked_update(tiles, t, v, m - 1);
    }
}

/// Counts only depend on the tiles below `m`.
proof fn lemma_tiles_unmarked_agree(s1: Seq<Tile>, s2: Seq<Tile>, m: int)
    requires
        forall|j: int| 0 <= j < m ==> s1[j] == s2[j],
    ensures
        tiles_unmarked_below(s1, m) == tiles_unmarked_below(s2, m),
    decreases m,
{
    if m > 0 {
        lemma_tiles_unmarked_agree(s1, s2, m - 1);
    }
}

/// Replacing one region with one that has one fewer unmarked tile lowers
/// the game's count by one.
proof fn lemma_regions_unmarked_update(rs: Seq<RegionS>, r: int, rg2: RegionS, m: int)
    requires
        0 <= r < m,
        m <= rs.len(),
        tiles_unmarked_below(rg2.tiles, N as int) == tiles_unmarked_below(rs[r].tiles, N as int)
            - 1,
    ensures
        regions_unmarked_below(rs.update(r, rg2), m) == regions_unmarked_below(rs, m) - 1,
    decreases m,
{
    if r == m - 1 {
        lemma_regions_unmarked_agree(rs, rs.update(r, rg2), m - 1);
    } else {
        lemma_regions_unmarked_update(rs, r, rg2, m - 1);
    }
}

/// Counts only depend on the regions below `m`.
proof fn lemma_regions_unmarked_agree(s1: Seq<RegionS>, s2: Seq<RegionS>, m: int)
    requires
        forall|j: int| 0 <= j < m ==> s1[j] == s2[j],
    ensures
        regions_unmarked_below(s1, m) == regions_unmarked_below(s2, m),
    decreases m,
{
    if m > 0 {
        lemma_regions_unmarked_agree(s1, s2, m - 1);
    }
}

/// A legal play marks exactly one tile: the count of unmarked tiles drops
/// by one.
pub proof fn lemma_mark_decreases(g: GameS, play: Play)
    requires
        g.wf(),
        g.play_legal(play),
    ensures
        unmarked_count(mark_spec(g, play).0) == unmarked_count(g) - 1,
{
    lemma_mark_spec_facts(g, play);
    let g2 = mark_spec(g, play).0;
    let r = play.0.as_int();
    let t = play.1.as_int();
    lemma_tiles_unmarked_update(
        g.regions[r].tiles,
        t,
        Tile::Marked(g.current_player),
        N as int,
    );
    assert(g2.regions =~= g.regions.update(r, g2.regions[r]));
    lemma_regions_unmarked_update(g.regions, r, g2.regions[r], N as int);
}

/// Recomputing the top-level state from the executable regions agrees with
/// the model-level recomputation.
pub proof fn lemma_regions_state_view(s: Seq<Region>)
    requires
        s.len() == N,
    ensures
        board_state_of(s) == regions_state(s.map_values(|r: Region| r@)),
{
    let sv = s.map_values(|r: Region| r@);
    assert forall|l: int, p: Player| 0 <= l < N_LINES implies crate::board::line_won_by(s, l, p)
        == regions_line_won_by(sv, l, p) by {
        let (a, b, c) = spec_line(l);
        assert(s[a].spec_marked_by(p) == region_slot_marked_by(sv[a], p));
        assert(s[b].spec_marked_by(p) == region_slot_marked_by(sv[b], p));
        assert(s[c].spec_marked_by(p) == region_slot_marked_by(sv[c], p));
    }
    assert(crate::board::board_won_by(s, Player::Circle) == regions_won_by(sv, Player::Circle));
    assert(crate::board::board_won_by(s, Player::Cross) == regions_won_by(sv, Player::Cross));
    assert forall|i: int| 0 <= i < N implies s[i].spec_markable() == region_slot_markable(
        sv[i],
    ) by {}
    assert(crate::board::board_filled(s) == regions_filled(sv));
}

} // verus!
