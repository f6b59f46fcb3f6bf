use vstd::prelude::*;

use crate::board_index::N;
use crate::board_item::BoardItem;
use crate::game::{mark_spec, Game, Play};
use crate::rng::{choose_from, MoveRng};

verus! {

/// Returns a uniformly random legal play for an in-progress game: first the
/// forced region when there is one, otherwise a uniformly chosen open
/// region, then a uniformly chosen unmarked tile within it.
pub fn generate_move(rng: &mut MoveRng, game: &Game) -> (p: Play)
    requires
        game.wf(),
        game@.state is InProgress,
    ensures
        game@.play_legal(p),
{
    let region_index = match game.allowed_region_index() {
        Option::Some(i) => i,
        Option::None => {
            let open_regions = game.board.unmarked_indices();
            proof {
                assert(!crate::game::regions_filled(game@.regions));
                let r0 = choose|r0: int|
                    0 <= r0 < N && crate::game::region_slot_markable(game@.regions[r0]);
                crate::board_index::lemma_index_round_trip();
                assert(open_regions@.contains(crate::board_index::BoardIndex::from_int(r0)));
            }
            match choose_from(&open_regions, rng) {
                Option::Some(i) => i,
                Option::None => {
                    proof {
                        assert(false);
                    }
                    crate::board_index::BoardIndex::Center
                },
            }
        },
    };
    proof {
        if game@.allowed_region() is None {
            assert(crate::game::region_slot_markable(game@.regions[region_index.as_int()]));
        }
    }
    let tiles = game.board.get(region_index).board.unmarked_indices();
    proof {
        let rs = game@.regions[region_index.as_int()];
        assert(rs.wf());
        assert(!crate::board::board_filled(rs.tiles));
        let t0 = choose|t0: int| 0 <= t0 < N && (#[trigger] rs.tiles[t0]).spec_markable();
        crate::board_index::lemma_index_round_trip();
        assert(tiles@.contains(crate::board_index::BoardIndex::from_int(t0)));
    }
    let tile_index = match choose_from(&tiles, rng) {
        Option::Some(t) => t,
        Option::None => {
            proof {
                assert(false);
            }
            crate::board_index::BoardIndex::Center
        },
    };
    (region_index, tile_index)
}

/// Plays one uniformly random legal move on `game`.
pub fn make_move(game: &mut Game)
    requires
        old(game).wf(),
        old(game)@.state is InProgress,
    ensures
        final(game).wf(),
        exists|p: Play| old(game)@.play_legal(p) && final(game)@ == mark_spec(old(game)@, p).0,
{
    let mut rng = MoveRng::from_entropy();
    make_move_with(&mut rng, game);
}

/// Plays one uniformly random legal move on `game`, drawing from `rng`.
pub fn make_move_with(rng: &mut MoveRng, game: &mut Game)
    requires
        old(game).wf(),
        old(game)@.state is InProgress,
    ensures
        final(game).wf(),
        exists|p: Play| old(game)@.play_legal(p) && final(game)@ == mark_spec(old(game)@, p).0,
{
    let play = generate_move(rng, game);
    proof {
        crate::game::lemma_mark_spec_facts(game@, play);
    }
    let result = game.mark_tile(play);
    proof {
        assert(!(result is NoChange));
    }
}

} // verus!
