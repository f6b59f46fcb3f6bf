use uttt::board::Board;
use uttt::board_index::BoardIndex;
use uttt::board_state::{BoardOutcome, BoardState};
use uttt::game::Game;
use uttt::player::Player;
use uttt::region::Region;
use uttt::tile::{MarkTileResult, Tile};

fn region_with(marks: &[(BoardIndex, Player)]) -> Region {
    let mut region = Region::new();
    for &(index, player) in marks {
        let result = region.mark_tile(index, player);
        assert!(!matches!(result, MarkTileResult::NoChange));
    }
    region
}

fn game_with_regions(
    regions: Vec<Region>,
    current_player: Player,
    previous_play_index: Option<BoardIndex>,
) -> Game {
    let board = Board { tiles: regions };
    let state = board.get_state();
    Game { board, state, current_player, previous_play_index }
}

#[test]
fn fresh_game_is_open() {
    let game = Game::new();
    assert_eq!(game.state, BoardState::InProgress);
    assert_eq!(game.current_player, Player::Circle);
    assert_eq!(game.previous_play_index, None);
    assert_eq!(game.allowed_region_index(), None);
    for i in 0..9 {
        let index = BoardIndex::from_usize(i).unwrap();
        assert!(game.is_region_enabled(index));
    }
}

#[test]
fn player_other_flips() {
    assert_eq!(Player::Circle.other(), Player::Cross);
    assert_eq!(Player::Cross.other(), Player::Circle);
    assert_eq!(Player::Circle.other().other(), Player::Circle);
}

#[test]
fn board_index_round_trip() {
    for i in 0..9 {
        let b = BoardIndex::from_usize(i).unwrap();
        assert_eq!(b.to_usize(), i);
    }
    assert_eq!(BoardIndex::from_usize(9), None);
    assert_eq!(BoardIndex::UpperLeft.to_usize(), 0);
    assert_eq!(BoardIndex::Center.to_usize(), 4);
    assert_eq!(BoardIndex::LowerRight.to_usize(), 8);
}

#[test]
fn first_move_flips_player_and_forces_region() {
    let mut game = Game::new();
    let result = game.mark_tile((BoardIndex::Center, BoardIndex::Up));
    assert_eq!(result, MarkTileResult::TileMarked);
    assert_eq!(game.current_player, Player::Cross);
    assert_eq!(game.previous_play_index, Some(BoardIndex::Up));
    assert_eq!(game.allowed_region_index(), Some(BoardIndex::Up));
    assert!(game.is_region_enabled(BoardIndex::Up));
    assert!(!game.is_region_enabled(BoardIndex::Center));
}

#[test]
fn marked_tile_gives_no_change() {
    let mut game = Game::new();
    assert_eq!(game.mark_tile((BoardIndex::Center, BoardIndex::Center)), MarkTileResult::TileMarked);
    // the opponent is forced back into the center region and tries the
    // very same tile
    let before_player = game.current_player;
    let before_prev = game.previous_play_index;
    let result = game.mark_tile((BoardIndex::Center, BoardIndex::Center));
    assert_eq!(result, MarkTileResult::NoChange);
    assert_eq!(game.current_player, before_player);
    assert_eq!(game.previous_play_index, before_prev);
    assert_eq!(game.state, BoardState::InProgress);
    let center = game.board.get(BoardIndex::Center);
    assert_eq!(*center.board.get(BoardIndex::Center), Tile::Marked(Player::Circle));
}

#[test]
fn disabled_region_gives_no_change() {
    let mut game = Game::new();
    assert_eq!(game.mark_tile((BoardIndex::Center, BoardIndex::Up)), MarkTileResult::TileMarked);
    // the mover must answer in the upper region, not the lower one
    let result = game.mark_tile((BoardIndex::Down, BoardIndex::Up));
    assert_eq!(result, MarkTileResult::NoChange);
    assert_eq!(game.current_player, Player::Cross);
    let lower = game.board.get(BoardIndex::Down);
    assert_eq!(*lower.board.get(BoardIndex::Up), Tile::Unmarked);
}

#[test]
fn region_row_win() {
    let mut region = Region::new();
    assert_eq!(region.mark_tile(BoardIndex::UpperLeft, Player::Circle), MarkTileResult::TileMarked);
    assert_eq!(region.mark_tile(BoardIndex::Up, Player::Circle), MarkTileResult::TileMarked);
    let result = region.mark_tile(BoardIndex::UpperRight, Player::Circle);
    assert_eq!(result, MarkTileResult::OutcomeDecided(BoardOutcome::WonBy(Player::Circle)));
    assert_eq!(region.state, BoardState::Complete(BoardOutcome::WonBy(Player::Circle)));
    // a completed region takes no further marks
    assert_eq!(region.mark_tile(BoardIndex::Center, Player::Cross), MarkTileResult::NoChange);
    assert!(!region.is_tile_enabled(BoardIndex::Center));
}

#[test]
fn region_column_and_diagonal_wins() {
    let mut col = region_with(&[
        (BoardIndex::Up, Player::Cross),
        (BoardIndex::Center, Player::Cross),
    ]);
    assert_eq!(
        col.mark_tile(BoardIndex::Down, Player::Cross),
        MarkTileResult::OutcomeDecided(BoardOutcome::WonBy(Player::Cross))
    );
    let mut diag = region_with(&[
        (BoardIndex::UpperLeft, Player::Circle),
        (BoardIndex::Center, Player::Circle),
    ]);
    assert_eq!(
        diag.mark_tile(BoardIndex::LowerRight, Player::Circle),
        MarkTileResult::OutcomeDecided(BoardOutcome::WonBy(Player::Circle))
    );
    let mut anti = region_with(&[
        (BoardIndex::LowerLeft, Player::Cross),
        (BoardIndex::Center, Player::Cross),
    ]);
    assert_eq!(
        anti.mark_tile(BoardIndex::UpperRight, Player::Cross),
        MarkTileResult::OutcomeDecided(BoardOutcome::WonBy(Player::Cross))
    );
}

#[test]
fn drawn_region_stays_drawn() {
    // C C X / X X C / C C X: filled, no line owned
    let mut region = Region::new();
    let c = Player::Circle;
    let x = Player::Cross;
    let marks = [
        (BoardIndex::UpperLeft, c),
        (BoardIndex::Up, c),
        (BoardIndex::UpperRight, x),
        (BoardIndex::Left, x),
        (BoardIndex::Center, x),
        (BoardIndex::Right, c),
        (BoardIndex::LowerLeft, c),
        (BoardIndex::Down, c),
    ];
    for (index, player) in marks {
        assert_eq!(region.mark_tile(index, player), MarkTileResult::TileMarked);
    }
    let result = region.mark_tile(BoardIndex::LowerRight, x);
    assert_eq!(result, MarkTileResult::OutcomeDecided(BoardOutcome::Draw));
    assert_eq!(region.state, BoardState::Complete(BoardOutcome::Draw));
    // recomputing the state never reverts it
    assert_eq!(region.board.get_state(), BoardState::Complete(BoardOutcome::Draw));
    assert_eq!(region.board.get_state(), BoardState::Complete(BoardOutcome::Draw));
}

#[test]
fn completed_region_frees_the_mover() {
    // previous play points at a region that is already complete
    let won = region_with(&[
        (BoardIndex::UpperLeft, Player::Circle),
        (BoardIndex::Up, Player::Circle),
        (BoardIndex::UpperRight, Player::Circle),
    ]);
    let mut regions = Vec::new();
    regions.push(won);
    for _ in 1..9 {
        regions.push(Region::new());
    }
    let game = game_with_regions(regions, Player::Cross, Some(BoardIndex::UpperLeft));
    assert_eq!(game.state, BoardState::InProgress);
    assert_eq!(game.allowed_region_index(), None);
    for i in 1..9 {
        let index = BoardIndex::from_usize(i).unwrap();
        assert!(game.is_region_enabled(index));
    }
}

#[test]
fn complete_game_disables_every_region() {
    // three regions in the top row won by Circle: the game is over
    let mut regions = Vec::new();
    for i in 0..9 {
        if i < 3 {
            regions.push(region_with(&[
                (BoardIndex::UpperLeft, Player::Circle),
                (BoardIndex::Up, Player::Circle),
                (BoardIndex::UpperRight, Player::Circle),
            ]));
        } else {
            regions.push(Region::new());
        }
    }
    let game = game_with_regions(regions, Player::Cross, Some(BoardIndex::UpperLeft));
    assert_eq!(game.state, BoardState::Complete(BoardOutcome::WonBy(Player::Circle)));
    for i in 0..9 {
        let index = BoardIndex::from_usize(i).unwrap();
        assert!(!game.is_region_enabled(index));
    }
    assert_eq!(
        game.board.get_state(),
        BoardState::Complete(BoardOutcome::WonBy(Player::Circle))
    );
}

#[test]
fn winning_a_region_can_win_the_game() {
    // regions 0 and 1 already won by Circle; winning region 2 ends it
    let mut regions = Vec::new();
    for i in 0..9 {
        if i < 2 {
            regions.push(region_with(&[
                (BoardIndex::Left, Player::Circle),
                (BoardIndex::Center, Player::Circle),
                (BoardIndex::Right, Player::Circle),
            ]));
        } else if i == 2 {
            regions.push(region_with(&[
                (BoardIndex::Left, Player::Circle),
                (BoardIndex::Center, Player::Circle),
            ]));
        } else {
            regions.push(Region::new());
        }
    }
    let mut game = game_with_regions(regions, Player::Circle, Some(BoardIndex::UpperRight));
    assert_eq!(game.state, BoardState::InProgress);
    assert_eq!(game.allowed_region_index(), Some(BoardIndex::UpperRight));
    let result = game.mark_tile((BoardIndex::UpperRight, BoardIndex::Right));
    assert_eq!(result, MarkTileResult::OutcomeDecided(BoardOutcome::WonBy(Player::Circle)));
    assert_eq!(game.state, BoardState::Complete(BoardOutcome::WonBy(Player::Circle)));
    // the mover still flips and the play is still recorded on the final move
    assert_eq!(game.current_player, Player::Cross);
    assert_eq!(game.previous_play_index, Some(BoardIndex::Right));
}

#[test]
fn enumerate_and_unmarked_iterate_in_order() {
    let mut region = Region::new();
    region.mark_tile(BoardIndex::Up, Player::Circle);
    region.mark_tile(BoardIndex::Center, Player::Cross);
    let mut all = region.board.enumerate();
    let mut seen = Vec::new();
    while let Some(index) = all.next() {
        seen.push(index.to_usize());
    }
    assert_eq!(seen, vec![0, 1, 2, 3, 4, 5, 6, 7, 8]);
    let mut open = region.board.unmarked();
    let mut open_seen = Vec::new();
    while let Some(index) = open.next() {
        open_seen.push(index.to_usize());
    }
    assert_eq!(open_seen, vec![0, 2, 3, 5, 6, 7, 8]);
}

#[test]
fn legal_plays_respects_the_forced_region() {
    let mut game = Game::new();
    game.mark_tile((BoardIndex::Center, BoardIndex::Up));
    let plays = game.legal_plays();
    assert_eq!(plays.len(), 9);
    for play in &plays {
        assert_eq!(play.0, BoardIndex::Up);
    }
    let unconstrained = Game::new();
    assert_eq!(unconstrained.legal_plays().len(), 81);
}

#[test]
fn duplicate_copies_the_whole_game() {
    let mut game = Game::new();
    game.mark_tile((BoardIndex::Center, BoardIndex::Up));
    game.mark_tile((BoardIndex::Up, BoardIndex::Left));
    let copy = game.duplicate();
    assert_eq!(copy.state, game.state);
    assert_eq!(copy.current_player, game.current_player);
    assert_eq!(copy.previous_play_index, game.previous_play_index);
    for r in 0..9 {
        let ri = BoardIndex::from_usize(r).unwrap();
        assert_eq!(copy.board.get(ri).state, game.board.get(ri).state);
        for t in 0..9 {
            let ti = BoardIndex::from_usize(t).unwrap();
            assert_eq!(
                *copy.board.get(ri).board.get(ti),
                *game.board.get(ri).board.get(ti)
            );
        }
    }
}
