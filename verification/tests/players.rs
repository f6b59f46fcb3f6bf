use std::cell::RefCell;

use uttt::board::Board;
use uttt::board_index::BoardIndex;
use uttt::board_state::{BoardOutcome, BoardState};
use uttt::exhaustive;
use uttt::fixed::{isqrt64, ln_q16};
use uttt::game::{Game, Play};
use uttt::mct;
use uttt::mct::{Node, Tree};
use uttt::player::Player;
use uttt::random::{generate_move, make_move_with};
use uttt::region::Region;
use uttt::rng::MoveRng;
use uttt::tile::{MarkTileResult, Tile};

fn region_with(marks: &[(BoardIndex, Player)]) -> Region {
    let mut region = Region::new();
    for &(index, player) in marks {
        let result = region.mark_tile(index, player);
        assert!(!matches!(result, MarkTileResult::NoChange));
    }
    region
}

fn game_with_regions(
    regions: Vec<Region>,
    current_player: Player,
    previous_play_index: Option<BoardIndex>,
) -> Game {
    let board = Board { tiles: regions };
    let state = board.get_state();
    Game { board, state, current_player, previous_play_index }
}

/// Regions 0 and 1 won by Circle, region 2 one mark short of a line that
/// would win both the region and the game; Circle is forced into region 2.
fn game_one_move_from_win() -> Game {
    let mut regions = Vec::new();
    for i in 0..9 {
        if i < 2 {
            regions.push(region_with(&[
                (BoardIndex::Left, Player::Circle),
                (BoardIndex::Center, Player::Circle),
                (BoardIndex::Right, Player::Circle),
            ]));
        } else if i == 2 {
            regions.push(region_with(&[
                (BoardIndex::Left, Player::Circle),
                (BoardIndex::Center, Player::Circle),
            ]));
        } else {
            regions.push(Region::new());
        }
    }
    game_with_regions(regions, Player::Circle, Some(BoardIndex::UpperRight))
}

/// A game whose only legal move is (UpperRight, LowerRight): region 2 has
/// eight tiles marked without a line, and the mover is forced into it.
fn game_with_single_move() -> Game {
    let c = Player::Circle;
    let x = Player::Cross;
    let mut regions = Vec::new();
    for i in 0..9 {
        if i == 2 {
            // C C X / X X C / C X _
            regions.push(region_with(&[
                (BoardIndex::UpperLeft, c),
                (BoardIndex::Up, c),
                (BoardIndex::UpperRight, x),
                (BoardIndex::Left, x),
                (BoardIndex::Center, x),
                (BoardIndex::Right, c),
                (BoardIndex::LowerLeft, c),
                (BoardIndex::Down, x),
            ]));
        } else {
            regions.push(Region::new());
        }
    }
    game_with_regions(regions, Player::Circle, Some(BoardIndex::UpperRight))
}

#[test]
fn generate_move_is_legal_and_respects_the_forced_region() {
    let mut game = Game::new();
    game.mark_tile((BoardIndex::Center, BoardIndex::Up));
    let mut rng = MoveRng::from_seed(11);
    for _ in 0..20 {
        let play = generate_move(&mut rng, &game);
        assert_eq!(play.0, BoardIndex::Up);
        let region = game.board.get(play.0);
        assert_eq!(*region.board.get(play.1), Tile::Unmarked);
    }
}

#[test]
fn seeded_generate_move_is_deterministic() {
    let game = Game::new();
    let mut rng1 = MoveRng::from_seed(99);
    let mut rng2 = MoveRng::from_seed(99);
    for _ in 0..10 {
        assert_eq!(generate_move(&mut rng1, &game), generate_move(&mut rng2, &game));
    }
}

#[test]
fn random_make_move_marks_one_tile() {
    let mut game = Game::new();
    let mut rng = MoveRng::from_seed(3);
    make_move_with(&mut rng, &mut game);
    assert_eq!(game.current_player, Player::Cross);
    assert!(game.previous_play_index.is_some());
    let mut marked = 0;
    for r in 0..9 {
        let ri = BoardIndex::from_usize(r).unwrap();
        for t in 0..9 {
            let ti = BoardIndex::from_usize(t).unwrap();
            if !matches!(*game.board.get(ri).board.get(ti), Tile::Unmarked) {
                marked += 1;
            }
        }
    }
    assert_eq!(marked, 1);
}

#[test]
fn ucb1_of_unvisited_node_is_infinite_for_any_log() {
    let node = Node {
        play: Some((BoardIndex::Center, BoardIndex::Up)),
        score_x2: 0,
        n_visits: 0,
        children: Vec::new(),
        parent: Some(0),
    };
    let top = 0xffff_ffff_ffff_ffffu64;
    assert_eq!(node.ucb1(0), top);
    assert_eq!(node.ucb1(45426), top);
    assert_eq!(node.ucb1(0x30_0000), top);
}

#[test]
fn ucb1_of_visited_node_matches_the_formula() {
    let mut node = Node {
        play: Some((BoardIndex::Center, BoardIndex::Up)),
        score_x2: 0,
        n_visits: 0,
        children: Vec::new(),
        parent: Some(0),
    };
    node.update_score(2);
    assert_eq!(node.n_visits, 1);
    assert_eq!(node.score_x2, 2);
    // a perfect score with no exploration bonus: exactly 1.0 in Q16
    assert_eq!(node.ucb1(0), 0x10000);
    // with ln(parent visits) = ln 2: bonus = floor(sqrt(2 * 45426 * 65536))
    let expected_bonus = isqrt64(2 * 45426 * 0x10000);
    assert_eq!(node.ucb1(45426), 0x10000 + expected_bonus);
    assert_eq!(node.average_score(), 0x10000);
}

#[test]
fn fixed_point_helpers_compute_known_values() {
    assert_eq!(isqrt64(0), 0);
    assert_eq!(isqrt64(15), 3);
    assert_eq!(isqrt64(16), 4);
    assert_eq!(isqrt64(17), 4);
    assert_eq!(isqrt64(1 << 40), 1 << 20);
    assert_eq!(ln_q16(0), 0);
    assert_eq!(ln_q16(1), 0);
    // ln 2 and ln 4 in Q16
    assert_eq!(ln_q16(2), 45426);
    assert_eq!(ln_q16(4), 2 * 45426);
}

#[test]
fn one_iteration_visits_exactly_one_root_child() {
    // an empty board, stopped after exactly one iteration
    for seed in 0..50 {
        let game = Game::new();
        let seen: RefCell<Option<(u64, usize, Vec<(Option<Play>, u64, u64)>)>> =
            RefCell::new(None);
        let chosen = mct::make_move_with(
            game,
            |tree: &Tree| {
                let root = &tree.nodes[0];
                let stats = root
                    .children
                    .iter()
                    .map(|&c| (tree.nodes[c].play, tree.nodes[c].n_visits, tree.nodes[c].score_x2))
                    .collect::<Vec<_>>();
                *seen.borrow_mut() = Some((root.n_visits, root.children.len(), stats));
                true
            },
            MoveRng::from_seed(seed),
        );
        let (root_visits, n_children, stats) = seen.borrow().clone().unwrap();
        assert_eq!(root_visits, 1);
        assert_eq!(n_children, 81);
        let visited: Vec<_> = stats.iter().filter(|s| s.1 > 0).collect();
        assert_eq!(visited.len(), 1);
        assert_eq!(visited[0].1, 1);
        // once the single rollout is not a loss, its child alone holds the
        // best raw score and must be the returned play
        if visited[0].2 > 0 {
            assert_eq!(Some(chosen), visited[0].0);
            return;
        }
    }
    panic!("every rollout across fifty seeds lost; something is off");
}

#[test]
fn visit_counts_add_up_across_the_tree() {
    // after any number of iterations, the root's visits equal the sum of
    // its children's (the root is never rolled out itself), and no child
    // is visited more often than its parent
    let game = Game::new();
    let checked = RefCell::new(false);
    mct::make_move_with(
        game,
        |tree: &Tree| {
            let root = &tree.nodes[0];
            if root.n_visits < 100 {
                return false;
            }
            let sum: u64 = root.children.iter().map(|&c| tree.nodes[c].n_visits).sum();
            assert_eq!(root.n_visits, sum);
            for (i, node) in tree.nodes.iter().enumerate() {
                if i > 0 {
                    let child_sum: u64 =
                        node.children.iter().map(|&c| tree.nodes[c].n_visits).sum();
                    if !node.children.is_empty() {
                        assert_eq!(node.n_visits, 1 + child_sum);
                    }
                    let parent = node.parent.unwrap();
                    assert!(node.n_visits <= tree.nodes[parent].n_visits);
                }
            }
            *checked.borrow_mut() = true;
            true
        },
        MoveRng::from_seed(9),
    );
    assert!(*checked.borrow());
}

#[test]
fn search_finds_the_winning_move() {
    let game = game_one_move_from_win();
    let play = mct::make_move_with(
        game,
        |tree: &Tree| tree.nodes[0].n_visits >= 3000,
        MoveRng::from_seed(42),
    );
    assert_eq!(play, (BoardIndex::UpperRight, BoardIndex::Right));
}

#[test]
fn search_is_deterministic_under_a_fixed_seed() {
    let stop = |tree: &Tree| tree.nodes[0].n_visits >= 200;
    let play1 = mct::make_move_with(game_one_move_from_win(), stop, MoveRng::from_seed(7));
    let play2 = mct::make_move_with(game_one_move_from_win(), stop, MoveRng::from_seed(7));
    assert_eq!(play1, play2);
    let fresh1 = mct::make_move_with(Game::new(), stop, MoveRng::from_seed(123));
    let fresh2 = mct::make_move_with(Game::new(), stop, MoveRng::from_seed(123));
    assert_eq!(fresh1, fresh2);
}

#[test]
fn single_legal_move_is_returned_at_once() {
    let game = game_with_single_move();
    // stopping after the very first iteration already pins the move
    let play = mct::make_move_with(game, |_tree: &Tree| true, MoveRng::from_seed(1));
    assert_eq!(play, (BoardIndex::UpperRight, BoardIndex::LowerRight));
    // and so does any later stopping point
    let game = game_with_single_move();
    let play = mct::make_move_with(
        game,
        |tree: &Tree| tree.nodes[0].n_visits >= 50,
        MoveRng::from_seed(2),
    );
    assert_eq!(play, (BoardIndex::UpperRight, BoardIndex::LowerRight));
}

#[test]
fn make_move_returns_a_legal_play() {
    let game = Game::new();
    let play = mct::make_move(game, |tree: &Tree| tree.nodes[0].n_visits >= 10);
    let check = Game::new();
    assert!(check.is_region_enabled(play.0));
    assert_eq!(*check.board.get(play.0).board.get(play.1), Tile::Unmarked);
}

/// A won region for each of the given owners, in region order, plus a
/// ninth region with exactly the given tile marks.
fn endgame(owners: [Player; 8], last_region: &[(BoardIndex, Player)]) -> Vec<Region> {
    let mut regions = Vec::new();
    for owner in owners {
        regions.push(region_with(&[
            (BoardIndex::UpperLeft, owner),
            (BoardIndex::Up, owner),
            (BoardIndex::UpperRight, owner),
        ]));
    }
    regions.push(region_with(last_region));
    regions
}

#[test]
fn exhaustive_simulate_exact_immediate_circle_win() {
    // only region 8 is open, with one free tile; marking it wins the
    // region for Circle, which completes the top-level diagonal
    let c = Player::Circle;
    let x = Player::Cross;
    let regions = endgame(
        [c, x, c, x, c, x, x, c],
        &[
            (BoardIndex::UpperLeft, c),
            (BoardIndex::Up, c),
            (BoardIndex::Left, x),
            (BoardIndex::Center, x),
            (BoardIndex::Right, c),
            (BoardIndex::LowerLeft, x),
            (BoardIndex::Down, c),
            (BoardIndex::LowerRight, x),
        ],
    );
    let mut game = game_with_regions(regions, c, Some(BoardIndex::LowerRight));
    assert_eq!(game.state, BoardState::InProgress);
    assert_eq!(exhaustive::simulate(&game), -1);
    exhaustive::make_move(&mut game);
    assert_eq!(game.state, BoardState::Complete(BoardOutcome::WonBy(c)));
}

#[test]
fn exhaustive_simulate_exact_forced_draw() {
    // two free tiles in the one open region; every line of play fills the
    // board without a winner
    let c = Player::Circle;
    let x = Player::Cross;
    let regions = endgame(
        [c, x, c, x, c, x, x, c],
        &[
            (BoardIndex::UpperLeft, c),
            (BoardIndex::Up, c),
            (BoardIndex::UpperRight, x),
            (BoardIndex::Left, x),
            (BoardIndex::Center, x),
            (BoardIndex::Right, c),
            (BoardIndex::LowerLeft, c),
        ],
    );
    let game = game_with_regions(regions, c, Some(BoardIndex::LowerRight));
    assert_eq!(game.state, BoardState::InProgress);
    assert_eq!(exhaustive::simulate(&game), 0);
}

#[test]
fn exhaustive_make_move_takes_the_cross_win() {
    // Cross to move in the last open region, where one tile completes a
    // row for Cross and with it the bottom row of regions
    let c = Player::Circle;
    let x = Player::Cross;
    let regions = endgame(
        [c, x, c, x, c, c, x, x],
        &[
            (BoardIndex::UpperLeft, x),
            (BoardIndex::Up, x),
            (BoardIndex::Left, c),
            (BoardIndex::Center, c),
            (BoardIndex::Right, x),
            (BoardIndex::LowerLeft, c),
            (BoardIndex::Down, x),
            (BoardIndex::LowerRight, c),
        ],
    );
    let mut game = game_with_regions(regions, x, Some(BoardIndex::LowerRight));
    assert_eq!(game.state, BoardState::InProgress);
    assert_eq!(exhaustive::simulate(&game), 1);
    exhaustive::make_move(&mut game);
    assert_eq!(game.state, BoardState::Complete(BoardOutcome::WonBy(x)));
    assert_eq!(
        *game.board.get(BoardIndex::LowerRight).board.get(BoardIndex::UpperRight),
        Tile::Marked(x)
    );
}

#[test]
fn exhaustive_make_move_leaves_finished_games_alone() {
    let mut regions = Vec::new();
    for i in 0..9 {
        if i < 3 {
            regions.push(region_with(&[
                (BoardIndex::UpperLeft, Player::Circle),
                (BoardIndex::Up, Player::Circle),
                (BoardIndex::UpperRight, Player::Circle),
            ]));
        } else {
            regions.push(Region::new());
        }
    }
    let mut game = game_with_regions(regions, Player::Cross, Some(BoardIndex::UpperLeft));
    let state_before = game.state;
    let player_before = game.current_player;
    exhaustive::make_move(&mut game);
    assert_eq!(game.state, state_before);
    assert_eq!(game.current_player, player_before);
}
