use vstd::prelude::*;

use crate::board_index::BoardIndex;
use crate::board_state::BoardOutcome;
use crate::game::{mark_spec, Game, GameS, Play};
use crate::player::Player;
use crate::tile::{MarkTileResult, Tile};

verus! {

/// The number of region/tile pairs a game has, and so the number of play
/// candidates the exhaustive search enumerates.
pub const N_PAIRS: usize = 81;

/// The play with enumeration index `k`: region `k / 9`, tile `k % 9`.
pub open spec fn play_at(k: int) -> Play {
    (BoardIndex::from_int(k / 9), BoardIndex::from_int(k % 9))
}

/// The tile that the play with enumeration index `k` would mark.
pub open spec fn tile_at(g: GameS, k: int) -> Tile {
    g.regions[k / 9].tiles[k % 9]
}

/// The number of unmarked tiles among the plays with index `k` and above.
pub open spec fn umk_from(g: GameS, k: int) -> int
    decreases 81 - k,
{
    if k >= 81 {
        0
    } else {
        umk_from(g, k + 1) + if k >= 0 && tile_at(g, k) is Unmarked {
            1int
        } else {
            0int
        }
    }
}

/// A single count of unmarked plays lies between 0 and 81.
proof fn lemma_umk_range(g: GameS, k: int)
    ensures
        0 <= umk_from(g, k),
        umk_from(g, k) <= 81,
        0 <= k <= 81 ==> umk_from(g, k) <= 81 - k,
        k < 0 ==> umk_from(g, k) == umk_from(g, 0),
    decreases 81 - k,
{
    if k < 81 {
        lemma_umk_range(g, k + 1);
    }
}

/// Counts of unmarked plays shrink as `k` grows.
pub proof fn lemma_umk_bounds(g: GameS, k1: int, k2: int)
    requires
        k1 <= k2,
    ensures
        0 <= umk_from(g, k2),
        umk_from(g, k2) <= umk_from(g, k1),
        umk_from(g, k1) <= 81,
    decreases k2 - k1,
{
    lemma_umk_range(g, k1);
    lemma_umk_range(g, k2);
    if k1 < k2 {
        lemma_umk_bounds(g, k1 + 1, k2);
        lemma_umk_range(g, k1 + 1);
        if k1 >= 81 {
            assert(umk_from(g, k1) == 0);
        }
    }
}

/// A legal play marks an unmarked tile.
pub proof fn lemma_legal_play_unmarked(g: GameS, k: int)
    requires
        0 <= k < 81,
        g.play_legal(play_at(k)),
    ensures
        tile_at(g, k) is Unmarked,
{
    crate::board_index::lemma_index_round_trip();
}

/// Playing the `j`-th pair turns exactly that tile from unmarked to
/// marked: every count over a suffix that includes `j` drops by one.
pub proof fn lemma_umk_mark(g: GameS, j: int, k: int)
    requires
        g.wf(),
        0 <= j < 81,
        g.play_legal(play_at(j)),
    ensures
        umk_from(mark_spec(g, play_at(j)).0, k) == umk_from(g, k) - if k <= j {
            1int
        } else {
            0int
        },
    decreases 81 - k,
{
    crate::board_index::lemma_index_round_trip();
    crate::game::lemma_mark_spec_facts(g, play_at(j));
    let g2 = mark_spec(g, play_at(j)).0;
    let r = j / 9;
    let t = j % 9;
    if k < 81 {
        lemma_umk_mark(g, j, k + 1);
        if k == j {
            assert(tile_at(g2, k) == Tile::Marked(g.current_player));
            assert(tile_at(g, k) is Unmarked) by {
                lemma_legal_play_unmarked(g, k);
            }
        } else if k >= 0 {
            assert(k / 9 != r || k % 9 != t);
            if k / 9 == r {
                assert(tile_at(g2, k) == g.regions[r].tiles.update(
                    t,
                    Tile::Marked(g.current_player),
                )[k % 9]);
                assert(tile_at(g2, k) == tile_at(g, k));
            } else {
                assert(0 <= k / 9 < 9);
                assert(g2.regions[k / 9] == g.regions[k / 9]);
                assert(tile_at(g2, k) == tile_at(g, k));
            }
        }
    }
}

/// The exhaustive score of the plays with index `k` and above: each legal
/// play adds +1 when it wins the game for `Cross` at once, -1 when it
/// wins it for `Circle`, 0 when it draws, and the score of the reached
/// position when the game goes on. On an ill-formed game the score is 0.
pub open spec fn exh_score_from(g: GameS, k: int) -> int
    decreases umk_from(g, 0), 82 - k,
    when 0 <= k <= 81
    via exh_score_from_decreases
{
    if k >= 81 || !g.wf() {
        0
    } else {
        let rest = exh_score_from(g, k + 1);
        if g.play_legal(play_at(k)) {
            let g2 = mark_spec(g, play_at(k)).0;
            let gain = match mark_spec(g, play_at(k)).1 {
                MarkTileResult::OutcomeDecided(BoardOutcome::Draw) => 0int,
                MarkTileResult::OutcomeDecided(BoardOutcome::WonBy(Player::Circle)) => -1int,
                MarkTileResult::OutcomeDecided(BoardOutcome::WonBy(Player::Cross)) => 1int,
                _ => exh_score_from(g2, 0),
            };
            rest + gain
        } else {
            rest
        }
    }
}

#[via_fn]
proof fn exh_score_from_decreases(g: GameS, k: int) {
    lemma_umk_range(g, 0);
    if k < 81 && g.wf() && g.play_legal(play_at(k)) {
        lemma_umk_mark(g, k, 0);
        let g2 = mark_spec(g, play_at(k)).0;
        lemma_umk_range(g2, 0);
    }
}

/// The exhaustive score of a game: the sum over its whole game tree.
pub open spec fn exh_score(g: GameS) -> int {
    exh_score_from(g, 0)
}

/// What the single legal play with index `k` adds to the score.
pub open spec fn exh_gain(g: GameS, k: int) -> int {
    let g2 = mark_spec(g, play_at(k)).0;
    match mark_spec(g, play_at(k)).1 {
        MarkTileResult::OutcomeDecided(BoardOutcome::Draw) => 0int,
        MarkTileResult::OutcomeDecided(BoardOutcome::WonBy(Player::Circle)) => -1int,
        MarkTileResult::OutcomeDecided(BoardOutcome::WonBy(Player::Cross)) => 1int,
        _ => exh_score_from(g2, 0),
    }
}

/// The factorial, with `fact01(n) == 1` for `n <= 0`.
pub open spec fn fact01(n: int) -> int
    decreases n,
{
    if n <= 0 {
        1
    } else {
        n * fact01(n - 1)
    }
}

/// Factorials are at least one.
pub proof fn lemma_fact01_pos(n: int)
    ensures
        fact01(n) >= 1,
    decreases n,
{
    if n > 0 {
        lemma_fact01_pos(n - 1);
        assert(n * fact01(n - 1) >= 1) by (nonlinear_arith)
            requires
                n >= 1,
                fact01(n - 1) >= 1,
        ;
    }
}

/// Factorials grow with their argument.
pub proof fn lemma_fact01_mono(a: int, b: int)
    requires
        a <= b,
    ensures
        fact01(a) <= fact01(b),
    decreases b,
{
    if a < b && b > 0 {
        lemma_fact01_mono(a, b - 1);
        lemma_fact01_pos(b - 1);
        assert(fact01(b - 1) <= b * fact01(b - 1)) by (nonlinear_arith)
            requires
                b >= 1,
                fact01(b - 1) >= 1,
        ;
    }
}

/// The score of a suffix is bounded by the number of its unmarked plays
/// times the factorial of one less than the game's whole count.
pub proof fn lemma_exh_bound(g: GameS, k: int)
    requires
        g.wf(),
        0 <= k <= 81,
    ensures
        -(umk_from(g, k) * fact01(umk_from(g, 0) - 1)) <= exh_score_from(g, k),
        exh_score_from(g, k) <= umk_from(g, k) * fact01(umk_from(g, 0) - 1),
    decreases umk_from(g, 0), 82 - k,
{
    lemma_umk_bounds(g, 0, k);
    let u = umk_from(g, 0);
    let f = fact01(u - 1);
    lemma_fact01_pos(u - 1);
    if k >= 81 {
        assert(umk_from(g, k) == 0);
    } else {
        lemma_exh_bound(g, k + 1);
        let uk = umk_from(g, k);
        let uk1 = umk_from(g, k + 1);
        if g.play_legal(play_at(k)) {
            crate::game::lemma_mark_spec_facts(g, play_at(k));
            let g2 = mark_spec(g, play_at(k)).0;
            lemma_umk_mark(g, k, 0);
            lemma_umk_bounds(g2, 0, 0);
            crate::game::lemma_mark_spec_wf(g, play_at(k));
            assert(umk_from(g2, 0) == u - 1);
            assert(u >= 1);
            let c = exh_gain(g, k);
            assert(exh_score_from(g, k) == exh_score_from(g, k + 1) + c);
            assert(-f <= c <= f) by {
                match mark_spec(g, play_at(k)).1 {
                    MarkTileResult::OutcomeDecided(_) => {
                        assert(-1 <= c <= 1);
                    },
                    MarkTileResult::TileMarked => {
                        lemma_exh_bound(g2, 0);
                        lemma_umk_bounds(g2, 0, 0);
                        assert(c == exh_score_from(g2, 0));
                        if u - 1 <= 0 {
                            assert(umk_from(g2, 0) == 0);
                            assert(umk_from(g2, 0) * fact01(umk_from(g2, 0) - 1) == 0);
                            assert(c == 0);
                        } else {
                            assert(umk_from(g2, 0) * fact01(umk_from(g2, 0) - 1) == fact01(
                                u - 1,
                            ));
                        }
                    },
                    MarkTileResult::NoChange => {
                        assert(false);
                    },
                }
            }
            assert(tile_at(g, k) is Unmarked) by {
                lemma_legal_play_unmarked(g, k);
            }
            assert(uk == uk1 + 1);
            assert(uk * f == uk1 * f + f) by (nonlinear_arith)
                requires
                    uk == uk1 + 1,
            ;
        } else {
            assert(exh_score_from(g, k) == exh_score_from(g, k + 1));
            assert(uk1 <= uk) by {
                lemma_umk_bounds(g, k, k + 1);
            }
            assert(uk1 * f <= uk * f) by (nonlinear_arith)
                requires
                    uk1 <= uk,
                    f >= 1,
            ;
        }
    }
}

/// The score of any suffix of a game with at most 19 unmarked tiles fits
/// comfortably in a 64-bit integer.
pub proof fn lemma_exh_small(g: GameS, k: int)
    requires
        g.wf(),
        0 <= k <= 81,
        umk_from(g, 0) <= 19,
    ensures
        -fact01(19) <= exh_score_from(g, k),
        exh_score_from(g, k) <= fact01(19),
        fact01(19) == 121645100408832000,
{
    lemma_exh_bound(g, k);
    lemma_umk_bounds(g, 0, k);
    lemma_fact01_pos(umk_from(g, 0) - 1);
    lemma_fact01_mono(umk_from(g, 0) - 1, 18);
    assert(fact01(19) == 121645100408832000) by {
        reveal_with_fuel(fact01, 21);
    }
    assert(19 * fact01(18) == fact01(19));
    assert(umk_from(g, k) * fact01(umk_from(g, 0) - 1) <= 19 * fact01(18)) by (nonlinear_arith)
        requires
            0 <= umk_from(g, k) <= 19,
            1 <= fact01(umk_from(g, 0) - 1) <= fact01(18),
    ;
}

/// Returns the exhaustive score of an in-progress game with at most 19
/// unmarked tiles (beyond that the sum could not be held in a 64-bit
/// integer, nor computed in any reasonable time).
pub fn simulate(game: &Game) -> (r: i64)
    requires
        game.wf(),
        game@.state is InProgress,
        umk_from(game@, 0) <= 19,
    ensures
        r as int == exh_score(game@),
    decreases umk_from(game@, 0),
{
    let ghost g = game@;
    let mut score: i64 = 0;
    let mut k: usize = N_PAIRS;
    while k > 0
        invariant
            game.wf(),
            g == game@,
            g.state is InProgress,
            umk_from(g, 0) <= 19,
            k <= N_PAIRS,
            score as int == exh_score_from(g, k as int),
        decreases k,
    {
        k = k - 1;
        proof {
            lemma_exh_small(g, k as int);
            lemma_exh_small(g, k as int + 1);
        }
        let region_index = match BoardIndex::from_usize(k / 9) {
            Option::Some(b) => b,
            Option::None => {
                proof {
                    assert(false);
                }
                BoardIndex::Center
            },
        };
        let tile_index = match BoardIndex::from_usize(k % 9) {
            Option::Some(b) => b,
            Option::None => {
                proof {
                    assert(false);
                }
                BoardIndex::Center
            },
        };
        let play = (region_index, tile_index);
        proof {
            crate::board_index::lemma_index_round_trip();
            assert(play == play_at(k as int));
            crate::game::lemma_mark_spec_facts(g, play);
        }
        let mut probe = game.duplicate();
        match probe.mark_tile(play) {
            MarkTileResult::NoChange => {
                proof {
                    assert(!g.play_legal(play));
                    assert(exh_score_from(g, k as int) == exh_score_from(g, k as int + 1));
                }
            },
            MarkTileResult::TileMarked => {
                proof {
                    crate::game::lemma_mark_spec_wf(g, play);
                    lemma_umk_mark(g, k as int, 0);
                    lemma_umk_bounds(g, 0, 0);
                    lemma_umk_bounds(probe@, 0, 0);
                }
                let sub = simulate(&probe);
                proof {
                    lemma_exh_small(probe@, 0);
                }
                score = score + sub;
            },
            MarkTileResult::OutcomeDecided(outcome) => {
                match outcome {
                    BoardOutcome::Draw => {},
                    BoardOutcome::WonBy(Player::Circle) => {
                        score = score - 1;
                    },
                    BoardOutcome::WonBy(Player::Cross) => {
                        score = score + 1;
                    },
                }
            },
        }
    }
    score
}


/// The best play among those with index `k` and above, starting from the
/// candidate `best`: a legal play with at least the score of every
/// earlier candidate supersedes it, so later plays win ties.
pub open spec fn exh_best_from(g: GameS, k: int, best: Option<(Play, int)>) -> Option<(Play, int)>
    decreases 81 - k,
{
    if k < 0 || k >= 81 {
        best
    } else {
        let next = if g.play_legal(play_at(k)) {
            let c = exh_gain(g, k);
            match best {
                Option::None => Option::Some((play_at(k), c)),
                Option::Some(b) => if c >= b.1 {
                    Option::Some((play_at(k), c))
                } else {
                    best
                },
            }
        } else {
            best
        };
        exh_best_from(g, k + 1, next)
    }
}

/// The play the exhaustive player makes: the legal play whose game tree
/// scores highest, later ties winning.
pub open spec fn exh_best_play(g: GameS) -> Play {
    match exh_best_from(g, 0, Option::None) {
        Option::Some(b) => b.0,
        Option::None => (BoardIndex::Center, BoardIndex::Center),
    }
}

/// Once a candidate exists, the scan keeps one.
proof fn lemma_best_stays_some(g: GameS, k: int, best: Option<(Play, int)>)
    requires
        best is Some,
    ensures
        exh_best_from(g, k, best) is Some,
    decreases 81 - k,
{
    if 0 <= k < 81 {
        let next = if g.play_legal(play_at(k)) {
            let c = exh_gain(g, k);
            match best {
                Option::None => Option::Some((play_at(k), c)),
                Option::Some(b) => if c >= b.1 {
                    Option::Some((play_at(k), c))
                } else {
                    best
                },
            }
        } else {
            best
        };
        lemma_best_stays_some(g, k + 1, next);
    }
}

/// A legal play somewhere at or past `k` guarantees a candidate.
proof fn lemma_best_some(g: GameS, j: int, k: int, best: Option<(Play, int)>)
    requires
        0 <= k <= j < 81,
        g.play_legal(play_at(j)),
    ensures
        exh_best_from(g, k, best) is Some,
    decreases 81 - k,
{
    let next = if g.play_legal(play_at(k)) {
        let c = exh_gain(g, k);
        match best {
            Option::None => Option::Some((play_at(k), c)),
            Option::Some(b) => if c >= b.1 {
                Option::Some((play_at(k), c))
            } else {
                best
            },
        }
    } else {
        best
    };
    if k == j {
        lemma_best_stays_some(g, k + 1, next);
    } else {
        lemma_best_some(g, j, k + 1, next);
    }
}

/// Whatever the scan returns is a legal play, unless it is the unchanged
/// starting candidate.
proof fn lemma_best_legal(g: GameS, k: int, best: Option<(Play, int)>)
    ensures
        match exh_best_from(g, k, best) {
            Option::Some(b) => g.play_legal(b.0) || best == Option::Some(b),
            Option::None => true,
        },
    decreases 81 - k,
{
    if 0 <= k < 81 {
        let next = if g.play_legal(play_at(k)) {
            let c = exh_gain(g, k);
            match best {
                Option::None => Option::Some((play_at(k), c)),
                Option::Some(b) => if c >= b.1 {
                    Option::Some((play_at(k), c))
                } else {
                    best
                },
            }
        } else {
            best
        };
        lemma_best_legal(g, k + 1, next);
    }
}

/// Every legal play has an enumeration index.
pub proof fn lemma_play_has_index(g: GameS, p: Play)
    requires
        g.play_legal(p),
    ensures
        0 <= p.0.as_int() * 9 + p.1.as_int() < 81,
        play_at(p.0.as_int() * 9 + p.1.as_int()) == p,
{
    crate::board_index::lemma_index_round_trip();
    let j = p.0.as_int() * 9 + p.1.as_int();
    assert(j / 9 == p.0.as_int() && j % 9 == p.1.as_int()) by (nonlinear_arith)
        requires
            j == p.0.as_int() * 9 + p.1.as_int(),
            0 <= p.0.as_int() < 9,
            0 <= p.1.as_int() < 9,
    ;
}

/// Scores every legal play by exhausting its whole game tree, then makes
/// the best one, later ties winning. A game that is already complete is
/// left untouched. Only games with at most 20 unmarked tiles can be
/// searched this way.
pub fn make_move(game: &mut Game)
    requires
        old(game).wf(),
        old(game)@.state is InProgress ==> umk_from(old(game)@, 0) <= 20,
    ensures
        final(game).wf(),
        !(old(game)@.state is InProgress) ==> final(game)@ == old(game)@,
        old(game)@.state is InProgress ==> old(game)@.play_legal(exh_best_play(old(game)@))
            && final(game)@ == mark_spec(old(game)@, exh_best_play(old(game)@)).0,
{
    let in_progress = matches!(game.state, crate::board_state::BoardState::InProgress);
    if !in_progress {
        return ;
    }
    let ghost g = game@;
    let mut best: Option<(Play, i64)> = Option::None;
    let mut k: usize = 0;
    while k < N_PAIRS
        invariant
            game.wf(),
            g == game@,
            g.state is InProgress,
            umk_from(g, 0) <= 20,
            k <= N_PAIRS,
            exh_best_from(g, 0, Option::None) == exh_best_from(
                g,
                k as int,
                match best {
                    Option::Some(b) => Option::Some((b.0, b.1 as int)),
                    Option::None => Option::None,
                },
            ),
        decreases N_PAIRS - k,
    {
        let region_index = match BoardIndex::from_usize(k / 9) {
            Option::Some(b) => b,
            Option::None => {
                proof {
                    assert(false);
                }
                BoardIndex::Center
            },
        };
        let tile_index = match BoardIndex::from_usize(k % 9) {
            Option::Some(b) => b,
            Option::None => {
                proof {
                    assert(false);
                }
                BoardIndex::Center
            },
        };
        let play = (region_index, tile_index);
        proof {
            crate::board_index::lemma_index_round_trip();
            assert(play == play_at(k as int));
            crate::game::lemma_mark_spec_facts(g, play);
        }
        let mut probe = game.duplicate();
        match probe.mark_tile(play) {
            MarkTileResult::NoChange => {},
            MarkTileResult::TileMarked => {
                proof {
                    crate::game::lemma_mark_spec_wf(g, play);
                    lemma_umk_mark(g, k as int, 0);
                    lemma_umk_bounds(g, 0, 0);
                    lemma_umk_bounds(probe@, 0, 0);
                }
                let sub = simulate(&probe);
                proof {
                    assert(sub as int == exh_gain(g, k as int));
                }
                best = match best {
                    Option::None => Option::Some((play, sub)),
                    Option::Some(b) => if sub >= b.1 {
                        Option::Some((play, sub))
                    } else {
                        Option::Some(b)
                    },
                };
            },
            MarkTileResult::OutcomeDecided(outcome) => {
                let sub: i64 = match outcome {
                    BoardOutcome::Draw => 0,
                    BoardOutcome::WonBy(Player::Circle) => -1,
                    BoardOutcome::WonBy(Player::Cross) => 1,
                };
                proof {
                    assert(sub as int == exh_gain(g, k as int));
                }
                best = match best {
                    Option::None => Option::Some((play, sub)),
                    Option::Some(b) => if sub >= b.1 {
                        Option::Some((play, sub))
                    } else {
                        Option::Some(b)
                    },
                };
            },
        }
        k = k + 1;
    }
    proof {
        crate::game::lemma_in_progress_has_play(g);
        let p0 = choose|p0: Play| g.play_legal(p0);
        lemma_play_has_index(g, p0);
        lemma_best_some(g, p0.0.as_int() * 9 + p0.1.as_int(), 0, Option::None);
        lemma_best_legal(g, 0, Option::None);
    }
    let chosen = match best {
        Option::Some(b) => b.0,
        Option::None => {
            proof {
                assert(false);
            }
            (BoardIndex::Center, BoardIndex::Center)
        },
    };
    proof {
        assert(chosen == exh_best_play(g));
        assert(g.play_legal(chosen));
        crate::game::lemma_mark_spec_facts(g, chosen);
    }
    let result = game.mark_tile(chosen);
    proof {
        assert(!(result is NoChange));
    }
}

} // verus!
