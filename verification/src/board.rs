use vstd::prelude::*;

use crate::board_index::{line, spec_line, BoardIndex, N, N_LINES};
use crate::board_item::BoardItem;
use crate::board_iter::{BoardEnumerate, Unmarked};
use crate::board_state::{BoardOutcome, BoardState};
use crate::player::Player;

verus! {

/// A 3x3 board of slots: tiles for a region, regions for the whole game.
#[derive(Clone, Debug)]
pub struct Board<T> {
    pub tiles: Vec<T>,
}

/// Whether player `p` owns the `l`-th winning line of the board `s`.
pub open spec fn line_won_by<T: BoardItem>(s: Seq<T>, l: int, p: Player) -> bool {
    let (a, b, c) = spec_line(l);
    &&& s[a].spec_marked_by(p)
    &&& s[b].spec_marked_by(p)
    &&& s[c].spec_marked_by(p)
}

/// Whether player `p` owns at least one winning line of the board `s`.
pub open spec fn board_won_by<T: BoardItem>(s: Seq<T>, p: Player) -> bool {
    exists|l: int| 0 <= l < N_LINES && line_won_by(s, l, p)
}

/// Whether no slot of the board `s` can be marked any more.
pub open spec fn board_filled<T: BoardItem>(s: Seq<T>) -> bool {
    forall|i: int| 0 <= i < N ==> !(#[trigger] s[i]).spec_markable()
}

/// The state of the board `s`: won by whoever owns a line (with `Circle`
/// checked first), drawn when it is filled and nobody owns a line, and still
/// in progress otherwise.
pub open spec fn board_state_of<T: BoardItem>(s: Seq<T>) -> BoardState {
    if board_won_by(s, Player::Circle) {
        BoardState::Complete(BoardOutcome::WonBy(Player::Circle))
    } else if board_won_by(s, Player::Cross) {
        BoardState::Complete(BoardOutcome::WonBy(Player::Cross))
    } else if board_filled(s) {
        BoardState::Complete(BoardOutcome::Draw)
    } else {
        BoardState::InProgress
    }
}

impl<T> Board<T> {
    /// A board always holds exactly nine slots.
    pub open spec fn wf(self) -> bool {
        self.tiles@.len() == N
    }

    /// Returns the slot at `index`.
    pub fn get(&self, index: BoardIndex) -> (r: &T)
        requires
            self.wf(),
        ensures
            *r == self.tiles@[index.as_int()],
    {
        &self.tiles[index.to_usize()]
    }

    /// Replaces the slot at `index`.
    pub fn set(&mut self, index: BoardIndex, item: T)
        requires
            old(self).wf(),
        ensures
            final(self).wf(),
            final(self).tiles@ == old(self).tiles@.update(index.as_int(), item),
    {
        let i = index.to_usize();
        self.tiles.set(i, item);
    }

    /// Returns an iteration order over all nine positions of this board.
    pub fn enumerate(&self) -> (r: BoardEnumerate)
        requires
            self.wf(),
        ensures
            r.wf(),
            r.indices@.len() == N,
            forall|k: int| 0 <= k < N ==> (#[trigger] r.indices@[k]).as_int() == k,
    {
        BoardEnumerate::over_all()
    }
}

impl<T: BoardItem> Board<T> {
    /// Returns an iteration order over the positions of this board whose
    /// slots can still be marked, in increasing position order.
    pub fn unmarked(&self) -> (r: Unmarked)
        requires
            self.wf(),
        ensures
            r.wf(),
            forall|b: BoardIndex| r.indices@.contains(b) <==> self.tiles@[b.as_int()].spec_markable(),
            forall|k1: int, k2: int|
                0 <= k1 < k2 < r.indices@.len() ==> r.indices@[k1].as_int() < r.indices@[k2].as_int(),
    {
        Unmarked { indices: self.unmarked_indices(), pos: 0 }
    }

    /// Collects the positions of the markable slots, in increasing order.
    pub(crate) fn unmarked_indices(&self) -> (v: Vec<BoardIndex>)
        requires
            self.wf(),
        ensures
            forall|b: BoardIndex| v@.contains(b) <==> self.tiles@[b.as_int()].spec_markable(),
            forall|k: int| 0 <= k < v@.len() ==> 0 <= (#[trigger] v@[k]).as_int() < N,
            forall|k1: int, k2: int|
                0 <= k1 < k2 < v@.len() ==> v@[k1].as_int() < v@[k2].as_int(),
            v@.len() <= N,
    {
        let mut v: Vec<BoardIndex> = Vec::new();
        let mut i: usize = 0;
        while i < N
            invariant
                self.wf(),
                i <= N,
                v@.len() <= i,
                forall|k: int|
                    0 <= k < v@.len() ==> 0 <= (#[trigger] v@[k]).as_int() < i && self.tiles@[v@[k].as_int()].spec_markable(),
                forall|j: int|
                    0 <= j < i && self.tiles@[j].spec_markable() ==> v@.contains(
                        #[trigger] BoardIndex::from_int(j),
                    ),
                forall|k1: int, k2: int|
                    0 <= k1 < k2 < v@.len() ==> v@[k1].as_int() < v@[k2].as_int(),
            decreases N - i,
        {
            let ghost old_v = v@;
            let b = BoardIndex::from_usize(i).unwrap();
            if self.tiles[i].is_markable() {
                v.push(b);
            }
            proof {
                crate::board_index::lemma_index_round_trip();
                assert forall|j: int|
                    0 <= j < i + 1 && self.tiles@[j].spec_markable() implies v@.contains(
                    #[trigger] BoardIndex::from_int(j),
                ) by {
                    if j == i {
                        assert(v@[v@.len() - 1] == BoardIndex::from_int(j));
                    } else {
                        let k = choose|k: int|
                            0 <= k < old_v.len() && old_v[k] == BoardIndex::from_int(j);
                        assert(v@[k] == BoardIndex::from_int(j));
                    }
                }
            }
            i = i + 1;
        }
        proof {
            crate::board_index::lemma_index_round_trip();
            assert forall|b: BoardIndex| v@.contains(b) implies self.tiles@[b.as_int()].spec_markable() by {
                let k = choose|k: int| 0 <= k < v@.len() && v@[k] == b;
            }
            assert forall|b: BoardIndex| self.tiles@[b.as_int()].spec_markable() implies v@.contains(
                b,
            ) by {
                assert(0 <= b.as_int() < N);
                assert(v@.contains(BoardIndex::from_int(b.as_int())));
            }
        }
        v
    }

    /// Returns whether player `player` has at least one three-in-a-line.
    pub(crate) fn check_player(&self, player: Player) -> (r: bool)
        requires
            self.wf(),
        ensures
            r == board_won_by(self.tiles@, player),
    {
        let mut l: usize = 0;
        while l < N_LINES
            invariant
                self.wf(),
                l <= N_LINES,
                forall|j: int| 0 <= j < l ==> !line_won_by(self.tiles@, j, player),
            decreases N_LINES - l,
        {
            let (a, b, c) = line(l);
            if self.tiles[a].is_marked_by(player) && self.tiles[b].is_marked_by(player)
                && self.tiles[c].is_marked_by(player) {
                proof {
                    assert(line_won_by(self.tiles@, l as int, player));
                }
                return true;
            }
            l = l + 1;
        }
        false
    }

    /// Returns whether every slot of the board has been marked.
    pub(crate) fn is_filled(&self) -> (r: bool)
        requires
            self.wf(),
        ensures
            r == board_filled(self.tiles@),
    {
        let mut i: usize = 0;
        while i < N
            invariant
                self.wf(),
                i <= N,
                forall|j: int| 0 <= j < i ==> !(#[trigger] self.tiles@[j]).spec_markable(),
            decreases N - i,
        {
            if self.tiles[i].is_markable() {
                return false;
            }
            i = i + 1;
        }
        true
    }

    /// Returns the state of the board.
    pub fn get_state(&self) -> (r: BoardState)
        requires
            self.wf(),
        ensures
            r == board_state_of(self.tiles@),
    {
        if self.check_player(Player::Circle) {
            BoardState::Complete(BoardOutcome::WonBy(Player::Circle))
        } else if self.check_player(Player::Cross) {
            BoardState::Complete(BoardOutcome::WonBy(Player::Cross))
        } else if self.is_filled() {
            BoardState::Complete(BoardOutcome::Draw)
        } else {
            BoardState::InProgress
        }
    }
}

/// A board that is completely filled without either player owning a line
/// is a draw.
pub proof fn lemma_filled_unwon_is_draw<T: BoardItem>(s: Seq<T>)
    requires
        board_filled(s),
        !board_won_by(s, Player::Circle),
        !board_won_by(s, Player::Cross),
    ensures
        board_state_of(s) == BoardState::Complete(BoardOutcome::Draw),
{
}

} // verus!
