use vstd::prelude::*;

use crate::board_state::{BoardOutcome, BoardState};
use crate::fixed::{int_sqrt, spec_ln_q16};
use crate::game::{mark_spec, Game, GameS, Play};
use crate::player::Player;
use crate::rng::MoveRng;

verus! {

/// Score of one rollout, in half-points: a win for the scored player.
pub const SCORE_WIN_X2: u64 = 2;

/// Score of one rollout, in half-points: a draw.
pub const SCORE_DRAW_X2: u64 = 1;

/// Score of one rollout, in half-points: a loss for the scored player.
pub const SCORE_LOSS_X2: u64 = 0;

/// The UCB1 value of a node that has never been visited: effectively
/// positive infinity, so that every fresh child is explored once.
pub const UCB1_UNVISITED: u64 = 0xffff_ffff_ffff_ffff;

/// The search stops by itself once the root has this many visits, so that
/// the statistics can never overflow. No practical search comes anywhere
/// near it.
pub const MAX_ROOT_VISITS: u64 = 0x100_0000;

/// A node in the Monte Carlo search tree.
///
/// Nodes live in the arena of a [`Tree`] and name each other by index: the
/// root sits at index 0, `children` and `parent` hold indices. Each node
/// other than the root stores the play that leads from its parent's game
/// state to its own.
///
/// Scores are accumulated in half-points (`SCORE_WIN_X2` per won rollout,
/// `SCORE_DRAW_X2` per drawn one), so `score_x2` is at most `2 * n_visits`.
#[derive(Clone, Debug)]
pub struct Node {
    /// The play that reaches this node from its parent; `None` only for the
    /// root.
    pub play: Option<Play>,
    /// Twice the total score of all rollouts folded into this node.
    pub score_x2: u64,
    /// The total number of rollouts folded into this node.
    pub n_visits: u64,
    /// Indices of this node's children; empty until the node is expanded.
    pub children: Vec<usize>,
    /// Index of this node's parent; `None` only for the root.
    pub parent: Option<usize>,
}

/// The Monte Carlo search tree: an arena of [`Node`]s with the root at
/// index 0.
#[derive(Clone, Debug)]
pub struct Tree {
    pub nodes: Vec<Node>,
}

/// The score, in half-points, that `outcome` is worth for `mover`.
pub open spec fn score_of(outcome: BoardOutcome, mover: Player) -> int {
    match outcome {
        BoardOutcome::Draw => SCORE_DRAW_X2 as int,
        BoardOutcome::WonBy(winner) => if winner == mover {
            SCORE_WIN_X2 as int
        } else {
            SCORE_LOSS_X2 as int
        },
    }
}

/// The UCB1 value in Q16 fixed point for a visited node: the average score
/// (at most 1, so at most `0x10000`) plus the exploration bonus
/// `sqrt(2 * ln(parent visits) / visits)`, whose factor 2 is the square of
/// the exploration constant `sqrt(2)`.
pub open spec fn spec_ucb1(score_x2: int, n_visits: int, lnn: int) -> int {
    score_x2 * 0x8000 / n_visits + int_sqrt(2 * lnn * 0x10000 / n_visits)
}

impl Node {
    /// Returns this node's total rollout score, in half-points.
    pub fn score(&self) -> (r: u64)
        ensures
            r == self.score_x2,
    {
        self.score_x2
    }

    /// Returns the total number of rollouts folded into this node.
    pub fn n_visits(&self) -> (r: u64)
        ensures
            r == self.n_visits,
    {
        self.n_visits
    }

    /// Returns this node's average rollout score in Q16 fixed point, where
    /// `0x10000` stands for one point per rollout.
    pub fn average_score(&self) -> (r: u64)
        requires
            self.n_visits > 0,
            self.n_visits <= MAX_ROOT_VISITS,
            self.score_x2 <= 2 * self.n_visits,
        ensures
            r == self.score_x2 as int * 0x8000 / self.n_visits as int,
    {
        proof {
            assert(self.score_x2 * 0x8000 <= 0x1_0000_0000_0000) by (nonlinear_arith)
                requires
                    self.score_x2 <= 2 * self.n_visits,
                    self.n_visits <= 0x1_0000_0000,
            ;
        }
        self.score_x2 * 0x8000 / self.n_visits
    }

    /// Returns the indices of this node's children.
    pub fn children(&self) -> (r: &Vec<usize>)
        ensures
            r == self.children,
    {
        &self.children
    }

    /// Returns the play that reaches this node from its parent.
    pub fn play(&self) -> (r: Option<Play>)
        ensures
            r == self.play,
    {
        self.play
    }

    /// Returns whether the search should skip expansion and roll out from
    /// this node at once: it has never been visited and is not the root.
    pub fn should_rollout(&self) -> (r: bool)
        ensures
            r == (self.n_visits == 0 && self.play is Some),
    {
        self.n_visits == 0 && self.play.is_some()
    }

    /// Adds `delta` half-points to this node's score and counts one more
    /// visit.
    pub fn update_score(&mut self, delta: u64)
        requires
            old(self).score_x2 + delta <= u64::MAX,
            old(self).n_visits + 1 <= u64::MAX,
        ensures
            final(self).score_x2 == old(self).score_x2 + delta,
            final(self).n_visits == old(self).n_visits + 1,
            final(self).play == old(self).play,
            final(self).children == old(self).children,
            final(self).parent == old(self).parent,
    {
        self.score_x2 = self.score_x2 + delta;
        self.n_visits = self.n_visits + 1;
    }

    /// Returns this node's UCB1 value in Q16 fixed point: the largest
    /// possible value for an unvisited node, regardless of `lnn`, and
    /// otherwise [`spec_ucb1`] applied to its statistics. `lnn` is the
    /// natural log of the parent's visit count, in Q16.
    pub fn ucb1(&self, lnn: u64) -> (r: u64)
        requires
            self.score_x2 <= 2 * self.n_visits,
            self.n_visits <= MAX_ROOT_VISITS,
            lnn <= 0x30_0000,
        ensures
            self.n_visits == 0 ==> r == UCB1_UNVISITED,
            self.n_visits > 0 ==> r == spec_ucb1(
                self.score_x2 as int,
                self.n_visits as int,
                lnn as int,
            ),
    {
        if self.n_visits == 0 {
            return UCB1_UNVISITED;
        }
        let avg = self.average_score();
        let arg = 2 * lnn * 0x10000 / self.n_visits;
        let bonus = crate::fixed::isqrt64(arg);
        proof {
            assert(avg <= 0x10000) by (nonlinear_arith)
                requires
                    self.n_visits > 0,
                    self.score_x2 <= 2 * self.n_visits,
                    avg == self.score_x2 as int * 0x8000 / self.n_visits as int,
            ;
            assert(bonus * bonus <= arg < 0x61_0000_0000);
            assert(bonus <= 0xffffff) by (nonlinear_arith)
                requires
                    bonus >= 0,
                    bonus * bonus < 0x61_0000_0000,
            ;
        }
        avg + bonus
    }
}

impl Tree {
    /// The number of nodes in the arena.
    pub open spec fn len(self) -> int {
        self.nodes@.len() as int
    }

    /// The node at index `i`.
    pub open spec fn node(self, i: int) -> Node {
        self.nodes@[i]
    }

    /// The parent index of node `i` (meaningful for `i >= 1` in a
    /// well-formed tree).
    pub open spec fn parent_of(self, i: int) -> int {
        match self.node(i).parent {
            Option::Some(p) => p as int,
            Option::None => 0,
        }
    }

    /// The play stored at node `i` (meaningful for `i >= 1` in a
    /// well-formed tree).
    pub open spec fn play_of(self, i: int) -> Play {
        match self.node(i).play {
            Option::Some(p) => p,
            Option::None => (
                crate::board_index::BoardIndex::Center,
                crate::board_index::BoardIndex::Center,
            ),
        }
    }

    /// Whether node `c` is a child of node `i`.
    pub open spec fn is_child_of(self, c: int, i: int) -> bool {
        &&& 1 <= c < self.len()
        &&& 0 <= i
        &&& self.node(c).parent == Option::Some(i as usize)
    }

    /// The shape of the tree: parent and child links are mutually
    /// consistent, parents come before their children, and only the root
    /// lacks a parent and a play.
    pub open spec fn struct_wf(self) -> bool {
        &&& 1 <= self.len()
        &&& self.node(0).parent is None
        &&& self.node(0).play is None
        &&& forall|i: int|
            1 <= i < self.len() ==> (#[trigger] self.node(i)).parent is Some && self.node(
                i,
            ).play is Some
        &&& forall|i: int| 1 <= i < self.len() ==> 0 <= #[trigger] self.parent_of(i) < i
        &&& forall|i: int|
            1 <= i < self.len() ==> self.node(#[trigger] self.parent_of(i)).children@.contains(
                i as usize,
            )
        &&& forall|i: int, k: int|
            0 <= i < self.len() && 0 <= k < self.node(i).children@.len() ==> {
                let c = (#[trigger] self.node(i).children@[k]) as int;
                &&& i < c < self.len()
                &&& self.node(c).parent == Option::Some(i as usize)
            }
    }

    /// The total visits of the children of node `i` among nodes below `m`,
    /// found through the parent links (so the order of a child list cannot
    /// change it).
    pub open spec fn child_visit_sum_below(self, i: int, m: int) -> int
        decreases m,
    {
        if m <= 0 {
            0
        } else {
            self.child_visit_sum_below(i, m - 1) + if self.is_child_of(m - 1, i) {
                self.node(m - 1).n_visits as int
            } else {
                0
            }
        }
    }

    /// The total visits of the children of node `i`.
    pub open spec fn child_visit_sum(self, i: int) -> int {
        self.child_visit_sum_below(i, self.len())
    }

    /// How many of a node's visits came from its own rollout rather than
    /// through a child: one for every node but the root, which is never
    /// rolled out itself.
    pub open spec fn own_rollouts(i: int) -> int {
        if i == 0 {
            0
        } else {
            1
        }
    }

    /// The bookkeeping invariant of the statistics: scores fit their visit
    /// counts, the root's count dominates every node's, and — the central
    /// law — an expanded node has been visited exactly once itself plus
    /// once per visit of any of its children (the root: zero times itself).
    pub open spec fn counts_wf(self) -> bool {
        &&& forall|i: int|
            0 <= i < self.len() ==> (#[trigger] self.node(i)).score_x2 <= 2 * self.node(
                i,
            ).n_visits
        &&& forall|i: int|
            0 <= i < self.len() ==> (#[trigger] self.node(i)).n_visits <= self.node(0).n_visits
        &&& forall|i: int|
            0 <= i < self.len() && self.node(i).children@.len() > 0 ==> (#[trigger] self.node(
                i,
            )).n_visits as int == Tree::own_rollouts(i) + self.child_visit_sum(i)
    }

    /// The game state that node `i` stands for: the root game `g0` advanced
    /// by the plays along the path from the root.
    #[verifier::opaque]
    pub open spec fn node_game(self, g0: GameS, i: int) -> GameS
        decreases i,
    {
        if i <= 0 {
            g0
        } else {
            let p = self.parent_of(i);
            if 0 <= p < i {
                mark_spec(self.node_game(g0, p), self.play_of(i)).0
            } else {
                g0
            }
        }
    }

    /// How the tree relates to the game it searches: every stored play is
    /// legal in its parent's state, nodes of decided states are never
    /// expanded, and a node that is neither terminal nor expanded has been
    /// visited at most once (its first visit is the rollout that will
    /// prompt its expansion).
    pub open spec fn games_wf(self, g0: GameS) -> bool {
        &&& forall|i: int|
            1 <= i < self.len() ==> self.node_game(g0, #[trigger] self.parent_of(i)).play_legal(
                self.play_of(i),
            )
        &&& forall|i: int|
            0 <= i < self.len() && (#[trigger] self.node_game(g0, i)).state is Complete
                ==> self.node(i).children@.len() == 0
        &&& forall|i: int|
            0 <= i < self.len() && self.node(i).children@.len() == 0 && (#[trigger] self.node_game(
                g0,
                i,
            )).state is InProgress ==> self.node(i).n_visits as int <= Tree::own_rollouts(i)
    }

    /// All of the tree's invariants at once, for a given root game.
    pub open spec fn wf(self, g0: GameS) -> bool {
        &&& self.struct_wf()
        &&& self.counts_wf()
        &&& self.games_wf(g0)
    }

    /// The UCB1 value of node `c` as seen from its parent, whose visit
    /// count has natural log `lnn` (Q16): unvisited nodes rank above
    /// everything else.
    pub open spec fn ucb1_of(self, c: int, lnn: int) -> int {
        if self.node(c).n_visits == 0 {
            UCB1_UNVISITED as int
        } else {
            spec_ucb1(self.node(c).score_x2 as int, self.node(c).n_visits as int, lnn)
        }
    }

    /// Whether the `k`-th child of node `i` has the highest UCB1 value
    /// among its siblings, with later ties superseding earlier ones: no
    /// sibling scores higher, and later siblings score strictly lower.
    pub open spec fn is_last_max_child(self, i: int, k: int) -> bool {
        let lnn = spec_ln_q16(self.node(i).n_visits as int);
        &&& forall|j: int|
            0 <= j < self.node(i).children@.len() ==> self.ucb1_of(
                (#[trigger] self.node(i).children@[j]) as int,
                lnn,
            ) <= self.ucb1_of(self.node(i).children@[k] as int, lnn)
        &&& forall|j: int|
            k < j < self.node(i).children@.len() ==> self.ucb1_of(
                (#[trigger] self.node(i).children@[j]) as int,
                lnn,
            ) < self.ucb1_of(self.node(i).children@[k] as int, lnn)
    }

    /// Whether some child of node `i` carries the play `p`.
    pub open spec fn has_child_play(self, i: int, p: Play) -> bool {
        exists|c: usize| #[trigger] self.node(i).children@.contains(c) && self.play_of(c as int) == p
    }

    /// Expansion is all-at-once: a node's child list is either empty or
    /// holds a child for every legal play of the state the node stands
    /// for. (That each child's play is legal is part of
    /// [`Tree::games_wf`], and [`Tree::children_distinct_plays`] forbids
    /// duplicates, so together the children are exactly the legal plays,
    /// one each.)
    pub open spec fn children_complete(self, g0: GameS) -> bool {
        forall|i: int, p: Play|
            0 <= i < self.len() && self.node(i).children@.len() > 0 && self.node_game(
                g0,
                i,
            ).play_legal(p) ==> #[trigger] self.has_child_play(i, p)
    }

    /// No two children of a node carry the same play.
    pub open spec fn children_distinct_plays(self) -> bool {
        forall|i: int, k1: int, k2: int|
            0 <= i < self.len() && 0 <= k1 < k2 < self.node(i).children@.len() ==> self.play_of(
                (#[trigger] self.node(i).children@[k1]) as int,
            ) != self.play_of((#[trigger] self.node(i).children@[k2]) as int)
    }

    /// Everything the search maintains about its tree: the invariants of
    /// [`Tree::wf`] plus complete, duplicate-free child lists. This is what
    /// a termination predicate may assume of the tree it is handed.
    pub open spec fn search_wf(self, g0: GameS) -> bool {
        &&& self.wf(g0)
        &&& self.children_complete(g0)
        &&& self.children_distinct_plays()
    }

    /// Whether `c` is a child of node `i` that the selection policy may
    /// descend into: a child with the highest UCB1 value among its
    /// siblings, later ties winning.
    pub open spec fn is_selected_child(self, i: int, c: int) -> bool {
        exists|k: int|
            {
                &&& 0 <= k < self.node(i).children@.len()
                &&& (#[trigger] self.node(i).children@[k]) as int == c
                &&& self.is_last_max_child(i, k)
            }
    }

    /// Whether node `b` is reached from node `a` by descending, at every
    /// step, into a child with the highest UCB1 value (later ties
    /// winning).
    pub open spec fn selection_path(self, a: int, b: int) -> bool
        decreases b - a,
        when a <= b
    {
        ||| a == b
        ||| exists|c: int|
            a < c <= b && #[trigger] self.is_selected_child(a, c) && self.selection_path(c, b)
    }

    /// A fresh tree: only the root, unvisited and unexpanded.
    pub fn new_root() -> (t: Tree)
        ensures
            t.len() == 1,
            t.node(0).play is None,
            t.node(0).parent is None,
            t.node(0).children@.len() == 0,
            t.node(0).n_visits == 0,
            t.node(0).score_x2 == 0,
            forall|g0: GameS| #[trigger] t.wf(g0),
            forall|g0: GameS| #[trigger] t.node_game(g0, 0) == g0,
    {
        let root = Node {
            play: Option::None,
            score_x2: 0,
            n_visits: 0,
            children: Vec::new(),
            parent: Option::None,
        };
        let mut nodes: Vec<Node> = Vec::new();
        nodes.push(root);
        let t = Tree { nodes };
        proof {
            assert forall|g0: GameS| #[trigger] t.wf(g0) by {
                reveal(Tree::node_game);
                assert(t.struct_wf());
                assert(t.counts_wf());
                assert(t.games_wf(g0));
            }
            assert forall|g0: GameS| #[trigger] t.node_game(g0, 0) == g0 by {
                reveal(Tree::node_game);
            }
        }
        t
    }
}

/// Two trees that agree on parent links and visit counts below `m` have the
/// same child visit sums there.
proof fn lemma_sum_agree(t1: Tree, t2: Tree, i: int, m: int)
    requires
        forall|j: int|
            0 <= j < m ==> t1.is_child_of(j, i) == t2.is_child_of(j, i) && (#[trigger] t1.node(
                j,
            )).n_visits == (#[trigger] t2.node(j)).n_visits,
    ensures
        t1.child_visit_sum_below(i, m) == t2.child_visit_sum_below(i, m),
    decreases m,
{
    if m > 0 {
        lemma_sum_agree(t1, t2, i, m - 1);
    }
}

/// A child visit sum is never negative.
proof fn lemma_sum_nonneg(t: Tree, i: int, m: int)
    ensures
        t.child_visit_sum_below(i, m) >= 0,
    decreases m,
{
    if m > 0 {
        lemma_sum_nonneg(t, i, m - 1);
    }
}

/// Each child's visit count is at most the child visit sum that covers it.
proof fn lemma_child_le_sum(t: Tree, c: int, i: int, m: int)
    requires
        0 <= c < m,
        t.is_child_of(c, i),
    ensures
        t.node(c).n_visits <= t.child_visit_sum_below(i, m),
    decreases m,
{
    if c == m - 1 {
        lemma_sum_nonneg(t, i, m - 1);
    } else {
        lemma_child_le_sum(t, c, i, m - 1);
    }
}

/// A node of which no node below `m` is a child has sum zero there.
proof fn lemma_sum_empty(t: Tree, i: int, m: int)
    requires
        forall|j: int| 0 <= j < m ==> !t.is_child_of(j, i),
    ensures
        t.child_visit_sum_below(i, m) == 0,
    decreases m,
{
    if m > 0 {
        lemma_sum_empty(t, i, m - 1);
    }
}

/// Bumping one node's visit count by one raises exactly the sums of its
/// parent by one.
proof fn lemma_sum_bump(t1: Tree, t2: Tree, c: int, i: int, m: int)
    requires
        t1.len() == t2.len(),
        0 <= c < t1.len(),
        m <= t1.len(),
        forall|j: int|
            0 <= j < t1.len() ==> (#[trigger] t1.node(j)).parent == (#[trigger] t2.node(
                j,
            )).parent,
        forall|j: int|
            0 <= j < t1.len() && j != c ==> (#[trigger] t1.node(j)).n_visits == (
            #[trigger] t2.node(j)).n_visits,
        t2.node(c).n_visits == t1.node(c).n_visits + 1,
    ensures
        t2.child_visit_sum_below(i, m) == t1.child_visit_sum_below(i, m) + if c < m
            && t1.is_child_of(c, i) {
            1int
        } else {
            0int
        },
    decreases m,
{
    if m > 0 {
        lemma_sum_bump(t1, t2, c, i, m - 1);
    }
}

/// Two trees that agree on parents and plays up to node `i` assign it the
/// same game state.
proof fn lemma_node_game_agree(t1: Tree, t2: Tree, g0: GameS, i: int)
    requires
        0 <= i,
        forall|j: int|
            0 <= j <= i ==> (#[trigger] t1.node(j)).parent == (#[trigger] t2.node(j)).parent
                && t1.node(j).play == t2.node(j).play,
    ensures
        t1.node_game(g0, i) == t2.node_game(g0, i),
    decreases i,
{
    reveal(Tree::node_game);
    if i > 0 {
        let p = t1.parent_of(i);
        if 0 <= p < i {
            lemma_node_game_agree(t1, t2, g0, p);
        }
    }
}

/// Every node's game state is well-formed when the root game is.
proof fn lemma_node_game_wf(t: Tree, g0: GameS, i: int)
    requires
        g0.wf(),
        0 <= i,
    ensures
        t.node_game(g0, i).wf(),
    decreases i,
{
    reveal(Tree::node_game);
    if i > 0 {
        let p = t.parent_of(i);
        if 0 <= p < i {
            lemma_node_game_wf(t, g0, p);
            crate::game::lemma_mark_spec_wf(t.node_game(g0, p), t.play_of(i));
        }
    }
}

/// How a tree after [`Tree::add_child`] relates to the tree before: one
/// fresh node appended, its index appended to the parent's child list, and
/// nothing else touched.
pub open spec fn add_child_rel(t1: Tree, t2: Tree, parent: int, play: Play) -> bool {
    let l = t1.len();
    &&& 0 <= parent < l
    &&& l < usize::MAX
    &&& t2.len() == l + 1
    &&& forall|j: int| 0 <= j < l && j != parent ==> t2.node(j) == t1.node(j)
    &&& t2.node(parent).play == t1.node(parent).play
    &&& t2.node(parent).parent == t1.node(parent).parent
    &&& t2.node(parent).score_x2 == t1.node(parent).score_x2
    &&& t2.node(parent).n_visits == t1.node(parent).n_visits
    &&& t2.node(parent).children@ == t1.node(parent).children@.push(l as usize)
    &&& t2.node(l).play == Option::Some(play)
    &&& t2.node(l).score_x2 == 0
    &&& t2.node(l).n_visits == 0
    &&& t2.node(l).children@.len() == 0
    &&& t2.node(l).parent == Option::Some(parent as usize)
}

/// Appending a child preserves the shape invariant.
#[verifier::spinoff_prover]
proof fn lemma_add_child_struct(t1: Tree, t2: Tree, parent: int, play: Play)
    requires
        t1.struct_wf(),
        add_child_rel(t1, t2, parent, play),
    ensures
        t2.struct_wf(),
{
    let l = t1.len();
    assert forall|i: int| 1 <= i < t2.len() implies (#[trigger] t2.node(i)).parent is Some
        && t2.node(i).play is Some by {
        if i < l {
            assert(t2.node(i).parent == t1.node(i).parent);
        }
    }
    assert forall|i: int| 1 <= i < t2.len() implies 0 <= #[trigger] t2.parent_of(i) < i by {
        if i < l {
            assert(t2.node(i).parent == t1.node(i).parent);
            assert(0 <= t1.parent_of(i) < i);
        } else {
            assert(t2.node(i).parent == Option::Some(parent as usize));
            assert((parent as usize) as int == parent);
        }
    }
    assert forall|i: int|
        1 <= i < t2.len() implies t2.node(#[trigger] t2.parent_of(i)).children@.contains(
        i as usize,
    ) by {
        if i < l {
            assert(t1.node(t1.parent_of(i)).children@.contains(i as usize));
            if t1.parent_of(i) == parent {
                let k = choose|k: int|
                    0 <= k < t1.node(parent).children@.len() && t1.node(parent).children@[k]
                        == i as usize;
                assert(t2.node(parent).children@[k] == i as usize);
            }
        } else {
            assert(t2.parent_of(i) == parent);
            assert(t2.node(parent).children@[t2.node(parent).children@.len() - 1] == i as usize);
        }
    }
    assert forall|i: int, k: int|
        0 <= i < t2.len() && 0 <= k < t2.node(i).children@.len() implies {
        let c = (#[trigger] t2.node(i).children@[k]) as int;
        &&& i < c < t2.len()
        &&& t2.node(c).parent == Option::Some(i as usize)
    } by {
        if i == parent {
            if k < t1.node(parent).children@.len() {
                let c = t1.node(parent).children@[k] as int;
                assert(i < c < t1.len());
                assert(t1.node(c).parent == Option::Some(i as usize));
            } else {
                assert(t2.node(i).children@[k] == l as usize);
            }
        } else if i < l {
            let c = t1.node(i).children@[k] as int;
            assert(i < c < t1.len());
            assert(t1.node(c).parent == Option::Some(i as usize));
            assert(c != parent ==> t2.node(c) == t1.node(c));
        }
    }
}

/// Appending a child leaves every old node's game state alone and gives
/// the new node the state its play reaches.
#[verifier::spinoff_prover]
proof fn lemma_add_child_games(t1: Tree, t2: Tree, parent: int, play: Play, g0: GameS)
    requires
        t1.struct_wf(),
        t1.games_wf(g0),
        add_child_rel(t1, t2, parent, play),
        t1.node_game(g0, parent).play_legal(play),
        t1.node_game(g0, parent).state is InProgress,
        t1.node(parent).children@.len() == 0 ==> t1.node(parent).n_visits as int
            == Tree::own_rollouts(parent),
    ensures
        t2.games_wf(g0),
        forall|j: int| 0 <= j < t1.len() ==> t2.node_game(g0, j) == t1.node_game(g0, j),
        t2.node_game(g0, t1.len()) == mark_spec(t1.node_game(g0, parent), play).0,
{
    let l = t1.len();
    assert forall|j: int| 0 <= j < l implies t2.node_game(g0, j) == t1.node_game(g0, j) by {
        lemma_node_game_agree(t1, t2, g0, j);
    }
    assert(t2.node(l).parent == Option::Some(parent as usize));
    assert((parent as usize) as int == parent);
    assert(t2.parent_of(l) == parent);
    lemma_node_game_step(t2, g0, l);
    assert(t2.node_game(g0, l) == mark_spec(t2.node_game(g0, parent), play).0);
    assert forall|i: int|
        1 <= i < t2.len() implies t2.node_game(g0, #[trigger] t2.parent_of(i)).play_legal(
        t2.play_of(i),
    ) by {
        if i < l {
            assert(t2.node(i).parent == t1.node(i).parent && t2.node(i).play == t1.node(i).play);
            assert(0 <= t1.parent_of(i) < i);
            assert(t1.node_game(g0, t1.parent_of(i)).play_legal(t1.play_of(i)));
        } else {
            assert(t2.parent_of(i) == parent);
            assert(t2.play_of(i) == play);
        }
    }
    assert forall|i: int|
        0 <= i < t2.len() && (#[trigger] t2.node_game(g0, i)).state is Complete implies t2.node(
        i,
    ).children@.len() == 0 by {
        if i < l {
            if i != parent {
                assert(t2.node(i) == t1.node(i));
            }
        }
    }
    assert forall|i: int|
        0 <= i < t2.len() && t2.node(i).children@.len() == 0 && (#[trigger] t2.node_game(
        g0,
        i,
    )).state is InProgress implies t2.node(i).n_visits <= 1 by {
        if i < l && i != parent {
            assert(t2.node(i) == t1.node(i));
        }
    }
}

/// Appending an unvisited child changes no visit statistics.
#[verifier::spinoff_prover]
proof fn lemma_add_child_counts(t1: Tree, t2: Tree, parent: int, play: Play)
    requires
        t1.struct_wf(),
        t1.counts_wf(),
        t2.struct_wf(),
        add_child_rel(t1, t2, parent, play),
        t1.node(parent).children@.len() == 0 ==> t1.node(parent).n_visits as int
            == Tree::own_rollouts(parent),
    ensures
        t2.counts_wf(),
{
    let l = t1.len();
    assert forall|i: int| 0 <= i < t2.len() implies t2.child_visit_sum(i) == if i < l {
        t1.child_visit_sum(i)
    } else {
        0int
    } by {
        if i < l {
            assert forall|j: int|
                0 <= j < l implies t1.is_child_of(j, i) == t2.is_child_of(j, i) && (
            #[trigger] t1.node(j)).n_visits == (#[trigger] t2.node(j)).n_visits by {
                if j != parent {
                    assert(t2.node(j) == t1.node(j));
                }
            }
            lemma_sum_agree(t1, t2, i, l);
            assert(t2.child_visit_sum_below(i, l + 1) == t2.child_visit_sum_below(i, l) + if t2.is_child_of(
                l,
                i,
            ) {
                0int
            } else {
                0int
            });
        } else {
            assert forall|j: int| 0 <= j < t2.len() implies !t2.is_child_of(j, i) by {
                if t2.is_child_of(j, i) {
                    assert(t2.node(t2.parent_of(j)).children@.contains(j as usize));
                }
            }
            lemma_sum_empty(t2, i, t2.len());
        }
    }
    assert forall|i: int|
        0 <= i < t2.len() && t2.node(i).children@.len() > 0 implies (#[trigger] t2.node(
        i,
    )).n_visits as int == Tree::own_rollouts(i) + t2.child_visit_sum(i) by {
        if i == parent && t1.node(parent).children@.len() == 0 {
            assert forall|j: int| 0 <= j < l implies !t1.is_child_of(j, parent) by {
                if t1.is_child_of(j, parent) {
                    assert(t1.node(t1.parent_of(j)).children@.contains(j as usize));
                }
            }
            lemma_sum_empty(t1, parent, l);
        } else if i < l && i != parent {
            assert(t2.node(i) == t1.node(i));
        }
    }
    assert forall|i: int|
        0 <= i < t2.len() implies (#[trigger] t2.node(i)).score_x2 <= 2 * t2.node(i).n_visits
            && t2.node(i).n_visits <= t2.node(0).n_visits by {
        if i < l && i != parent {
            assert(t2.node(i) == t1.node(i));
        }
        if parent != 0 {
            assert(t2.node(0) == t1.node(0));
        }
    }
}

/// One step of [`Tree::node_game`]: a node's game state is its parent's,
/// advanced by its own play.
proof fn lemma_node_game_step(t: Tree, g0: GameS, i: int)
    requires
        1 <= i,
        0 <= t.parent_of(i) < i,
    ensures
        t.node_game(g0, i) == mark_spec(t.node_game(g0, t.parent_of(i)), t.play_of(i)).0,
{
    reveal(Tree::node_game);
}

/// The root's game state is the root game itself.
proof fn lemma_node_game_root(t: Tree, g0: GameS)
    ensures
        t.node_game(g0, 0) == g0,
{
    reveal(Tree::node_game);
}

impl Tree {
    /// Appends a fresh, unvisited child of node `parent` reached by `play`
    /// to the arena.
    pub(crate) fn add_child(&mut self, parent: usize, play: Play, Ghost(g0): Ghost<GameS>)
        requires
            old(self).wf(g0),
            g0.wf(),
            (parent as int) < old(self).len(),
            old(self).node_game(g0, parent as int).play_legal(play),
            old(self).node_game(g0, parent as int).state is InProgress,
            old(self).node(parent as int).children@.len() == 0 ==> old(self).node(
                parent as int,
            ).n_visits as int == Tree::own_rollouts(parent as int),
            old(self).len() < usize::MAX,
        ensures
            final(self).wf(g0),
            final(self).len() == old(self).len() + 1,
            add_child_rel(*old(self), *final(self), parent as int, play),
            forall|j: int|
                0 <= j < old(self).len() ==> final(self).node_game(g0, j) == old(self).node_game(
                    g0,
                    j,
                ),
            final(self).node_game(g0, old(self).len()) == mark_spec(
                old(self).node_game(g0, parent as int),
                play,
            ).0,
    {
        let id = self.nodes.len();
        let node = Node {
            play: Option::Some(play),
            score_x2: 0,
            n_visits: 0,
            children: Vec::new(),
            parent: Option::Some(parent),
        };
        self.nodes.push(node);
        let target = &mut self.nodes[parent];
        target.children.push(id);
        proof {
            let t1 = *old(self);
            let t2 = *self;
            assert(add_child_rel(t1, t2, parent as int, play));
            lemma_add_child_struct(t1, t2, parent as int, play);
            lemma_add_child_games(t1, t2, parent as int, play, g0);
            lemma_add_child_counts(t1, t2, parent as int, play);
        }
    }
}


impl Tree {
    /// Reorders the child list of node `i` uniformly at random. Everything
    /// else, including every node's game state, stays as it was.
    pub(crate) fn shuffle_children(&mut self, i: usize, rng: &mut MoveRng, Ghost(g0): Ghost<GameS>)
        requires
            old(self).wf(g0),
            (i as int) < old(self).len(),
        ensures
            final(self).wf(g0),
            final(self).len() == old(self).len(),
            forall|j: int|
                0 <= j < old(self).len() && j != i ==> final(self).node(j) == old(self).node(j),
            final(self).node(i as int).play == old(self).node(i as int).play,
            final(self).node(i as int).parent == old(self).node(i as int).parent,
            final(self).node(i as int).score_x2 == old(self).node(i as int).score_x2,
            final(self).node(i as int).n_visits == old(self).node(i as int).n_visits,
            final(self).node(i as int).children@.to_multiset() == old(self).node(
                i as int,
            ).children@.to_multiset(),
            final(self).node(i as int).children@.len() == old(self).node(i as int).children@.len(),
            forall|c: usize|
                final(self).node(i as int).children@.contains(c) <==> old(self).node(
                    i as int,
                ).children@.contains(c),
            forall|j: int|
                0 <= j < old(self).len() ==> final(self).node_game(g0, j) == old(self).node_game(
                    g0,
                    j,
                ),
    {
        let target = &mut self.nodes[i];
        crate::rng::shuffle_vec(&mut target.children, rng);
        proof {
            let t1 = *old(self);
            let t2 = *self;
            broadcast use vstd::seq_lib::group_to_multiset_ensures;

            assert(t2.len() == t1.len());
            assert forall|j: int| 0 <= j < t1.len() && j != i implies t2.node(j) == t1.node(
                j,
            ) by {}
            assert(t2.node(i as int).play == t1.node(i as int).play);
            assert(t2.node(i as int).parent == t1.node(i as int).parent);
            assert(t2.node(i as int).score_x2 == t1.node(i as int).score_x2);
            assert(t2.node(i as int).n_visits == t1.node(i as int).n_visits);

            let c1 = t1.node(i as int).children@;
            let c2 = t2.node(i as int).children@;
            assert(c2.to_multiset() == c1.to_multiset());
            assert(c1.len() == c1.to_multiset().len());
            assert(c2.len() == c2.to_multiset().len());
            assert(c2.len() == c1.len());
            assert forall|c: usize| c2.contains(c) <==> c1.contains(c) by {
                assert(c1.contains(c) <==> c1.to_multiset().count(c) > 0);
                assert(c2.contains(c) <==> c2.to_multiset().count(c) > 0);
            }
            assert forall|j: int| 0 <= j < t1.len() implies t2.node_game(g0, j) == t1.node_game(
                g0,
                j,
            ) by {
                lemma_node_game_agree(t1, t2, g0, j);
            }
            assert forall|i2: int| 1 <= i2 < t2.len() implies 0 <= #[trigger] t2.parent_of(i2)
                < i2 by {
                assert(0 <= t1.parent_of(i2) < i2);
            }
            assert forall|i2: int|
                1 <= i2 < t2.len() implies t2.node(#[trigger] t2.parent_of(i2)).children@.contains(
                i2 as usize,
            ) by {
                assert(t1.node(t1.parent_of(i2)).children@.contains(i2 as usize));
            }
            assert forall|i2: int, k: int|
                0 <= i2 < t2.len() && 0 <= k < t2.node(i2).children@.len() implies {
                let c = (#[trigger] t2.node(i2).children@[k]) as int;
                &&& i2 < c < t2.len()
                &&& t2.node(c).parent == Option::Some(i2 as usize)
            } by {
                let c = t2.node(i2).children@[k];
                if i2 == i {
                    assert(c2[k] == c);
                    assert(c2.contains(c));
                    assert(c1.contains(c));
                    let k1 = choose|k1: int| 0 <= k1 < c1.len() && c1[k1] == c;
                    assert(t1.node(i2).children@[k1] == c);
                    assert(i2 < c < t1.len());
                    assert(t1.node(c as int).parent == Option::Some(i2 as usize));
                    if c as int != i {
                        assert(t2.node(c as int) == t1.node(c as int));
                    }
                } else {
                    assert(t2.node(i2).children@ == t1.node(i2).children@);
                    assert(t1.node(i2).children@[k] == c);
                    assert(i2 < c < t1.len());
                    assert(t1.node(c as int).parent == Option::Some(i2 as usize));
                    if c as int != i {
                        assert(t2.node(c as int) == t1.node(c as int));
                    }
                }
            }
            assert forall|i2: int|
                1 <= i2 < t2.len() implies (#[trigger] t2.node(i2)).parent is Some && t2.node(
                i2,
            ).play is Some by {
                assert(t2.node(i2).parent == t1.node(i2).parent);
                assert(t2.node(i2).play == t1.node(i2).play);
            }
            assert(t2.struct_wf());
            assert forall|j: int|
                0 <= j < t1.len() implies t1.is_child_of(j, 0) == t2.is_child_of(j, 0)
                    || true by {}
            assert forall|i2: int| 0 <= i2 < t2.len() implies t2.child_visit_sum(i2)
                == t1.child_visit_sum(i2) by {
                assert forall|j: int|
                    0 <= j < t1.len() implies t1.is_child_of(j, i2) == t2.is_child_of(j, i2) && (
                #[trigger] t1.node(j)).n_visits == (#[trigger] t2.node(j)).n_visits by {
                    assert(t2.node(j).parent == t1.node(j).parent);
                    assert(t2.node(j).n_visits == t1.node(j).n_visits);
                }
                lemma_sum_agree(t1, t2, i2, t1.len());
            }
            assert forall|i2: int|
                0 <= i2 < t2.len() implies (#[trigger] t2.node(i2)).score_x2 <= 2 * t2.node(
                i2,
            ).n_visits && t2.node(i2).n_visits <= t2.node(0).n_visits by {
                assert(t2.node(i2).score_x2 == t1.node(i2).score_x2);
                assert(t2.node(i2).n_visits == t1.node(i2).n_visits);
                assert(t2.node(0).n_visits == t1.node(0).n_visits);
            }
            assert forall|i2: int|
                0 <= i2 < t2.len() && t2.node(i2).children@.len() > 0 implies (#[trigger] t2.node(
                i2,
            )).n_visits as int == Tree::own_rollouts(i2) + t2.child_visit_sum(i2) by {
                assert(t2.node(i2).n_visits == t1.node(i2).n_visits);
                assert(t2.node(i2).children@.len() == t1.node(i2).children@.len());
            }
            assert(t2.counts_wf());
            assert forall|i2: int|
                1 <= i2 < t2.len() implies t2.node_game(g0, #[trigger] t2.parent_of(i2)).play_legal(
                t2.play_of(i2),
            ) by {
                assert(0 <= t1.parent_of(i2) < i2);
                assert(t1.node_game(g0, t1.parent_of(i2)).play_legal(t1.play_of(i2)));
            }
            assert(t2.games_wf(g0));
        }
    }

    /// Returns the child of node `i` with the highest UCB1 value, later
    /// ties winning, or `None` if the node has no children.
    pub(crate) fn find_best_child(&self, i: usize, Ghost(g0): Ghost<GameS>) -> (r: Option<usize>)
        requires
            self.wf(g0),
            (i as int) < self.len(),
            self.node(0).n_visits <= MAX_ROOT_VISITS,
        ensures
            r is None <==> self.node(i as int).children@.len() == 0,
            match r {
                Option::Some(c) => exists|k: int|
                    {
                        &&& 0 <= k < self.node(i as int).children@.len()
                        &&& (#[trigger] self.node(i as int).children@[k]) == c
                        &&& self.is_last_max_child(i as int, k)
                    },
                Option::None => true,
            },
    {
        let n = self.nodes[i].children.len();
        if n == 0 {
            return Option::None;
        }
        let lnn = crate::fixed::ln_q16(self.nodes[i].n_visits);
        let ghost lnns = spec_ln_q16(self.node(i as int).n_visits as int);
        let ghost kids = self.node(i as int).children@;
        let first = self.nodes[i].children[0];
        let mut best: usize = first;
        let mut best_val: u64 = self.child_ucb1(first, lnn);
        let mut best_k: usize = 0;
        let mut k: usize = 1;
        while k < n
            invariant
                self.wf(g0),
                (i as int) < self.len(),
                self.node(0).n_visits <= MAX_ROOT_VISITS,
                kids == self.node(i as int).children@,
                lnns == spec_ln_q16(self.node(i as int).n_visits as int),
                lnn <= 0x30_0000,
                lnn == lnns,
                n == kids.len(),
                1 <= k <= n,
                best_k < k,
                kids[best_k as int] == best,
                best_val == self.ucb1_of(best as int, lnns),
                forall|j: int|
                    0 <= j < k ==> self.ucb1_of(#[trigger] kids[j] as int, lnns) <= self.ucb1_of(
                        best as int,
                        lnns,
                    ),
                forall|j: int|
                    best_k < j < k ==> self.ucb1_of(#[trigger] kids[j] as int, lnns)
                        < self.ucb1_of(best as int, lnns),
            decreases n - k,
        {
            let c = self.nodes[i].children[k];
            let val = self.child_ucb1(c, lnn);
            if val >= best_val {
                best = c;
                best_val = val;
                best_k = k;
            }
            k = k + 1;
        }
        Option::Some(best)
    }

    /// Returns the UCB1 value of the node `c`, a child of a node whose
    /// visit count has natural log `lnn` (Q16).
    fn child_ucb1(&self, c: usize, lnn: u64) -> (r: u64)
        requires
            exists|g0: GameS| #[trigger] self.wf(g0),
            (c as int) < self.len(),
            self.node(0).n_visits <= MAX_ROOT_VISITS,
            lnn <= 0x30_0000,
        ensures
            r == self.ucb1_of(c as int, lnn as int),
    {
        proof {
            let g0 = choose|g0: GameS| self.wf(g0);
            assert(self.node(c as int).score_x2 <= 2 * self.node(c as int).n_visits);
            assert(self.node(c as int).n_visits <= self.node(0).n_visits);
        }
        self.nodes[c].ucb1(lnn)
    }
}


/// Drives one iteration of the search: it walks down the tree by UCB1
/// selection, expands the first unexpanded node it reaches, rolls the game
/// out to an outcome, and walks back up folding the outcome into every
/// node on the path.
///
/// The cursor keeps a scratch [`Game`] advanced to the state of the node
/// it currently points at, and restores it from `original_game` after each
/// iteration.
pub(crate) struct Cursor {
    /// The search tree.
    pub tree: Tree,
    /// The node the cursor currently points at.
    pub current: usize,
    /// The player who made the move leading into the current node.
    pub current_player: Player,
    /// The untouched game the search was started on.
    pub original_game: Game,
    /// The scratch game, advanced to the current node's state.
    pub game: Game,
    /// The source of randomness for shuffles and rollouts.
    pub rng: MoveRng,
}

impl Cursor {
    /// The tree is well-formed for the original game, which is a
    /// well-formed game still in progress.
    pub(crate) open spec fn tree_inv(self) -> bool {
        &&& self.original_game.wf()
        &&& self.original_game@.state is InProgress
        &&& self.tree.wf(self.original_game@)
    }

    /// The cursor points at a real node, and its scratch game and player
    /// bookkeeping agree with that node.
    pub(crate) open spec fn at_node(self) -> bool {
        &&& (self.current as int) < self.tree.len()
        &&& self.game.wf()
        &&& self.game@ == self.tree.node_game(self.original_game@, self.current as int)
        &&& self.current_player == self.game@.current_player.spec_other()
    }

    /// The cursor's state between iterations: back at the root, with the
    /// scratch game equal to the original, and the tree carrying the full
    /// search invariant.
    pub(crate) open spec fn ready(self) -> bool {
        &&& self.tree_inv()
        &&& self.tree.children_complete(self.original_game@)
        &&& self.tree.children_distinct_plays()
        &&& self.current == 0
        &&& self.game.wf()
        &&& self.game@ == self.original_game@
        &&& self.current_player == self.original_game@.current_player.spec_other()
    }

    /// Makes a cursor over a fresh root node for `game`.
    pub(crate) fn new(game: Game, rng: MoveRng) -> (c: Cursor)
        requires
            game.wf(),
            game@.state is InProgress,
        ensures
            c.ready(),
            c.tree.len() == 1,
            c.tree.node(0).children@.len() == 0,
            c.tree.node(0).n_visits == 0,
            c.original_game@ == game@,
    {
        let original_game = game.duplicate();
        let current_player = game.current_player.other();
        let c = Cursor {
            tree: Tree::new_root(),
            current: 0,
            current_player,
            original_game,
            game,
            rng,
        };
        proof {
            lemma_node_game_root(c.tree, c.original_game@);
        }
        c
    }

    /// Advances the scratch game by `play`, which must be legal; reports
    /// the outcome when the play ends the game.
    fn mark_tile(&mut self, play: Play) -> (r: Option<BoardOutcome>)
        requires
            old(self).game.wf(),
            old(self).game@.play_legal(play),
        ensures
            final(self).game.wf(),
            final(self).game@ == mark_spec(old(self).game@, play).0,
            final(self).tree == old(self).tree,
            final(self).current == old(self).current,
            final(self).current_player == old(self).current_player,
            final(self).original_game == old(self).original_game,
            final(self).rng == old(self).rng,
            r is None <==> final(self).game@.state is InProgress,
            match r {
                Option::Some(o) => final(self).game@.state == BoardState::Complete(o),
                Option::None => true,
            },
    {
        proof {
            crate::game::lemma_mark_spec_facts(self.game@, play);
        }
        match self.game.mark_tile(play) {
            crate::tile::MarkTileResult::NoChange => {
                proof {
                    assert(false);
                }
                Option::None
            },
            crate::tile::MarkTileResult::TileMarked => Option::None,
            crate::tile::MarkTileResult::OutcomeDecided(outcome) => Option::Some(outcome),
        }
    }

    /// Moves the cursor into `child`, a child of the current node, and
    /// advances the scratch game by its play.
    fn visit(&mut self, child: usize) -> (r: Option<BoardOutcome>)
        requires
            old(self).tree_inv(),
            old(self).at_node(),
            old(self).tree.node(old(self).current as int).children@.contains(child),
        ensures
            final(self).tree == old(self).tree,
            final(self).original_game == old(self).original_game,
            final(self).rng == old(self).rng,
            final(self).tree_inv(),
            final(self).at_node(),
            final(self).current == child,
            (old(self).current as int) < child as int,
            r is None <==> final(self).game@.state is InProgress,
            match r {
                Option::Some(o) => final(self).game@.state == BoardState::Complete(o),
                Option::None => true,
            },
    {
        let ghost g0 = self.original_game@;
        let ghost cur = self.current as int;
        proof {
            let kids = self.tree.node(cur).children@;
            let k = choose|k: int| 0 <= k < kids.len() && kids[k] == child;
            assert(self.tree.node(cur).children@[k] == child);
            assert(cur < child as int);
            assert((child as int) < self.tree.len());
            assert(self.tree.node(child as int).parent == Option::Some(self.current));
            assert(self.tree.parent_of(child as int) == cur);
            assert(self.tree.node_game(g0, self.tree.parent_of(child as int)).play_legal(
                self.tree.play_of(child as int),
            ));
            lemma_node_game_step(self.tree, g0, child as int);
            crate::game::lemma_mark_spec_facts(self.game@, self.tree.play_of(child as int));
        }
        let play = match self.tree.nodes[child].play {
            Option::Some(p) => p,
            Option::None => {
                proof {
                    assert(false);
                }
                (crate::board_index::BoardIndex::Center, crate::board_index::BoardIndex::Center)
            },
        };
        self.current = child;
        self.current_player = self.current_player.other();
        self.mark_tile(play)
    }

    /// Walks down the tree, at each node descending into the best child by
    /// UCB1, until it reaches a node with no children; reports the outcome
    /// at once when a descent ends the game.
    fn explore(&mut self) -> (r: Option<BoardOutcome>)
        requires
            old(self).tree_inv(),
            old(self).at_node(),
            old(self).current == 0,
            old(self).game@.state is InProgress,
            old(self).tree.node(0).n_visits <= MAX_ROOT_VISITS,
        ensures
            final(self).tree == old(self).tree,
            final(self).original_game == old(self).original_game,
            final(self).rng == old(self).rng,
            final(self).tree_inv(),
            final(self).at_node(),
            r is None ==> final(self).tree.node(final(self).current as int).children@.len() == 0
                && final(self).game@.state is InProgress,
            r is None && final(self).current != 0 ==> final(self).tree.node(0).children@.len()
                > 0,
            // every descent entered a child with the best UCB1 value
            final(self).tree.selection_path(old(self).current as int, final(self).current as int),
            match r {
                Option::Some(o) => final(self).game@.state == BoardState::Complete(o)
                    && final(self).current >= 1 && final(self).tree.node(0).children@.len() > 0,
                Option::None => true,
            },
    {
        let ghost t0 = self.tree;
        let ghost og0 = self.original_game;
        let ghost rng0 = self.rng;
        #[verifier::loop_isolation(false)]
        loop
            invariant
                self.tree == t0,
                self.original_game == og0,
                self.rng == rng0,
                self.tree_inv(),
                self.at_node(),
                self.game@.state is InProgress,
                self.tree.node(0).n_visits <= MAX_ROOT_VISITS,
                self.current != 0 ==> self.tree.node(0).children@.len() > 0,
                old(self).current <= self.current,
                self.tree.selection_path(old(self).current as int, self.current as int),
            decreases self.tree.len() - self.current,
        {
            let best = self.tree.find_best_child(self.current, Ghost(self.original_game@));
            match best {
                Option::None => {
                    return Option::None;
                },
                Option::Some(child) => {
                    proof {
                        let kids = self.tree.node(self.current as int).children@;
                        let k = choose|k: int|
                            {
                                &&& 0 <= k < kids.len()
                                &&& kids[k] == child
                                &&& self.tree.is_last_max_child(self.current as int, k)
                            };
                        assert(kids.contains(child));
                        assert(self.tree.is_selected_child(self.current as int, child as int));
                        assert((self.current as int) < child as int);
                        lemma_selection_extend(
                            self.tree,
                            old(self).current as int,
                            self.current as int,
                            child as int,
                        );
                        if self.current == 0 {
                            assert(self.tree.node(0).children@.len() > 0);
                        }
                    }
                    if let Option::Some(outcome) = self.visit(child) {
                        return Option::Some(outcome);
                    }
                },
            }
        }
    }
}


impl Cursor {
    /// Expands the current node: creates one child per legal play from the
    /// scratch game, shuffles them once, and descends into the first child
    /// in shuffled order. Skipped (`None` returned at once) for a node that
    /// was just created and has never been visited, which goes straight to
    /// its rollout.
    fn expand(&mut self) -> (r: Option<BoardOutcome>)
        requires
            old(self).tree_inv(),
            old(self).tree.children_complete(old(self).original_game@),
            old(self).tree.children_distinct_plays(),
            old(self).at_node(),
            old(self).game@.state is InProgress,
            old(self).tree.node(old(self).current as int).children@.len() == 0,
            old(self).tree.len() + 100 <= usize::MAX,
        ensures
            final(self).original_game == old(self).original_game,
            final(self).tree_inv(),
            final(self).tree.children_complete(old(self).original_game@),
            final(self).tree.children_distinct_plays(),
            final(self).at_node(),
            final(self).current >= 1,
            final(self).tree.node(final(self).current as int).children@.len() == 0,
            final(self).tree.node(final(self).current as int).n_visits == 0,
            final(self).tree.len() >= old(self).tree.len(),
            final(self).tree.len() <= old(self).tree.len() + 81,
            // a just-created node skips expansion entirely
            (old(self).tree.node(old(self).current as int).n_visits == 0 && old(self).tree.node(
                old(self).current as int,
            ).play is Some) ==> *final(self) == *old(self),
            // otherwise the node gains exactly one child per legal play of
            // its state (the scratch game); children_distinct_plays above
            // rules out duplicates
            !(old(self).tree.node(old(self).current as int).n_visits == 0 && old(self).tree.node(
                old(self).current as int,
            ).play is Some) ==> forall|p: Play|
                #[trigger] final(self).tree.has_child_play(old(self).current as int, p) <==> old(
                    self,
                ).game@.play_legal(p),
            !(old(self).tree.node(old(self).current as int).n_visits == 0 && old(self).tree.node(
                old(self).current as int,
            ).play is Some) ==> final(self).tree.node(final(self).current as int).parent
                == Option::Some(old(self).current),
            // every other node is untouched, and the expanded node keeps
            // everything but its child list
            forall|j: int|
                0 <= j < old(self).tree.len() && j != old(self).current as int ==> (
                #[trigger] final(self).tree.node(j)) == old(self).tree.node(j),
            final(self).tree.node(old(self).current as int).play == old(self).tree.node(
                old(self).current as int,
            ).play,
            final(self).tree.node(old(self).current as int).parent == old(self).tree.node(
                old(self).current as int,
            ).parent,
            forall|j: int|
                0 <= j < old(self).tree.len() ==> (#[trigger] final(self).tree.node(j)).n_visits
                    == old(self).tree.node(j).n_visits && final(self).tree.node(j).score_x2 == old(
                    self,
                ).tree.node(j).score_x2,
            forall|j: int|
                0 <= j < old(self).tree.len() ==> #[trigger] final(self).tree.node_game(
                    old(self).original_game@,
                    j,
                ) == old(self).tree.node_game(old(self).original_game@, j),
            old(self).current == 0 ==> final(self).tree.node(0).children@.len() > 0,
            old(self).tree.node(0).children@.len() > 0 ==> final(self).tree.node(
                0,
            ).children@.len() > 0,
            final(self).tree.node(0).n_visits == old(self).tree.node(0).n_visits,
            r is None ==> final(self).game@.state is InProgress,
            match r {
                Option::Some(o) => final(self).game@.state == BoardState::Complete(o),
                Option::None => true,
            },
    {
        let ghost g0 = self.original_game@;
        if self.tree.nodes[self.current].should_rollout() {
            proof {
                assert(self.tree.node(self.current as int).play is Some);
                assert(self.current != 0);
            }
            return Option::None;
        }
        let cur = self.current;
        let ghost t0 = self.tree;
        proof {
            // a childless node that is still in progress and not eligible
            // for a rollout has exactly its own rollouts as visits
            assert(self.tree.node_game(g0, cur as int).state is InProgress);
            assert(self.tree.node(cur as int).n_visits <= Tree::own_rollouts(cur as int));
            if cur != 0 {
                assert(self.tree.node(cur as int).play is Some);
                assert(self.tree.node(cur as int).n_visits != 0);
            }
        }
        let plays = self.game.legal_plays();
        let mut k: usize = 0;
        while k < plays.len()
            invariant
                g0 == self.original_game@,
                t0.len() + 100 <= usize::MAX,
                self.tree_inv(),
                self.at_node(),
                self.current == cur,
                (cur as int) < t0.len(),
                self.game == old(self).game,
                self.original_game == old(self).original_game,
                self.game@.state is InProgress,
                forall|p: Play| plays@.contains(p) <==> self.game@.play_legal(p),
                k <= plays@.len(),
                plays@.len() <= 81,
                self.tree.len() == t0.len() + k,
                self.tree.node(cur as int).children@.len() == k as int,
                forall|j: int|
                    0 <= j < t0.len() && j != cur as int ==> (#[trigger] self.tree.node(j))
                        == t0.node(j),
                self.tree.node(cur as int).n_visits == t0.node(cur as int).n_visits,
                self.tree.node(cur as int).score_x2 == t0.node(cur as int).score_x2,
                self.tree.node(cur as int).play == t0.node(cur as int).play,
                self.tree.node(cur as int).parent == t0.node(cur as int).parent,
                forall|j: int|
                    t0.len() <= j < self.tree.len() ==> (#[trigger] self.tree.node(j)).n_visits
                        == 0 && self.tree.node(j).children@.len() == 0,
                forall|k2: int|
                    0 <= k2 < k ==> (#[trigger] self.tree.node(cur as int).children@[k2]) == (
                    t0.len() + k2) as usize,
                forall|k2: int|
                    0 <= k2 < k ==> (#[trigger] self.tree.node(t0.len() + k2)).play
                        == Option::Some(plays@[k2]),
                forall|k1: int, k2: int|
                    0 <= k1 < k2 < plays@.len() ==> plays@[k1] != plays@[k2],
                forall|j: int|
                    0 <= j < t0.len() ==> #[trigger] self.tree.node_game(g0, j) == t0.node_game(
                        g0,
                        j,
                    ),
                t0.node(cur as int).children@.len() == 0,
                t0.node(cur as int).n_visits as int <= Tree::own_rollouts(cur as int),
                cur != 0 ==> t0.node(cur as int).n_visits != 0,
            decreases plays@.len() - k,
        {
            let play = plays[k];
            proof {
                assert(plays@.contains(plays@[k as int]));
                assert(self.game@.play_legal(play));
                assert(self.tree.node_game(g0, cur as int) == self.game@);
                if self.tree.node(cur as int).children@.len() == 0 {
                    assert(self.tree.node(cur as int).n_visits == t0.node(cur as int).n_visits);
                    assert(self.tree.node(cur as int).n_visits as int == Tree::own_rollouts(
                        cur as int,
                    ));
                }
            }
            self.tree.add_child(cur, play, Ghost(g0));
            k = k + 1;
        }
        let ghost t_mid = self.tree;
        self.tree.shuffle_children(cur, &mut self.rng, Ghost(g0));
        proof {
            assert(self.tree.node(cur as int).children@.len() > 0);
            let ta = self.tree;
            let m = plays@.len();
            let kids_mid = t_mid.node(cur as int).children@;
            let kids = ta.node(cur as int).children@;
            let base = t0.len();
            assert(kids_mid.len() == m && kids.len() == m);
            // before the shuffle, the children are the fresh ids in order
            assert forall|k1: int, k2: int|
                0 <= k1 < k2 < m implies kids_mid[k1] != kids_mid[k2] by {
                assert(kids_mid[k1] == (base + k1) as usize);
                assert(kids_mid[k2] == (base + k2) as usize);
            }
            // the shuffle touched no node, so every id keeps its play
            assert forall|c: usize|
                (c as int) < ta.len() && c != cur implies #[trigger] ta.node(c as int).play
                == t_mid.node(c as int).play by {
                assert(ta.node(c as int) == t_mid.node(c as int));
            }
            // the expanded node holds exactly one child per legal play
            assert forall|p: Play| #[trigger] ta.has_child_play(cur as int, p) implies
                self.game@.play_legal(p) by {
                let c = choose|c: usize|
                    #[trigger] ta.node(cur as int).children@.contains(c) && ta.play_of(c as int)
                        == p;
                assert(kids_mid.contains(c));
                let k2 = choose|k2: int| 0 <= k2 < m && kids_mid[k2] == c;
                assert(kids_mid[k2] == (base + k2) as usize);
                assert(t_mid.node(base + k2).play == Option::Some(plays@[k2]));
                assert(ta.play_of(c as int) == plays@[k2]);
                assert(plays@.contains(plays@[k2]));
            }
            assert forall|p: Play| self.game@.play_legal(p) implies #[trigger] ta.has_child_play(
                cur as int,
                p,
            ) by {
                assert(plays@.contains(p));
                let k2 = choose|k2: int| 0 <= k2 < m && plays@[k2] == p;
                let c = (base + k2) as usize;
                assert(kids_mid[k2] == c);
                assert(kids_mid.contains(c));
                assert(kids.contains(c));
                assert(t_mid.node(base + k2).play == Option::Some(plays@[k2]));
                assert(ta.play_of(c as int) == p);
            }
            // no two children carry the same play
            assert forall|k1: int, k2: int| 0 <= k1 < k2 < m implies ta.play_of(
                (#[trigger] kids[k1]) as int,
            ) != ta.play_of((#[trigger] kids[k2]) as int) by {
                broadcast use vstd::seq_lib::group_to_multiset_ensures;

                let d1 = kids[k1];
                let d2 = kids[k2];
                if d1 == d2 {
                    lemma_count_at_least_two(kids, k1, k2);
                    kids_mid.lemma_multiset_has_no_duplicates();
                    assert(kids.to_multiset().count(d1) >= 2);
                    assert(kids_mid.to_multiset().contains(d1));
                    assert(false);
                } else {
                    assert(kids.contains(d1) && kids.contains(d2));
                    assert(kids_mid.contains(d1) && kids_mid.contains(d2));
                    let j1 = choose|j1: int| 0 <= j1 < m && kids_mid[j1] == d1;
                    let j2 = choose|j2: int| 0 <= j2 < m && kids_mid[j2] == d2;
                    assert(kids_mid[j1] == (base + j1) as usize);
                    assert(kids_mid[j2] == (base + j2) as usize);
                    assert(j1 != j2);
                    assert(t_mid.node(base + j1).play == Option::Some(plays@[j1]));
                    assert(t_mid.node(base + j2).play == Option::Some(plays@[j2]));
                    assert(plays@[j1] != plays@[j2]);
                    assert(ta.play_of(d1 as int) != ta.play_of(d2 as int));
                }
            }
            // other nodes keep their complete, duplicate-free child lists
            assert forall|i: int, p: Play|
                0 <= i < ta.len() && ta.node(i).children@.len() > 0 && ta.node_game(
                    g0,
                    i,
                ).play_legal(p) implies #[trigger] ta.has_child_play(i, p) by {
                if i == cur as int {
                    assert(ta.node_game(g0, i) == t0.node_game(g0, i));
                    assert(t0.node_game(g0, cur as int) == self.game@);
                } else if i < t0.len() {
                    assert(ta.node(i) == t0.node(i));
                    assert(ta.node_game(g0, i) == t0.node_game(g0, i));
                    assert(t0.has_child_play(i, p));
                    let c = choose|c: usize|
                        #[trigger] t0.node(i).children@.contains(c) && t0.play_of(c as int) == p;
                    let kk = choose|kk: int|
                        0 <= kk < t0.node(i).children@.len() && t0.node(i).children@[kk] == c;
                    assert(t0.node(i).children@[kk] == c);
                    assert(i < c as int && (c as int) < t0.len());
                    assert(ta.node(c as int).play == t0.node(c as int).play);
                    assert(ta.node(i).children@.contains(c) && ta.play_of(c as int) == p);
                } else {
                    assert(ta.node(i).children@.len() == 0);
                }
            }
            assert(ta.children_complete(g0));
            assert forall|i: int, k1: int, k2: int|
                0 <= i < ta.len() && 0 <= k1 < k2 < ta.node(i).children@.len() implies ta.play_of(
                (#[trigger] ta.node(i).children@[k1]) as int,
            ) != ta.play_of((#[trigger] ta.node(i).children@[k2]) as int) by {
                if i != cur as int {
                    if i < t0.len() {
                        assert(ta.node(i) == t0.node(i));
                        let c1 = t0.node(i).children@[k1];
                        let c2 = t0.node(i).children@[k2];
                        assert(i < c1 as int && (c1 as int) < t0.len());
                        assert(i < c2 as int && (c2 as int) < t0.len());
                        assert(t0.play_of(c1 as int) != t0.play_of(c2 as int));
                        assert(ta.node(c1 as int).play == t0.node(c1 as int).play);
                        assert(ta.node(c2 as int).play == t0.node(c2 as int).play);
                    } else {
                        assert(ta.node(i).children@.len() == 0);
                    }
                }
            }
            assert(ta.children_distinct_plays());
        }
        let first = self.tree.nodes[cur].children[0];
        proof {
            assert(self.tree.node(cur as int).children@.contains(
                self.tree.node(cur as int).children@[0],
            ));
            assert(self.tree.node(first as int).parent == Option::Some(cur));
            if (first as int) < t0.len() {
                assert(self.tree.node(first as int) == t0.node(first as int));
                assert(t0.node(t0.parent_of(first as int)).children@.contains(first));
                assert(false);
            }
            assert(self.tree.node(first as int).n_visits == 0);
            assert(self.tree.node(first as int).children@.len() == 0);
        }
        self.visit(first)
    }

    /// Plays the scratch game out with uniformly random legal moves until
    /// it completes, and returns the outcome.
    fn rollout(&mut self) -> (o: BoardOutcome)
        requires
            old(self).game.wf(),
            old(self).game@.state is InProgress,
        ensures
            final(self).game.wf(),
            final(self).game@.state == BoardState::Complete(o),
            final(self).tree == old(self).tree,
            final(self).current == old(self).current,
            final(self).current_player == old(self).current_player,
            final(self).original_game == old(self).original_game,
    {
        loop
            invariant
                self.game.wf(),
                self.game@.state is InProgress,
                self.tree == old(self).tree,
                self.current == old(self).current,
                self.current_player == old(self).current_player,
                self.original_game == old(self).original_game,
            decreases crate::game::unmarked_count(self.game@),
        {
            let play = crate::random::generate_move(&mut self.rng, &self.game);
            proof {
                crate::game::lemma_mark_decreases(self.game@, play);
            }
            match self.mark_tile(play) {
                Option::Some(outcome) => {
                    return outcome;
                },
                Option::None => {
                    proof {
                        crate::game::lemma_unmarked_nonneg(
                            self.game@.regions,
                            crate::board_index::N as int,
                        );
                    }
                },
            }
        }
    }
}


/// Shape equality of two trees: only scores and visit counts may differ.
pub open spec fn same_shape(t1: Tree, t2: Tree) -> bool {
    &&& t1.len() == t2.len()
    &&& forall|j: int|
        0 <= j < t1.len() ==> (#[trigger] t2.node(j)).play == t1.node(j).play && t2.node(
            j,
        ).parent == t1.node(j).parent && t2.node(j).children == t1.node(j).children
}

/// Whether node `i` is `from` itself or one of its ancestors through the
/// parent links.
pub open spec fn anc(t: Tree, from: int, i: int) -> bool
    decreases from,
{
    if from == i {
        true
    } else if from <= 0 {
        false
    } else {
        let p = t.parent_of(from);
        &&& 0 <= p < from
        &&& anc(t, p, i)
    }
}

/// Ancestors sit at or below their descendants in the arena.
proof fn lemma_anc_le(t: Tree, a: int, b: int)
    requires
        anc(t, a, b),
    ensures
        b <= a,
    decreases a,
{
    if a != b && a > 0 {
        lemma_anc_le(t, t.parent_of(a), b);
    }
}

/// The ancestor relation extends along one more parent link.
proof fn lemma_anc_parent(t: Tree, a: int, b: int)
    requires
        anc(t, a, b),
        b >= 1,
        0 <= t.parent_of(b) < b,
    ensures
        anc(t, a, t.parent_of(b)),
    decreases a,
{
    if a == b {
        assert(anc(t, t.parent_of(b), t.parent_of(b)));
    } else if a > 0 {
        lemma_anc_parent(t, t.parent_of(a), b);
    }
}

/// In a well-shaped tree, the root is an ancestor of every node.
proof fn lemma_anc_root(t: Tree, a: int)
    requires
        t.struct_wf(),
        0 <= a < t.len(),
    ensures
        anc(t, a, 0),
    decreases a,
{
    if a > 0 {
        lemma_anc_root(t, t.parent_of(a));
    }
}

/// A selection path extends along one more selected child.
proof fn lemma_selection_extend(t: Tree, a: int, b: int, c: int)
    requires
        a <= b < c,
        t.selection_path(a, b),
        t.is_selected_child(b, c),
    ensures
        t.selection_path(a, c),
    decreases b - a,
{
    if a == b {
        assert(t.selection_path(c, c));
    } else {
        let m = choose|m: int|
            a < m <= b && #[trigger] t.is_selected_child(a, m) && t.selection_path(m, b);
        lemma_selection_extend(t, m, b, c);
    }
}

/// Trees of the same shape have the same ancestor relation.
proof fn lemma_anc_same_shape(t1: Tree, t2: Tree, a: int, b: int)
    requires
        same_shape(t1, t2),
        0 <= a < t1.len(),
    ensures
        anc(t1, a, b) == anc(t2, a, b),
    decreases a,
{
    if a != b && a > 0 {
        assert(t2.node(a).parent == t1.node(a).parent);
        if 0 <= t1.parent_of(a) < a {
            lemma_anc_same_shape(t1, t2, t1.parent_of(a), b);
        }
    }
}

/// Trees of the same shape, standing for the same games, keep complete and
/// duplicate-free child lists complete and duplicate-free.
proof fn lemma_search_shape(t1: Tree, t2: Tree, g0: GameS)
    requires
        same_shape(t1, t2),
        t1.struct_wf(),
        t1.children_complete(g0),
        t1.children_distinct_plays(),
    ensures
        t2.children_complete(g0),
        t2.children_distinct_plays(),
{
    lemma_same_shape_games(t1, t2, g0);
    assert forall|i: int, p: Play|
        0 <= i < t2.len() && t2.node(i).children@.len() > 0 && t2.node_game(g0, i).play_legal(
            p,
        ) implies #[trigger] t2.has_child_play(i, p) by {
        assert(t2.node(i).children == t1.node(i).children);
        assert(t1.has_child_play(i, p));
        let c = choose|c: usize|
            #[trigger] t1.node(i).children@.contains(c) && t1.play_of(c as int) == p;
        let k = choose|k: int| 0 <= k < t1.node(i).children@.len() && t1.node(i).children@[k] == c;
        assert(t1.node(i).children@[k] == c);
        assert(i < c as int && (c as int) < t1.len());
        assert(t2.node(c as int).play == t1.node(c as int).play);
        assert(t2.node(i).children@.contains(c) && t2.play_of(c as int) == p);
    }
    assert forall|i: int, k1: int, k2: int|
        0 <= i < t2.len() && 0 <= k1 < k2 < t2.node(i).children@.len() implies t2.play_of(
        (#[trigger] t2.node(i).children@[k1]) as int,
    ) != t2.play_of((#[trigger] t2.node(i).children@[k2]) as int) by {
        assert(t2.node(i).children == t1.node(i).children);
        let c1 = t1.node(i).children@[k1];
        let c2 = t1.node(i).children@[k2];
        assert(i < c1 as int && (c1 as int) < t1.len());
        assert(i < c2 as int && (c2 as int) < t1.len());
        assert(t1.play_of(c1 as int) != t1.play_of(c2 as int));
        assert(t2.node(c1 as int).play == t1.node(c1 as int).play);
        assert(t2.node(c2 as int).play == t1.node(c2 as int).play);
    }
}

/// How one search iteration changes the statistics of the nodes that
/// existed before it: exactly the nodes on the path from `leaf` up to the
/// root each gain one visit and the score `outcome` is worth for the
/// player who moved into them, and every other node is untouched.
pub open spec fn one_iteration_delta(
    t1: Tree,
    t2: Tree,
    g0: GameS,
    leaf: int,
    outcome: BoardOutcome,
) -> bool {
    &&& 0 <= leaf < t2.len()
    &&& anc(t2, leaf, 0)
    &&& forall|j: int|
        0 <= j < t1.len() && anc(t2, leaf, j) ==> (#[trigger] t2.node(j)).n_visits == t1.node(
            j,
        ).n_visits + 1 && t2.node(j).score_x2 == t1.node(j).score_x2 + score_of(
            outcome,
            t2.node_game(g0, j).current_player.spec_other(),
        )
    &&& forall|j: int|
        0 <= j < t1.len() && !anc(t2, leaf, j) ==> (#[trigger] t2.node(j)) == t1.node(j)
}

/// A value sitting at two positions of a sequence counts at least twice
/// in its multiset.
proof fn lemma_count_at_least_two(s: Seq<usize>, k1: int, k2: int)
    requires
        0 <= k1 < k2 < s.len(),
        s[k1] == s[k2],
    ensures
        s.to_multiset().count(s[k1]) >= 2,
{
    broadcast use vstd::seq_lib::group_to_multiset_ensures;
    broadcast use vstd::multiset::group_multiset_axioms;

    let v = s[k1];
    let s2 = s.remove(k1);
    assert(s2.to_multiset() =~= s.to_multiset().remove(v));
    assert(s2[k2 - 1] == v);
    assert(s2.contains(v));
    assert(s2.to_multiset().count(v) > 0);
    assert(s.to_multiset().count(v) == s2.to_multiset().count(v) + 1);
}

/// Trees of the same shape assign every node the same game state.
proof fn lemma_same_shape_games(t1: Tree, t2: Tree, g0: GameS)
    requires
        same_shape(t1, t2),
    ensures
        forall|j: int| 0 <= j < t1.len() ==> #[trigger] t2.node_game(g0, j) == t1.node_game(g0, j),
{
    assert forall|j: int| 0 <= j < t1.len() implies #[trigger] t2.node_game(g0, j)
        == t1.node_game(g0, j) by {
        lemma_node_game_agree(t1, t2, g0, j);
    }
}


impl Cursor {
    /// Walks from the current node back to the root, folding `outcome`
    /// into each node's statistics: each node on the path gains one visit
    /// and the score the outcome is worth for the player who moved into
    /// it. Then it resets the scratch game and mover from the original.
    fn backpropagate(&mut self, outcome: BoardOutcome)
        requires
            old(self).tree_inv(),
            old(self).tree.children_complete(old(self).original_game@),
            old(self).tree.children_distinct_plays(),
            1 <= old(self).current,
            (old(self).current as int) < old(self).tree.len(),
            old(self).tree.node(old(self).current as int).children@.len() == 0,
            old(self).tree.node_game(
                old(self).original_game@,
                old(self).current as int,
            ).state is InProgress ==> old(self).tree.node(old(self).current as int).n_visits == 0,
            old(self).current_player == old(self).tree.node_game(
                old(self).original_game@,
                old(self).current as int,
            ).current_player.spec_other(),
            old(self).tree.node(0).n_visits < MAX_ROOT_VISITS,
        ensures
            final(self).ready(),
            same_shape(old(self).tree, final(self).tree),
            final(self).original_game == old(self).original_game,
            final(self).tree.node(0).n_visits == old(self).tree.node(0).n_visits + 1,
            forall|j: int|
                0 <= j < old(self).tree.len() && anc(old(self).tree, old(self).current as int, j)
                    ==> (#[trigger] final(self).tree.node(j)).n_visits == old(self).tree.node(
                    j,
                ).n_visits + 1 && final(self).tree.node(j).score_x2 == old(self).tree.node(
                    j,
                ).score_x2 + score_of(
                    outcome,
                    old(self).tree.node_game(
                        old(self).original_game@,
                        j,
                    ).current_player.spec_other(),
                ),
            forall|j: int|
                0 <= j < old(self).tree.len() && !anc(
                    old(self).tree,
                    old(self).current as int,
                    j,
                ) ==> (#[trigger] final(self).tree.node(j)) == old(self).tree.node(j),
    {
        let ghost g0 = self.original_game@;
        let ghost t0 = self.tree;
        let ghost start = self.current as int;
        let ghost mut came: int = -1;
        let n_nodes = self.tree.nodes.len();
        proof {
            assert(t0.len() == n_nodes);
            assert(t0.len() <= usize::MAX);
        }
        loop
            invariant_except_break
                t0.len() <= usize::MAX,
                g0 == self.original_game@,
                self.original_game == old(self).original_game,
                self.original_game.wf(),
                self.original_game@.state is InProgress,
                t0.wf(g0),
                1 <= start < t0.len(),
                t0.node(start).children@.len() == 0,
                t0.node_game(g0, start).state is InProgress ==> t0.node(start).n_visits == 0,
                t0.node(0).n_visits < MAX_ROOT_VISITS,
                same_shape(t0, self.tree),
                0 <= self.current as int <= start,
                (self.current as int) < t0.len(),
                anc(t0, start, self.current as int),
                self.current_player == t0.node_game(
                    g0,
                    self.current as int,
                ).current_player.spec_other(),
                came == -1 ==> self.current as int == start,
                came != -1 ==> t0.parent_of(came) == self.current as int && 1 <= came < t0.len()
                    && t0.node(came).parent == Option::Some(self.current),
                forall|j: int|
                    0 <= j < t0.len() && !(anc(t0, start, j) && !anc(
                        t0,
                        self.current as int,
                        j,
                    )) ==> (#[trigger] self.tree.node(j)).n_visits == t0.node(j).n_visits
                        && self.tree.node(j).score_x2 == t0.node(j).score_x2,
                forall|j: int|
                    0 <= j < t0.len() && anc(t0, start, j) && !anc(t0, self.current as int, j)
                        ==> (#[trigger] self.tree.node(j)).n_visits == t0.node(j).n_visits + 1
                        && self.tree.node(j).score_x2 == t0.node(j).score_x2 + score_of(
                        outcome,
                        t0.node_game(g0, j).current_player.spec_other(),
                    ),
                forall|j: int|
                    0 <= j < t0.len() && anc(t0, start, j) && !anc(t0, self.current as int, j)
                        && j != start ==> (#[trigger] self.tree.node(j)).children@.len() > 0,
                forall|j: int|
                    0 <= j < t0.len() ==> (#[trigger] self.tree.node(j)).score_x2 <= 2
                        * self.tree.node(j).n_visits && self.tree.node(j).n_visits <= t0.node(
                        0,
                    ).n_visits + 1,
                forall|j: int|
                    0 <= j < t0.len() && j != self.current as int && self.tree.node(
                        j,
                    ).children@.len() > 0 ==> (#[trigger] self.tree.node(j)).n_visits as int
                        == Tree::own_rollouts(j) + self.tree.child_visit_sum(j),
                self.tree.node(self.current as int).children@.len() > 0
                    ==> self.tree.node(self.current as int).n_visits as int == Tree::own_rollouts(
                    self.current as int,
                ) + self.tree.child_visit_sum(self.current as int) - 1,
            ensures
                g0 == self.original_game@,
                self.original_game == old(self).original_game,
                same_shape(t0, self.tree),
                self.current == 0,
                self.tree.node(0).n_visits == t0.node(0).n_visits + 1,
                forall|j: int|
                    0 <= j < t0.len() && !anc(t0, start, j) ==> (#[trigger] self.tree.node(
                        j,
                    )).n_visits == t0.node(j).n_visits && self.tree.node(j).score_x2 == t0.node(
                        j,
                    ).score_x2,
                forall|j: int|
                    0 <= j < t0.len() && anc(t0, start, j) ==> (#[trigger] self.tree.node(
                        j,
                    )).n_visits == t0.node(j).n_visits + 1 && self.tree.node(j).score_x2
                        == t0.node(j).score_x2 + score_of(
                        outcome,
                        t0.node_game(g0, j).current_player.spec_other(),
                    ),
                forall|j: int|
                    0 <= j < t0.len() && anc(t0, start, j) && j != start ==> (
                    #[trigger] self.tree.node(j)).children@.len() > 0,
                forall|j: int|
                    0 <= j < t0.len() ==> (#[trigger] self.tree.node(j)).score_x2 <= 2
                        * self.tree.node(j).n_visits && self.tree.node(j).n_visits <= t0.node(
                        0,
                    ).n_visits + 1,
                forall|j: int|
                    0 <= j < t0.len() && self.tree.node(j).children@.len() > 0 ==> (
                    #[trigger] self.tree.node(j)).n_visits as int == Tree::own_rollouts(j)
                        + self.tree.child_visit_sum(j),
            decreases self.current,
        {
            let delta: u64 = match outcome {
                BoardOutcome::Draw => SCORE_DRAW_X2,
                BoardOutcome::WonBy(winner) => if winner == self.current_player {
                    SCORE_WIN_X2
                } else {
                    SCORE_LOSS_X2
                },
            };
            let cur = self.current;
            let ghost c = cur as int;
            let ghost came_old = came;
            let ghost t_pre = self.tree;
            proof {
                assert(delta as int == score_of(
                    outcome,
                    t0.node_game(g0, c).current_player.spec_other(),
                ));
                assert(self.tree.node(c).n_visits <= t0.node(0).n_visits + 1);
            }
            let node = &mut self.tree.nodes[cur];
            node.update_score(delta);
            proof {
                let t_now = self.tree;
                assert forall|j: int| 0 <= j < t0.len() && j != c implies t_now.node(j)
                    == t_pre.node(j) by {}
                assert(t_now.node(c).play == t_pre.node(c).play);
                assert(t_now.node(c).parent == t_pre.node(c).parent);
                assert(t_now.node(c).children == t_pre.node(c).children);
                assert(t_now.node(c).n_visits == t_pre.node(c).n_visits + 1);
                assert(t_now.node(c).score_x2 == t_pre.node(c).score_x2 + delta);
                assert(t_pre.node(c).n_visits == t0.node(c).n_visits);
                assert(t_pre.node(c).score_x2 == t0.node(c).score_x2);
                assert(same_shape(t0, t_now));
                assert forall|i: int| 0 <= i < t0.len() implies t_now.child_visit_sum(i)
                    == t_pre.child_visit_sum(i) + if t_pre.is_child_of(c, i) {
                    1int
                } else {
                    0int
                } by {
                    lemma_sum_bump(t_pre, t_now, c, i, t0.len());
                    if t_pre.is_child_of(c, i) {
                    }
                }
                // the just-updated node's own formula is restored
                if t_now.node(c).children@.len() > 0 {
                    assert(!t_pre.is_child_of(c, c));
                    assert(t_now.child_visit_sum(c) == t_pre.child_visit_sum(c));
                }
            }
            self.current_player = self.current_player.other();
            let parent = self.tree.nodes[cur].parent;
            match parent {
                Option::Some(p) => {
                    proof {
                        assert(t0.node(c).parent == Option::Some(p));
                        assert(1 <= c);
                        assert(t0.parent_of(c) == p as int);
                        assert((p as int) < c);
                        lemma_anc_parent(t0, start, c);
                        // the mover alternates one step per level
                        assert(0 <= t0.parent_of(c) < c);
                        lemma_node_game_step(t0, g0, c);
                        assert(t0.node_game(g0, t0.parent_of(c)).play_legal(t0.play_of(c)));
                        lemma_node_game_wf(t0, g0, t0.parent_of(c));
                        crate::game::lemma_mark_spec_facts(
                            t0.node_game(g0, t0.parent_of(c)),
                            t0.play_of(c),
                        );
                        // anc at the parent is anc at the child minus the child
                        assert forall|j: int| anc(t0, p as int, j) implies anc(t0, c, j) && j
                            != c by {
                            lemma_anc_le(t0, p as int, j);
                        }
                        assert forall|j: int| anc(t0, c, j) && j != c implies anc(
                            t0,
                            p as int,
                            j,
                        ) by {}
                        // the node we came from makes the next node expanded
                        assert(t0.node(t0.parent_of(c)).children@.contains(c as usize));
                        assert(self.tree.node(p as int).children@.contains(c as usize));
                        assert(self.tree.node(p as int).children@.len() > 0);
                        came = c;
                    }
                    self.current = p;
                    proof {
                        let pi = p as int;
                        let t_now = self.tree;
                        assert(!anc(t0, pi, c)) by {
                            if anc(t0, pi, c) {
                                lemma_anc_le(t0, pi, c);
                            }
                        }
                        assert forall|j: int|
                            0 <= j < t0.len() && !(anc(t0, start, j) && !anc(t0, pi, j)) implies (
                        #[trigger] t_now.node(j)).n_visits == t0.node(j).n_visits && t_now.node(
                            j,
                        ).score_x2 == t0.node(j).score_x2 by {
                            assert(j != c);
                            assert(t_now.node(j) == t_pre.node(j));
                        }
                        assert forall|j: int|
                            0 <= j < t0.len() && anc(t0, start, j) && !anc(t0, pi, j) implies (
                        #[trigger] t_now.node(j)).n_visits == t0.node(j).n_visits + 1
                            && t_now.node(j).score_x2 == t0.node(j).score_x2 + score_of(
                            outcome,
                            t0.node_game(g0, j).current_player.spec_other(),
                        ) by {
                            if j != c {
                                assert(!anc(t0, c, j));
                                assert(t_now.node(j) == t_pre.node(j));
                            }
                        }
                        assert forall|j: int|
                            0 <= j < t0.len() && anc(t0, start, j) && !anc(t0, pi, j) && j
                                != start implies (#[trigger] t_now.node(j)).children@.len()
                            > 0 by {
                            if j == c {
                                assert(c != start);
                                assert(came_old != -1);
                                assert(t0.parent_of(came_old) == c);
                                assert(t0.node(t0.parent_of(came_old)).children@.contains(
                                    came_old as usize,
                                ));
                                assert(t_now.node(c).children@ == t0.node(c).children@);
                            } else {
                                assert(!anc(t0, c, j));
                                assert(t_now.node(j) == t_pre.node(j));
                            }
                        }
                        assert forall|j: int|
                            0 <= j < t0.len() && j != pi && t_now.node(j).children@.len()
                                > 0 implies (#[trigger] t_now.node(j)).n_visits as int
                            == Tree::own_rollouts(j) + t_now.child_visit_sum(j) by {
                            assert(t_now.child_visit_sum(j) == t_pre.child_visit_sum(j)
                                + if t_pre.is_child_of(c, j) {
                                1int
                            } else {
                                0int
                            });
                            if j == c {
                                assert(!t_pre.is_child_of(c, c));
                                assert(t_pre.node(c).children@.len() > 0);
                            } else {
                                assert(t_now.node(j) == t_pre.node(j));
                                assert(t_pre.node(c).parent == Option::Some(p));
                                assert(!t_pre.is_child_of(c, j));
                            }
                        }
                        assert(t_now.node(pi).children@.len() > 0 ==> t_now.node(
                            pi,
                        ).n_visits as int == Tree::own_rollouts(pi) + t_now.child_visit_sum(pi)
                            - 1) by {
                            assert(t_pre.is_child_of(c, pi));
                            assert(t_now.child_visit_sum(pi) == t_pre.child_visit_sum(pi) + 1);
                            assert(t_pre.node(pi).children@.contains(c as usize));
                            assert(t_pre.node(pi).children@.len() > 0);
                            assert(t_now.node(pi) == t_pre.node(pi));
                        }
                    }
                },
                Option::None => {
                    proof {
                        let t_now = self.tree;
                        assert(t0.node(c).parent is None);
                        if c >= 1 {
                            assert(t0.node(c).parent is Some);
                        }
                        assert(c == 0);
                        assert(start >= 1);
                        assert(came != -1);
                        assert(t0.parent_of(came) == 0);
                        assert forall|j: int| anc(t0, 0, j) implies j == 0 by {}
                        assert forall|j: int|
                            0 <= j < t0.len() && !anc(t0, start, j) implies (
                        #[trigger] t_now.node(j)).n_visits == t0.node(j).n_visits && t_now.node(
                            j,
                        ).score_x2 == t0.node(j).score_x2 by {
                            assert(j != 0);
                            assert(t_now.node(j) == t_pre.node(j));
                        }
                        assert forall|j: int|
                            0 <= j < t0.len() && anc(t0, start, j) implies (#[trigger] t_now.node(
                            j,
                        )).n_visits == t0.node(j).n_visits + 1 && t_now.node(j).score_x2
                            == t0.node(j).score_x2 + score_of(
                            outcome,
                            t0.node_game(g0, j).current_player.spec_other(),
                        ) by {
                            if j != 0 {
                                assert(!anc(t0, c, j));
                                assert(t_now.node(j) == t_pre.node(j));
                            } else {
                                assert(t_pre.node(0).n_visits == t0.node(0).n_visits);
                                assert(t_pre.node(0).score_x2 == t0.node(0).score_x2);
                                assert(delta as int == score_of(
                                    outcome,
                                    t0.node_game(g0, 0).current_player.spec_other(),
                                ));
                            }
                        }
                        assert forall|j: int|
                            0 <= j < t0.len() && anc(t0, start, j) && j != start implies (
                        #[trigger] t_now.node(j)).children@.len() > 0 by {
                            if j == 0 {
                                assert(t0.node(t0.parent_of(came)).children@.contains(
                                    came as usize,
                                ));
                                assert(t_now.node(0).children@ == t0.node(0).children@);
                            } else {
                                assert(!anc(t0, c, j));
                                assert(t_now.node(j) == t_pre.node(j));
                            }
                        }
                        assert forall|j: int|
                            0 <= j < t0.len() && t_now.node(j).children@.len() > 0 implies (
                        #[trigger] t_now.node(j)).n_visits as int == Tree::own_rollouts(j)
                            + t_now.child_visit_sum(j) by {
                            assert(t_now.child_visit_sum(j) == t_pre.child_visit_sum(j)
                                + if t_pre.is_child_of(c, j) {
                                1int
                            } else {
                                0int
                            });
                            assert(!t_pre.is_child_of(c, j));
                            if j == 0 {
                                assert(t_pre.node(0).children@.contains(came as usize));
                                assert(t_pre.node(0).children@.len() > 0);
                            } else {
                                assert(t_now.node(j) == t_pre.node(j));
                            }
                        }
                        assert(t_now.node(0).n_visits == t0.node(0).n_visits + 1) by {
                            assert(anc(t0, start, 0)) by {
                                lemma_anc_root(t0, start);
                            }
                        }
                    }
                    break;
                },
            }
        }
        proof {
            assert(anc(t0, start, 0)) by {
                lemma_anc_root(t0, start);
            }
        }
        let refreshed = self.original_game.duplicate();
        self.current_player = refreshed.current_player.other();
        self.game = refreshed;
        self.current = 0;
        proof {
            let tf = self.tree;
            lemma_same_shape_games(t0, tf, g0);
            assert forall|i: int| 1 <= i < tf.len() implies 0 <= #[trigger] tf.parent_of(i)
                < i by {
                assert(tf.node(i).parent == t0.node(i).parent);
                assert(0 <= t0.parent_of(i) < i);
            }
            assert forall|i: int|
                1 <= i < tf.len() implies tf.node(#[trigger] tf.parent_of(i)).children@.contains(
                i as usize,
            ) by {
                assert(tf.node(i).parent == t0.node(i).parent);
                assert(t0.node(t0.parent_of(i)).children@.contains(i as usize));
            }
            assert forall|i: int, k: int|
                0 <= i < tf.len() && 0 <= k < tf.node(i).children@.len() implies {
                let ch = (#[trigger] tf.node(i).children@[k]) as int;
                &&& i < ch < tf.len()
                &&& tf.node(ch).parent == Option::Some(i as usize)
            } by {
                assert(tf.node(i).children@ == t0.node(i).children@);
                let ch = t0.node(i).children@[k] as int;
                assert(i < ch < t0.len());
                assert(t0.node(ch).parent == Option::Some(i as usize));
                assert(tf.node(ch).parent == t0.node(ch).parent);
            }
            assert forall|i: int|
                1 <= i < tf.len() implies (#[trigger] tf.node(i)).parent is Some && tf.node(
                i,
            ).play is Some by {
                assert(tf.node(i).parent == t0.node(i).parent);
                assert(tf.node(i).play == t0.node(i).play);
            }
            assert(tf.struct_wf());
            assert(tf.counts_wf());
            assert forall|i: int|
                1 <= i < tf.len() implies tf.node_game(g0, #[trigger] tf.parent_of(i)).play_legal(
                tf.play_of(i),
            ) by {
                assert(tf.node(i).parent == t0.node(i).parent);
                assert(tf.node(i).play == t0.node(i).play);
                assert(0 <= t0.parent_of(i) < i);
                assert(t0.node_game(g0, t0.parent_of(i)).play_legal(t0.play_of(i)));
            }
            assert forall|i: int|
                0 <= i < tf.len() && (#[trigger] tf.node_game(g0, i)).state is Complete implies tf.node(
                i,
            ).children@.len() == 0 by {
                assert(tf.node_game(g0, i) == t0.node_game(g0, i));
                assert(tf.node(i).children@ == t0.node(i).children@);
            }
            assert forall|i: int|
                0 <= i < tf.len() && tf.node(i).children@.len() == 0 && (#[trigger] tf.node_game(
                g0,
                i,
            )).state is InProgress implies tf.node(i).n_visits as int <= Tree::own_rollouts(
                i,
            ) by {
                assert(tf.node_game(g0, i) == t0.node_game(g0, i));
                assert(tf.node(i).children@ == t0.node(i).children@);
                if anc(t0, start, i) {
                    assert(i == start);
                    assert(t0.node(start).n_visits == 0);
                }
            }
            assert(tf.games_wf(g0));
            lemma_node_game_root(tf, g0);
            lemma_search_shape(t0, tf, g0);
            assert forall|j: int|
                0 <= j < t0.len() && !anc(t0, start, j) implies (#[trigger] tf.node(j))
                == t0.node(j) by {
                assert(tf.node(j).play == t0.node(j).play);
                assert(tf.node(j).parent == t0.node(j).parent);
                assert(tf.node(j).children == t0.node(j).children);
            }
        }
    }
}


impl Tree {
    /// Whether the `k`-th child of the root has the highest raw accumulated
    /// score among the root's children, with later ties superseding earlier
    /// ones.
    pub open spec fn is_last_max_score(self, k: int) -> bool {
        &&& forall|j: int|
            0 <= j < self.node(0).children@.len() ==> self.node(
                (#[trigger] self.node(0).children@[j]) as int,
            ).score_x2 <= self.node(self.node(0).children@[k] as int).score_x2
        &&& forall|j: int|
            k < j < self.node(0).children@.len() ==> self.node(
                (#[trigger] self.node(0).children@[j]) as int,
            ).score_x2 < self.node(self.node(0).children@[k] as int).score_x2
    }

    /// Returns the play of the root child with the highest raw accumulated
    /// score, later ties winning. That play is legal in the root game.
    pub(crate) fn best_root_play(&self, Ghost(g0): Ghost<GameS>) -> (p: Play)
        requires
            self.wf(g0),
            self.node(0).children@.len() > 0,
        ensures
            g0.play_legal(p),
            exists|k: int|
                {
                    &&& 0 <= k < self.node(0).children@.len()
                    &&& self.play_of((#[trigger] self.node(0).children@[k]) as int) == p
                    &&& self.is_last_max_score(k)
                },
    {
        let ghost kids = self.node(0).children@;
        let n = self.nodes[0].children.len();
        let first = self.nodes[0].children[0];
        let mut best: usize = first;
        let mut best_val: u64 = self.nodes[first].score_x2;
        let mut best_k: usize = 0;
        let mut k: usize = 1;
        while k < n
            invariant
                self.wf(g0),
                kids == self.node(0).children@,
                n == kids.len(),
                0 < n,
                1 <= k <= n,
                best_k < k,
                kids[best_k as int] == best,
                (best as int) < self.len(),
                best_val == self.node(best as int).score_x2,
                forall|j: int|
                    0 <= j < k ==> self.node((#[trigger] kids[j]) as int).score_x2 <= best_val,
                forall|j: int|
                    best_k < j < k ==> self.node((#[trigger] kids[j]) as int).score_x2 < best_val,
            decreases n - k,
        {
            let c = self.nodes[0].children[k];
            let val = self.nodes[c].score_x2;
            if val >= best_val {
                best = c;
                best_val = val;
                best_k = k;
            }
            k = k + 1;
        }
        proof {
            assert(self.is_last_max_score(best_k as int));
            assert(1 <= best as int);
            assert(self.parent_of(best as int) == 0);
            assert(self.node_game(g0, self.parent_of(best as int)).play_legal(self.play_of(
                best as int,
            )));
            lemma_node_game_root(*self, g0);
        }
        let p = match self.nodes[best].play {
            Option::Some(p) => p,
            Option::None => {
                proof {
                    assert(false);
                }
                (crate::board_index::BoardIndex::Center, crate::board_index::BoardIndex::Center)
            },
        };
        p
    }
}

impl Cursor {
    /// Runs one full iteration of the search: select, expand, roll out,
    /// backpropagate. The root gains exactly one visit and has children
    /// afterwards.
    pub(crate) fn run(&mut self)
        requires
            old(self).ready(),
            old(self).tree.node(0).n_visits < MAX_ROOT_VISITS,
            old(self).tree.len() + 100 <= usize::MAX,
        ensures
            final(self).ready(),
            final(self).original_game == old(self).original_game,
            final(self).tree.node(0).n_visits == old(self).tree.node(0).n_visits + 1,
            final(self).tree.node(0).children@.len() > 0,
            final(self).tree.len() >= old(self).tree.len(),
            final(self).tree.len() <= old(self).tree.len() + 81,
            // exactly the nodes on one root-to-leaf path each gain one
            // visit and the score the iteration's outcome is worth for the
            // player who moved into them; every other node that existed
            // before is untouched
            exists|outcome: BoardOutcome, leaf: int|
                #[trigger] one_iteration_delta(
                    old(self).tree,
                    final(self).tree,
                    old(self).original_game@,
                    leaf,
                    outcome,
                ),
    {
        let ghost g0 = self.original_game@;
        proof {
            lemma_node_game_root(self.tree, g0);
        }
        let explored = self.explore();
        let ghost stopped_at = self.current as int;
        let ghost t_explored = self.tree;
        let outcome = match explored {
            Option::Some(o) => {
                proof {
                    assert(self.tree.node_game(g0, self.current as int).state is Complete);
                    assert(self.tree.node(self.current as int).children@.len() == 0);
                }
                o
            },
            Option::None => {
                match self.expand() {
                    Option::Some(o) => o,
                    Option::None => {
                        let o = self.rollout();
                        o
                    },
                }
            },
        };
        proof {
            assert(self.tree.node(0).children@.len() > 0);
        }
        let ghost t_pre = self.tree;
        let ghost leaf = self.current as int;
        self.backpropagate(outcome);
        proof {
            let t_entry = old(self).tree;
            let tf = self.tree;
            assert(same_shape(t_pre, tf));
            assert(tf.node(0).children == t_pre.node(0).children);
            assert(t_pre.len() >= t_entry.len());
            lemma_same_shape_games(t_pre, tf, g0);
            assert forall|b: int| anc(t_pre, leaf, b) == anc(tf, leaf, b) by {
                lemma_anc_same_shape(t_pre, tf, leaf, b);
            }
            assert(anc(tf, leaf, 0)) by {
                lemma_anc_root(t_pre, leaf);
            }
            // nodes that predate this iteration relate to their entry state
            assert forall|j: int|
                0 <= j < t_entry.len() && anc(tf, leaf, j) implies (#[trigger] tf.node(
                j,
            )).n_visits == t_entry.node(j).n_visits + 1 && tf.node(j).score_x2 == t_entry.node(
                j,
            ).score_x2 + score_of(
                outcome,
                tf.node_game(g0, j).current_player.spec_other(),
            ) by {
                assert(t_pre.node(j).n_visits == t_entry.node(j).n_visits);
                assert(t_pre.node(j).score_x2 == t_entry.node(j).score_x2);
                assert(t_pre.node_game(g0, j) == t_entry.node_game(g0, j));
                assert(tf.node_game(g0, j) == t_pre.node_game(g0, j));
            }
            assert forall|j: int|
                0 <= j < t_entry.len() && !anc(tf, leaf, j) implies (#[trigger] tf.node(j))
                == t_entry.node(j) by {
                assert(tf.node(j) == t_pre.node(j));
                if explored is Some {
                    assert(t_pre == t_entry);
                } else if t_explored.node(stopped_at).n_visits == 0 && t_explored.node(
                    stopped_at,
                ).play is Some {
                    assert(t_pre == t_explored);
                } else {
                    assert(t_pre.node(leaf).parent == Option::Some(stopped_at as usize));
                    assert((stopped_at as usize) as int == stopped_at);
                    assert(t_pre.parent_of(leaf) == stopped_at);
                    assert(1 <= leaf < t_pre.len());
                    assert(0 <= t_pre.parent_of(leaf) < leaf);
                    assert(anc(t_pre, stopped_at, stopped_at));
                    assert(anc(t_pre, leaf, stopped_at));
                    assert(j != stopped_at);
                    assert(t_pre.node(j) == t_explored.node(j));
                }
            }
            assert(one_iteration_delta(t_entry, tf, g0, leaf, outcome));
        }
    }
}

/// The visit counts of a finished (or paused) search add up: an expanded
/// node has been visited once for its own rollout (the root: never) plus
/// once per visit of each of its children.
pub proof fn lemma_visits_decompose(t: Tree, g0: GameS, i: int)
    requires
        t.wf(g0),
        0 <= i < t.len(),
        t.node(i).children@.len() > 0,
    ensures
        t.node(i).n_visits as int == Tree::own_rollouts(i) + t.child_visit_sum(i),
{
}

/// A node is visited at least as often as any of its children.
pub proof fn lemma_parent_visits_dominate(t: Tree, g0: GameS, i: int, k: int)
    requires
        t.wf(g0),
        0 <= i < t.len(),
        0 <= k < t.node(i).children@.len(),
    ensures
        t.node(t.node(i).children@[k] as int).n_visits <= t.node(i).n_visits,
{
    let c = t.node(i).children@[k] as int;
    assert(t.node(c).parent == Option::Some(i as usize));
    assert(t.is_child_of(c, i));
    lemma_child_le_sum(t, c, i, t.len());
}

/// A game with a single legal play forces every legal answer to be that
/// play; in particular, any play meeting [`make_move`]'s contract is it.
pub proof fn lemma_single_legal_play_forced(g: GameS, only: Play, chosen: Play)
    requires
        g.wf(),
        forall|q: Play| g.play_legal(q) ==> q == only,
        g.play_legal(chosen),
    ensures
        chosen == only,
{
}

/// Selects the best next play for `game` by Monte Carlo tree search,
/// drawing randomness from system entropy: iterations run until
/// `should_terminate`, given the tree, says stop (or a huge built-in visit
/// cap is hit). The returned play is legal for `game`.
///
/// The predicate is only ever handed trees satisfying
/// [`Tree::search_wf`] for the game's model, so it may rely on that.
pub fn make_move<F: Fn(&Tree) -> bool>(game: Game, should_terminate: F) -> (p: Play)
    requires
        game.wf(),
        game@.state is InProgress,
        forall|t: &Tree| t.search_wf(game@) ==> #[trigger] call_requires(should_terminate, (t,)),
    ensures
        game@.play_legal(p),
{
    let rng = MoveRng::from_entropy();
    make_move_with(game, should_terminate, rng)
}

/// Like [`make_move`], but drawing randomness from the given source, so
/// that a seeded source makes the whole search reproducible.
pub fn make_move_with<F: Fn(&Tree) -> bool>(game: Game, should_terminate: F, rng: MoveRng) -> (p:
    Play)
    requires
        game.wf(),
        game@.state is InProgress,
        forall|t: &Tree| t.search_wf(game@) ==> #[trigger] call_requires(should_terminate, (t,)),
    ensures
        game@.play_legal(p),
{
    let mut cursor = Cursor::new(game, rng);
    let ghost g0 = cursor.original_game@;
    loop
        invariant_except_break
            g0 == cursor.original_game@,
            g0 == game@,
            cursor.ready(),
            cursor.tree.node(0).n_visits < MAX_ROOT_VISITS,
            cursor.tree.len() <= 1 + 81 * cursor.tree.node(0).n_visits,
            forall|t: &Tree|
                t.search_wf(game@) ==> #[trigger] call_requires(should_terminate, (t,)),
        ensures
            g0 == cursor.original_game@,
            g0 == game@,
            cursor.ready(),
            cursor.tree.node(0).children@.len() > 0,
        decreases MAX_ROOT_VISITS - cursor.tree.node(0).n_visits,
    {
        proof {
            assert(81 * cursor.tree.node(0).n_visits <= 81 * (MAX_ROOT_VISITS - 1))
                by (nonlinear_arith)
                requires
                    cursor.tree.node(0).n_visits <= MAX_ROOT_VISITS - 1,
            ;
        }
        cursor.run();
        proof {
            assert(cursor.tree.search_wf(g0));
        }
        if should_terminate(&cursor.tree) {
            break;
        }
        if cursor.tree.nodes[0].n_visits >= MAX_ROOT_VISITS {
            break;
        }
    }
    cursor.tree.best_root_play(Ghost(g0))
}

} // verus!
