//! The search engine: selection, expansion, simulation and
//! backpropagation over a `NodeTree`, and the final choice of move.

use vstd::prelude::*;
use crate::game::GameState;
use crate::game::spec_flip_reward;
use crate::tree::NodeTree;
use crate::tree::kids_of;
use crate::tree::kid_actions;
use crate::tree::minus_all;
use crate::tree::wf_nodes;
use crate::tree::parent_ok;
use crate::tree::first_child_ok;
use crate::tree::next_sibling_ok;
use crate::tree::on_path;
use crate::tree::depth_of;
use crate::tree::lemma_kids;
use crate::tree::lemma_kids_congruence;
use crate::tree::lemma_state_of_agree;
use crate::tree::lemma_minus_all_no_dup;
use crate::tree::lemma_on_path_le;
use crate::tree::lemma_on_path_root;
use crate::tree::lemma_on_path_parent;
use crate::tree::lemma_on_path_depth;
use crate::tree_node::Node;
use crate::tree_node::NodeId;
use crate::rng::rng_below;
use crate::clock::clock_now;
use crate::clock::clock_elapsed;
use crate::clock::duration_millis;
use crate::uct::uct_fp;
use crate::uct::spec_uct_fp;
use crate::uct::EXPLORE_C_FP;

verus! {

/// The iteration budget cap: node counts and visit statistics stay far
/// inside their integer ranges for any budget up to a billion iterations.
pub const MAX_SEARCH_ITERS: u64 = 0x4000_0000;

/// The visit count of a node's parent; for the root, its own.
pub open spec fn parent_plays_of<S: GameState>(t: &NodeTree<S>, i: int) -> u64 {
    match t@[i].parent {
        Some(p) => t@[p as int].plays,
        None => t@[i].plays,
    }
}

/// The statistics invariant the search keeps between iterations: scores
/// stay within the canonical bound of two half-points per visit, and no
/// child is visited more often than its parent.
pub open spec fn stats_wf<S: GameState>(t: &NodeTree<S>) -> bool {
    &&& forall|i: int| 0 <= i < t@.len() ==> (#[trigger] t@[i].wins) <= 2 * t@[i].plays
    &&& forall|i: int| 1 <= i < t@.len() ==> (#[trigger] t@[i].plays) <= parent_plays_of(t, i)
}

/// No node is visited more often than the root.
pub proof fn lemma_plays_le_root<S: GameState>(t: &NodeTree<S>, i: int)
    requires
        wf_nodes(t@),
        stats_wf(t),
        0 <= i < t@.len(),
    ensures
        t@[i].plays <= t@[0].plays,
    decreases i,
{
    assert(parent_ok(t@, i));
    if i > 0 {
        match t@[i].parent {
            Some(p) => {
                lemma_plays_le_root(t, p as int);
            },
            None => {},
        }
    }
}

/// The selection priority of a child: an unvisited child outranks every
/// visited one (whose UCT score is far smaller than the sentinel);
/// otherwise the fixed-point UCT score decides.
pub open spec fn spec_priority(nd: Node, parent_plays: u64, c_fp: u64) -> int {
    if nd.plays == 0 {
        0xffff_ffff_ffff_ffff
    } else {
        spec_uct_fp(nd.wins, nd.plays, parent_plays, c_fp)
    }
}

/// The position in `kids` that selection descends to, looking at the first
/// `n` children: the first one of the highest priority.
pub open spec fn spec_best_kid(
    s: Seq<Node>,
    kids: Seq<usize>,
    parent_plays: u64,
    c_fp: u64,
    n: int,
) -> int
    decreases n,
{
    if n <= 1 {
        0
    } else {
        let b = spec_best_kid(s, kids, parent_plays, c_fp, n - 1);
        if spec_priority(s[kids[n - 1] as int], parent_plays, c_fp) > spec_priority(
            s[kids[b] as int],
            parent_plays,
            c_fp,
        ) {
            n - 1
        } else {
            b
        }
    }
}

/// Whether child `j` of the candidate list is one of the strongest: no
/// other child has more visits, nor equal visits with a higher score.
pub open spec fn spec_top_kid(s: Seq<Node>, kids: Seq<usize>, j: int) -> bool {
    &&& 0 <= j < kids.len()
    &&& forall|k: int|
        0 <= k < kids.len() ==> (s[kids[k] as int].plays < s[kids[j] as int].plays || (s[kids[
            k
        ] as int].plays == s[kids[j] as int].plays && s[kids[k] as int].wins <= s[kids[
            j
        ] as int].wins))
}

/// The reward credited to a path node, from the perspective of the player
/// whose move led into that node.  The terminal reward is stated for the
/// player about to move there; when an even number of plies separates the
/// node from the terminal position those two players coincide, so the
/// just-moved player gets the flipped reward.  An undecided playout
/// credits nothing.
pub open spec fn spec_credit(reward: Option<u64>, even: bool) -> u64
    recommends
        reward matches Some(v) ==> v <= 2,
{
    match reward {
        Some(v) => if even {
            spec_flip_reward(v)
        } else {
            v
        },
        None => 0,
    }
}

/// Whether the ply distance from path node `i` to the rollout's terminal
/// position is even, given the parity `leaf_even` at the leaf `leaf`.
pub open spec fn even_at<S: GameState>(
    t: &NodeTree<S>,
    leaf: int,
    i: int,
    leaf_even: bool,
) -> bool {
    if (depth_of(t@, leaf) - depth_of(t@, i)) % 2 == 0 {
        leaf_even
    } else {
        !leaf_even
    }
}

/// The Monte Carlo tree search engine: repeated selection, expansion,
/// random simulation and backpropagation over a `NodeTree`, then the move
/// with the strongest statistics.
pub struct MonteCarloAgent {}

impl MonteCarloAgent {
    /// The selection priority of the child `kid`, whose parent has been
    /// visited `parent_plays` times.
    fn kid_priority<S: GameState>(&self, tree: &NodeTree<S>, kid: NodeId, parent_plays: u64) -> (r:
        u64)
        requires
            wf_nodes(tree@),
            stats_wf(tree),
            (kid as int) < tree@.len(),
            tree@[kid as int].parent is Some,
            parent_plays == parent_plays_of(tree, kid as int),
            parent_plays <= 0x1_0000_0000,
        ensures
            r as int == spec_priority(tree@[kid as int], parent_plays, EXPLORE_C_FP),
    {
        let nd = tree.get(kid);
        if nd.plays == 0 {
            u64::MAX
        } else {
            proof {
                assert(parent_ok(tree@, kid as int));
                assert(tree@[kid as int].wins <= 2 * tree@[kid as int].plays);
                assert(tree@[kid as int].plays <= parent_plays_of(tree, kid as int));
            }
            uct_fp(nd.wins, nd.plays, parent_plays, EXPLORE_C_FP)
        }
    }

    /// The child of `node_id` that selection descends to: the first
    /// unvisited child if there is one, otherwise the first child with the
    /// highest fixed-point UCT score.
    pub fn best_uct_child<S: GameState>(&self, tree: &NodeTree<S>, node_id: NodeId) -> (r: NodeId)
        requires
            wf_nodes(tree@),
            stats_wf(tree),
            (node_id as int) < tree@.len(),
            tree@[0].plays <= 0x1_0000_0000,
            kids_of(tree@, node_id).len() > 0,
        ensures
            (r as int) < tree@.len(),
            tree@[r as int].parent == Some(node_id),
            r == kids_of(tree@, node_id)[spec_best_kid(
                tree@,
                kids_of(tree@, node_id),
                tree@[node_id as int].plays,
                EXPLORE_C_FP,
                kids_of(tree@, node_id).len() as int,
            )],
    {
        let kids = tree.children(node_id);
        let parent_plays = tree.get(node_id).plays;
        proof {
            lemma_plays_le_root(tree, node_id as int);
            lemma_kids(tree@, node_id, tree@.len() as int);
            assert(kids_of(tree@, node_id).contains(kids@[0]));
        }
        let mut best_j: usize = 0;
        let mut best_pri: u64 = self.kid_priority(tree, kids[0], parent_plays);
        let mut j: usize = 1;
        while j < kids.len()
            invariant
                wf_nodes(tree@),
                stats_wf(tree),
                (node_id as int) < tree@.len(),
                tree@[0].plays <= 0x1_0000_0000,
                parent_plays == tree@[node_id as int].plays,
                parent_plays <= 0x1_0000_0000,
                kids@ == kids_of(tree@, node_id),
                kids@.len() > 0,
                1 <= j <= kids@.len(),
                (best_j as int) < j as int,
                forall|x: usize| #[trigger]
                    kids_of(tree@, node_id).contains(x) <==> ((x as int) < tree@.len() && tree@[
                        x as int
                    ].parent == Some(node_id)),
                best_pri as int == spec_priority(
                    tree@[kids@[best_j as int] as int],
                    parent_plays,
                    EXPLORE_C_FP,
                ),
                best_j as int == spec_best_kid(
                    tree@,
                    kids@,
                    parent_plays,
                    EXPLORE_C_FP,
                    j as int,
                ),
            decreases kids@.len() - j,
        {
            proof {
                assert(kids_of(tree@, node_id).contains(kids@[j as int]));
            }
            let pri = self.kid_priority(tree, kids[j], parent_plays);
            if pri > best_pri {
                best_j = j;
                best_pri = pri;
            }
            j += 1;
        }
        proof {
            assert(kids_of(tree@, node_id).contains(kids@[best_j as int]));
        }
        kids[best_j]
    }

    /// Walk down from `node_id`, at each fully expanded non-terminal node
    /// descending to the UCT-best child, and stop at the first node that
    /// still has unexpanded actions or has no legal actions at all.  Each
    /// step consumes game horizon, so the walk ends within the game's move
    /// bound.
    pub fn selection<S: GameState>(&self, node_id: NodeId, tree: &NodeTree<S>) -> (r: NodeId)
        requires
            tree.wf(),
            tree.wf_states(),
            stats_wf(tree),
            (node_id as int) < tree@.len(),
            tree@[0].plays <= 0x1_0000_0000,
        ensures
            (r as int) < tree@.len(),
            on_path(tree@, r as int, node_id as int),
            tree.spec_unexpanded(r).len() != 0 || tree.state_of(r as int).spec_legal().len() == 0,
            (tree.spec_unexpanded(node_id).len() != 0 || tree.state_of(
                node_id as int,
            ).spec_legal().len() == 0) ==> r == node_id,
    {
        let mut cur = node_id;
        loop
            invariant_except_break
                tree.wf(),
                tree.wf_states(),
                stats_wf(tree),
                (node_id as int) < tree@.len(),
                (cur as int) < tree@.len(),
                tree@[0].plays <= 0x1_0000_0000,
                on_path(tree@, cur as int, node_id as int),
                cur == node_id || !(tree.spec_unexpanded(node_id).len() != 0 || tree.state_of(
                    node_id as int,
                ).spec_legal().len() == 0),
            ensures
                (cur as int) < tree@.len(),
                on_path(tree@, cur as int, node_id as int),
                tree.spec_unexpanded(cur).len() != 0 || tree.state_of(
                    cur as int,
                ).spec_legal().len() == 0,
                (tree.spec_unexpanded(node_id).len() != 0 || tree.state_of(
                    node_id as int,
                ).spec_legal().len() == 0) ==> cur == node_id,
            decreases tree.state_of(cur as int).horizon(),
        {
            if !tree.is_expanded(cur) {
                break ;
            }
            if tree.is_leaf(cur) {
                break ;
            }
            proof {
                // fully expanded with legal actions: there must be children
                if kids_of(tree@, cur).len() == 0 {
                    assert(kid_actions(tree@, cur) =~= Seq::<usize>::empty());
                    assert(minus_all(
                        tree.state_of(cur as int).spec_legal(),
                        kid_actions(tree@, cur),
                    ) == tree.state_of(cur as int).spec_legal());
                    assert(false);
                }
            }
            let next = self.best_uct_child(tree, cur);
            proof {
                assert(parent_ok(tree@, next as int));
                tree.lemma_state_inv(cur as int);
                assert(tree.action_legal_at(next as int));
                tree.state_of(cur as int).laws(tree@[next as int].action);
                assert(tree.state_of(next as int) == tree.state_of(cur as int).spec_next(
                    tree@[next as int].action,
                ));
            }
            cur = next;
        }
        cur
    }

    /// Play uniformly random legal actions from `state` until none remain,
    /// and return the terminal position together with whether the playout
    /// took an even number of moves.
    pub fn simulate<S: GameState>(&self, state: S, rng: &mut rand::rngs::StdRng) -> (r: (S, bool))
        requires
            state.inv(),
        ensures
            r.0.inv(),
            r.0.spec_legal().len() == 0,
    {
        let mut cur = state;
        let mut even = true;
        let mut actions = cur.legal_actions();
        while actions.len() != 0
            invariant
                cur.inv(),
                actions@ == cur.spec_legal(),
            decreases cur.horizon(),
        {
            let i = rng_below(rng, actions.len() as u64);
            let a = actions[i as usize];
            proof {
                assert(cur.spec_legal()[i as int] == a);
                cur.laws(a);
            }
            cur = cur.next_state(a);
            even = !even;
            actions = cur.legal_actions();
        }
        (cur, even)
    }

    /// Expand `node_id` by one child for a uniformly random unexpanded
    /// action of its position `state`, or return it unchanged when every
    /// legal action already has a child.
    pub fn expansion<S: GameState>(
        &self,
        node_id: NodeId,
        tree: &mut NodeTree<S>,
        state: &S,
        rng: &mut rand::rngs::StdRng,
    ) -> (r: NodeId)
        requires
            old(tree).wf(),
            old(tree).wf_states(),
            (node_id as int) < old(tree)@.len(),
            old(tree)@.len() < usize::MAX as int,
            *state == old(tree).state_of(node_id as int),
        ensures
            final(tree).wf(),
            final(tree).wf_states(),
            final(tree).spec_root() == old(tree).spec_root(),
            (r as int) < final(tree)@.len(),
            old(tree).spec_unexpanded(node_id).len() == 0 ==> *final(tree) == *old(tree) && r
                == node_id,
            old(tree).spec_unexpanded(node_id).len() != 0 ==> {
                &&& r as int == old(tree)@.len()
                &&& final(tree)@.len() == old(tree)@.len() + 1
                &&& final(tree)@[r as int].parent == Some(node_id)
                &&& final(tree)@[r as int].plays == 0
                &&& final(tree)@[r as int].wins == 0
                &&& old(tree).spec_unexpanded(node_id).contains(final(tree)@[r as int].action)
                &&& forall|i: int|
                    0 <= i < old(tree)@.len() ==> (#[trigger] final(tree)@[i]).parent == old(tree)@[i].parent && final(tree)@[i].action == old(tree)@[i].action && final(tree)@[i].wins == old(tree)@[i].wins && final(tree)@[i].plays == old(tree)@[i].plays
                &&& forall|i: int|
                    0 <= i < old(tree)@.len() ==> #[trigger] final(tree).state_of(i) == old(tree).state_of(i)
                &&& kids_of(final(tree)@, node_id) == kids_of(old(tree)@, node_id).push(r)
                &&& forall|p: usize|
                    p != node_id ==> #[trigger] kids_of(final(tree)@, p) == kids_of(old(tree)@, p)
            },
    {
        proof {
            tree.lemma_state_inv(node_id as int);
        }
        let unexpanded = tree.unexpanded_actions(node_id, state);
        if unexpanded.len() == 0 {
            return node_id;
        }
        let i = rng_below(rng, unexpanded.len() as u64);
        let action = unexpanded[i as usize];
        proof {
            state.laws(action);
            lemma_minus_all_no_dup(state.spec_legal(), kid_actions(tree@, node_id));
            assert(tree.spec_unexpanded(node_id)[i as int] == action);
            assert(tree.spec_unexpanded(node_id).contains(action));
        }
        let child = tree.add_node(action, node_id);
        child
    }

    /// Record one completed simulation: walk from `node_id` up to the
    /// root, counting one visit at every node on the way and crediting the
    /// terminal reward from the perspective of the player whose move led
    /// into each node.  `leaf_even` says whether an even number of plies
    /// separates `node_id`'s position from `terminal`.
    pub fn back_prop<S: GameState>(
        &self,
        node_id: NodeId,
        tree: &mut NodeTree<S>,
        terminal: &S,
        leaf_even: bool,
    )
        requires
            old(tree).wf(),
            old(tree).wf_states(),
            stats_wf(old(tree)),
            (node_id as int) < old(tree)@.len(),
            terminal.inv(),
            old(tree)@[0].plays < 0x1_0000_0000,
        ensures
            final(tree)@.len() == old(tree)@.len(),
            final(tree).spec_root() == old(tree).spec_root(),
            final(tree).wf(),
            final(tree).wf_states(),
            stats_wf(final(tree)),
            forall|i: int|
                0 <= i < old(tree)@.len() ==> (#[trigger] final(tree)@[i]).parent == old(tree)@[i].parent && final(tree)@[i].first_child == old(tree)@[i].first_child && final(tree)@[i].next_sibling == old(tree)@[i].next_sibling && final(tree)@[i].action == old(tree)@[i].action,
            forall|i: int|
                0 <= i < old(tree)@.len() && on_path(old(tree)@, node_id as int, i)
                    ==> (#[trigger] final(tree)@[i]).plays == old(tree)@[i].plays + 1 && final(tree)@[i].wins == old(tree)@[i].wins + spec_credit(
                    terminal.spec_reward(),
                    even_at(old(tree), node_id as int, i, leaf_even),
                ),
            forall|i: int|
                0 <= i < old(tree)@.len() && !on_path(old(tree)@, node_id as int, i)
                    ==> (#[trigger] final(tree)@[i]).plays == old(tree)@[i].plays && final(tree)@[i].wins == old(tree)@[i].wins,
            forall|i: int|
                0 <= i < old(tree)@.len() ==> #[trigger] final(tree).state_of(i) == old(tree).state_of(i),
            forall|p: usize| #[trigger] kids_of(final(tree)@, p) == kids_of(old(tree)@, p),
    {
        let ghost oldt = *tree;
        let ghost olds = tree@;
        let reward = terminal.reward();
        proof {
            terminal.laws(0);
        }
        let mut cur = node_id;
        let mut even = leaf_even;
        loop
            invariant_except_break
                olds == oldt@,
                olds == old(tree)@,
                oldt == *old(tree),
                oldt.wf(),
                oldt.wf_states(),
                stats_wf(&oldt),
                terminal.inv(),
                reward == terminal.spec_reward(),
                (reward matches Some(v) ==> v <= 2),
                olds[0].plays < 0x1_0000_0000,
                tree@.len() == olds.len(),
                tree.spec_root() == oldt.spec_root(),
                (node_id as int) < olds.len(),
                (cur as int) < olds.len(),
                on_path(olds, node_id as int, cur as int),
                even == even_at(&oldt, node_id as int, cur as int, leaf_even),
                forall|i: int|
                    0 <= i < olds.len() ==> (#[trigger] tree@[i]).parent == olds[i].parent && tree@[
                        i
                    ].first_child == olds[i].first_child && tree@[i].next_sibling == olds[
                        i
                    ].next_sibling && tree@[i].action == olds[i].action,
                forall|i: int|
                    0 <= i < olds.len() && on_path(olds, node_id as int, i) && !on_path(
                        olds,
                        cur as int,
                        i,
                    ) ==> (#[trigger] tree@[i]).plays == olds[i].plays + 1 && tree@[i].wins == olds[
                        i
                    ].wins + spec_credit(
                        terminal.spec_reward(),
                        even_at(&oldt, node_id as int, i, leaf_even),
                    ),
                forall|i: int|
                    0 <= i < olds.len() && (!on_path(olds, node_id as int, i) || on_path(
                        olds,
                        cur as int,
                        i,
                    )) ==> (#[trigger] tree@[i]).plays == olds[i].plays && tree@[i].wins == olds[
                        i
                    ].wins,
            ensures
                olds == old(tree)@,
                oldt == *old(tree),
                tree@.len() == olds.len(),
                tree.spec_root() == oldt.spec_root(),
                forall|i: int|
                    0 <= i < olds.len() ==> (#[trigger] tree@[i]).parent == olds[i].parent && tree@[
                        i
                    ].first_child == olds[i].first_child && tree@[i].next_sibling == olds[
                        i
                    ].next_sibling && tree@[i].action == olds[i].action,
                forall|i: int|
                    0 <= i < olds.len() && on_path(olds, node_id as int, i)
                        ==> (#[trigger] tree@[i]).plays == olds[i].plays + 1 && tree@[i].wins
                        == olds[i].wins + spec_credit(
                        terminal.spec_reward(),
                        even_at(&oldt, node_id as int, i, leaf_even),
                    ),
                forall|i: int|
                    0 <= i < olds.len() && !on_path(olds, node_id as int, i)
                        ==> (#[trigger] tree@[i]).plays == olds[i].plays && tree@[i].wins == olds[
                        i
                    ].wins,
            decreases cur,
        {
            let credit = match reward {
                Some(v) => if even {
                    2 - v
                } else {
                    v
                },
                None => 0,
            };
            proof {
                lemma_plays_le_root(&oldt, cur as int);
                assert(on_path(olds, cur as int, cur as int));
                assert(tree@[cur as int].plays == olds[cur as int].plays);
                assert(credit == spec_credit(
                    terminal.spec_reward(),
                    even_at(&oldt, node_id as int, cur as int, leaf_even),
                ));
            }
            let ghost before = tree@;
            let n = tree.get_mut(cur);
            let new_plays = n.plays + 1;
            let new_wins = n.wins + credit;
            n.plays = new_plays;
            n.wins = new_wins;
            proof {
                assert(tree@ == before.update(
                    cur as int,
                    Node {
                        plays: new_plays,
                        wins: new_wins,
                        ..before[cur as int]
                    },
                ));
            }
            let parent = tree.get(cur).parent;
            match parent {
                Some(p) => {
                    proof {
                        assert(parent_ok(olds, cur as int));
                        assert(!on_path(olds, p as int, cur as int)) by {
                            if on_path(olds, p as int, cur as int) {
                                lemma_on_path_le(olds, p as int, cur as int);
                            }
                        }
                        lemma_on_path_parent(olds, node_id as int, cur as int);
                        lemma_on_path_depth(olds, node_id as int, cur as int);
                        assert(depth_of(olds, cur as int) == 1 + depth_of(olds, p as int));
                        assert forall|j: int|
                            on_path(olds, cur as int, j) implies (j == cur as int || on_path(
                            olds,
                            p as int,
                            j,
                        )) by {}
                        assert forall|i: int|
                            0 <= i < olds.len() && on_path(olds, node_id as int, i) && !on_path(
                            olds,
                            p as int,
                            i,
                        ) implies tree@[i].plays == olds[i].plays + 1 && tree@[i].wins == olds[
                            i
                        ].wins + spec_credit(
                            terminal.spec_reward(),
                            even_at(&oldt, node_id as int, i, leaf_even),
                        ) by {
                            if i != cur as int {
                                assert(!on_path(olds, cur as int, i));
                                assert(tree@[i] == before[i]);
                            }
                        }
                        assert forall|i: int|
                            0 <= i < olds.len() && (!on_path(olds, node_id as int, i) || on_path(
                            olds,
                            p as int,
                            i,
                        )) implies tree@[i].plays == olds[i].plays && tree@[i].wins == olds[
                            i
                        ].wins by {
                            if on_path(olds, p as int, i) {
                                lemma_on_path_le(olds, p as int, i);
                                assert(on_path(olds, cur as int, i));
                            }
                            assert(i != cur as int);
                            assert(tree@[i] == before[i]);
                        }
                    }
                    cur = p;
                    even = !even;
                },
                None => {
                    proof {
                        assert(parent_ok(olds, cur as int));
                        assert(cur == 0);
                        assert forall|j: int| on_path(olds, 0, j) implies j == 0 by {}
                        assert forall|i: int|
                            0 <= i < olds.len() && on_path(olds, node_id as int, i) implies tree@[
                            i
                        ].plays == olds[i].plays + 1 && tree@[i].wins == olds[i].wins
                            + spec_credit(
                            terminal.spec_reward(),
                            even_at(&oldt, node_id as int, i, leaf_even),
                        ) by {
                            if i != 0 {
                                assert(!on_path(olds, 0, i));
                                assert(tree@[i] == before[i]);
                            }
                        }
                        assert forall|i: int|
                            0 <= i < olds.len() && !on_path(olds, node_id as int, i)
                            implies tree@[i].plays == olds[i].plays && tree@[i].wins == olds[
                            i
                        ].wins by {
                            assert(i != 0);
                            assert(tree@[i] == before[i]);
                        }
                    }
                    break ;
                },
            }
        }
        proof {
            let news = tree@;
            // structure untouched, so well-formedness carries over
            assert forall|i: int| 0 <= i < news.len() implies #[trigger] parent_ok(news, i) by {
                assert(parent_ok(olds, i));
            }
            assert forall|i: int|
                0 <= i < news.len() implies #[trigger] first_child_ok(news, i) by {
                assert(first_child_ok(olds, i));
                match news[i].first_child {
                    Some(c) => {
                        assert(olds[i].first_child == Some(c));
                        assert forall|j: int|
                            0 <= j < news.len() && news[j].parent == Some(i as usize) implies c
                            <= j by {
                            assert(olds[j].parent == news[j].parent);
                        }
                    },
                    None => {
                        assert forall|j: int|
                            0 <= j < news.len() implies news[j].parent != Some(i as usize) by {
                            assert(olds[j].parent == news[j].parent);
                        }
                    },
                }
            }
            assert forall|i: int|
                0 <= i < news.len() implies #[trigger] next_sibling_ok(news, i) by {
                assert(next_sibling_ok(olds, i));
                match news[i].next_sibling {
                    Some(k) => {
                        assert(olds[i].next_sibling == Some(k));
                        assert forall|j: int|
                            i < j < k as int implies news[j].parent != news[i].parent by {
                            assert(olds[j].parent == news[j].parent);
                        }
                    },
                    None => {
                        assert forall|j: int|
                            i < j < news.len() implies news[j].parent != news[i].parent by {
                            assert(olds[j].parent == news[j].parent);
                        }
                    },
                }
            }
            assert(wf_nodes(news));
            assert forall|i: int|
                0 <= i < olds.len() implies #[trigger] tree.state_of(i) == oldt.state_of(i) by {
                lemma_state_of_agree(*tree, oldt, i);
            }
            assert forall|i: int| 1 <= i < news.len() implies #[trigger] tree.action_legal_at(
                i,
            ) by {
                assert(oldt.action_legal_at(i));
                assert(parent_ok(olds, i));
            }
            assert(tree.wf_states());
            assert forall|p: usize| #[trigger] kids_of(news, p) == kids_of(olds, p) by {
                lemma_kids_congruence(olds, news, p, olds.len() as int);
            }
            // statistics stay within their limits
            assert forall|i: int|
                1 <= i < news.len() implies (#[trigger] news[i].plays) <= parent_plays_of(
                tree,
                i,
            ) by {
                assert(parent_ok(olds, i));
                match olds[i].parent {
                    Some(p) => {
                        if on_path(olds, node_id as int, i) {
                            lemma_on_path_parent(olds, node_id as int, i);
                        }
                    },
                    None => {},
                }
            }
        }
    }
}

/// A tree holding any node besides the root holds a child of the root.
pub proof fn lemma_root_kid(s: Seq<Node>, leaf: int)
    requires
        wf_nodes(s),
        0 < leaf < s.len(),
    ensures
        kids_of(s, 0).len() != 0,
    decreases leaf,
{
    assert(parent_ok(s, leaf));
    match s[leaf].parent {
        Some(p) => {
            if p == 0 {
                lemma_kids(s, 0, s.len() as int);
                assert(kids_of(s, 0).contains(leaf as usize));
            } else {
                lemma_root_kid(s, p as int);
            }
        },
        None => {},
    }
}

impl MonteCarloAgent {
    /// The strongest move at a node: the action of a child with the most
    /// visits, ties broken by the highest score, remaining ties by a
    /// uniformly random choice.  There is nothing to choose only when the
    /// node has no children.
    pub fn best_action<S: GameState>(
        &self,
        node_id: NodeId,
        tree: &NodeTree<S>,
        rng: &mut rand::rngs::StdRng,
    ) -> (r: Option<usize>)
        requires
            wf_nodes(tree@),
            (node_id as int) < tree@.len(),
        ensures
            match r {
                Some(a) => exists|j: int|
                    #[trigger] spec_top_kid(tree@, kids_of(tree@, node_id), j) && a == tree@[
                        kids_of(tree@, node_id)[j] as int
                    ].action,
                None => kids_of(tree@, node_id).len() == 0,
            },
    {
        let kids = tree.children(node_id);
        if kids.len() == 0 {
            return None;
        }
        let first = tree.get(kids[0]);
        let mut most_plays: u64 = first.plays;
        let mut best_wins: u64 = first.wins;
        let mut best_js: Vec<usize> = Vec::new();
        best_js.push(0);
        let mut j: usize = 1;
        while j < kids.len()
            invariant
                wf_nodes(tree@),
                (node_id as int) < tree@.len(),
                kids@ == kids_of(tree@, node_id),
                forall|q: int| 0 <= q < kids@.len() ==> (kids@[q] as int) < tree@.len(),
                1 <= j <= kids@.len(),
                best_js@.len() >= 1,
                forall|q: int| 0 <= q < best_js@.len() ==> (#[trigger] best_js@[q]) < j,
                forall|q: int|
                    0 <= q < best_js@.len() ==> (#[trigger] tree@[kids@[best_js@[
                        q
                    ] as int] as int]).plays == most_plays && tree@[kids@[best_js@[
                        q
                    ] as int] as int].wins == best_wins,
                forall|k: int|
                    0 <= k < j ==> ((#[trigger] tree@[kids@[k] as int]).plays < most_plays || (
                    tree@[kids@[k] as int].plays == most_plays && tree@[kids@[k] as int].wins
                        <= best_wins)),
            decreases kids@.len() - j,
        {
            let nd = tree.get(kids[j]);
            let nd_plays = nd.plays;
            let nd_wins = nd.wins;
            if nd_plays > most_plays {
                most_plays = nd_plays;
                best_wins = nd_wins;
                best_js = Vec::new();
                best_js.push(j);
            } else if nd_plays == most_plays {
                if nd_wins > best_wins {
                    best_wins = nd_wins;
                    best_js = Vec::new();
                    best_js.push(j);
                } else if nd_wins == best_wins {
                    best_js.push(j);
                }
            }
            j += 1;
        }
        let pick = rng_below(rng, best_js.len() as u64);
        let jj = best_js[pick as usize];
        proof {
            assert(spec_top_kid(tree@, kids@, jj as int));
        }
        Some(tree.get(kids[jj]).action)
    }

    /// Grow a fresh search tree from `root_state` by repeated selection,
    /// expansion, simulation and backpropagation, for up to `max_iters`
    /// iterations or until `max_millis` milliseconds of wall-clock time
    /// have elapsed, whichever comes first; at least one full iteration
    /// always completes.  Returns the tree and the number of completed
    /// iterations: the root has been visited exactly once per iteration,
    /// every node's score stays within two half-points per visit, and a
    /// root with legal actions always ends up with at least one child.
    pub fn run_search<S: GameState>(
        &self,
        root_state: &S,
        max_iters: u64,
        max_millis: u64,
        rng: &mut rand::rngs::StdRng,
    ) -> (r: (NodeTree<S>, u64))
        requires
            root_state.inv(),
            1 <= max_iters <= MAX_SEARCH_ITERS,
        ensures
            r.0.wf(),
            r.0.wf_states(),
            stats_wf(&r.0),
            r.0.spec_root() == *root_state,
            1 <= r.1 <= max_iters,
            r.0@[0].plays == r.1,
            root_state.spec_legal().len() != 0 ==> kids_of(r.0@, 0).len() != 0,
    {
        let mut tree = NodeTree::new(root_state);
        let start = clock_now();
        let mut iters: u64 = 0;
        loop
            invariant_except_break
                tree.wf(),
                tree.wf_states(),
                stats_wf(&tree),
                tree.spec_root() == *root_state,
                root_state.inv(),
                iters < max_iters,
                max_iters <= MAX_SEARCH_ITERS,
                tree@[0].plays == iters,
                tree@.len() >= 1,
                tree@.len() <= iters + 1,
                (root_state.spec_legal().len() != 0 && iters >= 1) ==> kids_of(tree@, 0).len()
                    != 0,
            ensures
                tree.wf(),
                tree.wf_states(),
                stats_wf(&tree),
                tree.spec_root() == *root_state,
                1 <= iters <= max_iters,
                tree@[0].plays == iters,
                root_state.spec_legal().len() != 0 ==> kids_of(tree@, 0).len() != 0,
            decreases max_iters - iters,
        {
            let ghost t0 = tree;
            let selected = self.selection(0, &tree);
            proof {
                tree.lemma_state_inv(selected as int);
            }
            let st = tree.state(selected);
            let actions = st.legal_actions();
            if actions.len() == 0 {
                // the walk ended on a terminal position: score it directly
                self.back_prop(selected, &mut tree, &st, true);
                proof {
                    lemma_on_path_root(t0@, selected as int);
                    if root_state.spec_legal().len() != 0 {
                        assert(t0.state_of(0) == *root_state);
                        assert(selected != 0);
                        lemma_root_kid(t0@, selected as int);
                        assert(kids_of(tree@, 0) == kids_of(t0@, 0));
                    }
                }
            } else {
                let child = self.expansion(selected, &mut tree, &st, rng);
                let ghost t1 = tree;
                proof {
                    assert(t0.spec_unexpanded(selected).len() != 0);
                    // the new unvisited node keeps the statistics sound
                    assert forall|i: int|
                        0 <= i < t1@.len() implies (#[trigger] t1@[i].wins) <= 2 * t1@[
                        i
                    ].plays by {
                        if i < t0@.len() {
                            assert(t0@[i].wins <= 2 * t0@[i].plays);
                        }
                    }
                    assert forall|i: int|
                        1 <= i < t1@.len() implies (#[trigger] t1@[i].plays) <= parent_plays_of(
                        &t1,
                        i,
                    ) by {
                        if i < t0@.len() {
                            assert(t0@[i].plays <= parent_plays_of(&t0, i));
                            assert(parent_ok(t0@, i));
                        }
                    }
                    assert(stats_wf(&t1));
                    tree.lemma_state_inv(child as int);
                }
                let child_state = tree.state(child);
                let sim = self.simulate(child_state, rng);
                let terminal = sim.0;
                let leaf_even = sim.1;
                self.back_prop(child, &mut tree, &terminal, leaf_even);
                proof {
                    lemma_on_path_root(t1@, child as int);
                    if root_state.spec_legal().len() != 0 {
                        if kids_of(t0@, 0).len() == 0 {
                            assert(kid_actions(t0@, 0) =~= Seq::<usize>::empty());
                            assert(t0.state_of(0) == *root_state);
                            assert(t0.spec_unexpanded(0).len() != 0);
                            assert(selected == 0);
                            assert(kids_of(t1@, 0).len() != 0);
                        } else {
                            if selected == 0 {
                                assert(kids_of(t1@, 0) == kids_of(t0@, 0).push(child));
                            } else {
                                assert(kids_of(t1@, 0) == kids_of(t0@, 0));
                            }
                        }
                        assert(kids_of(tree@, 0) == kids_of(t1@, 0));
                    }
                }
            }
            iters = iters + 1;
            if iters == max_iters {
                break ;
            }
            let elapsed = clock_elapsed(&start);
            if duration_millis(&elapsed) >= max_millis as u128 {
                break ;
            }
        }
        (tree, iters)
    }

    /// Search from `root_state` within the given budgets and return the
    /// strongest move found; there is no move exactly when the root
    /// position has no legal actions.
    pub fn choose_action<S: GameState>(
        &self,
        root_state: &S,
        max_iters: u64,
        max_millis: u64,
        rng: &mut rand::rngs::StdRng,
    ) -> (r: Option<usize>)
        requires
            root_state.inv(),
            1 <= max_iters <= MAX_SEARCH_ITERS,
        ensures
            match r {
                Some(a) => root_state.spec_legal().contains(a),
                None => root_state.spec_legal().len() == 0,
            },
    {
        let search = self.run_search(root_state, max_iters, max_millis, rng);
        let tree = search.0;
        let r = self.best_action(0, &tree, rng);
        proof {
            match r {
                Some(a) => {
                    let j = choose|j: int|
                        spec_top_kid(tree@, kids_of(tree@, 0), j) && a == tree@[kids_of(
                            tree@,
                            0,
                        )[j] as int].action;
                    let kid = kids_of(tree@, 0)[j];
                    lemma_kids(tree@, 0, tree@.len() as int);
                    assert(kids_of(tree@, 0).contains(kid));
                    assert(parent_ok(tree@, kid as int));
                    assert(tree.action_legal_at(kid as int));
                    assert(tree.state_of(0) == *root_state);
                },
                None => {},
            }
        }
        r
    }
}

} // verus!