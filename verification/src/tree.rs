//! The append-only search tree: an arena of nodes linked by parent,
//! first-child and next-sibling indices, with positions replayed from the
//! root on demand.

use vstd::prelude::*;
use crate::game::GameState;
use crate::tree_node::Node;
use crate::tree_node::NodeId;
use crate::tree_node::NodeAction;

verus! {

/// The children of `p` with index below `n`, in ascending order.
pub open spec fn kids_below(s: Seq<Node>, p: usize, n: int) -> Seq<usize>
    decreases n,
{
    if n <= 0 {
        Seq::empty()
    } else if s[n - 1].parent == Some(p) {
        kids_below(s, p, n - 1).push((n - 1) as usize)
    } else {
        kids_below(s, p, n - 1)
    }
}

/// All children of `p`, in ascending order.
pub open spec fn kids_of(s: Seq<Node>, p: usize) -> Seq<usize> {
    kids_below(s, p, s.len() as int)
}

/// The actions on the edges from `p` to its children, in child order.
pub open spec fn kid_actions(s: Seq<Node>, p: usize) -> Seq<usize> {
    kids_of(s, p).map_values(|i: usize| s[i as int].action)
}

/// A node's parent link points backwards; only the root has none.
pub open spec fn parent_ok(s: Seq<Node>, i: int) -> bool {
    match s[i].parent {
        Some(p) => i != 0 && (p as int) < i,
        None => i == 0,
    }
}

/// A node's first-child link points at its smallest child, if it has any.
pub open spec fn first_child_ok(s: Seq<Node>, i: int) -> bool {
    match s[i].first_child {
        Some(c) => {
            &&& (c as int) < s.len()
            &&& s[c as int].parent == Some(i as usize)
            &&& forall|j: int| 0 <= j < s.len() && s[j].parent == Some(i as usize) ==> c <= j
        },
        None => forall|j: int| 0 <= j < s.len() ==> s[j].parent != Some(i as usize),
    }
}

/// A node's next-sibling link points at the next node with the same parent;
/// it is absent exactly when no later node has the same parent.
pub open spec fn next_sibling_ok(s: Seq<Node>, i: int) -> bool {
    match s[i].next_sibling {
        Some(k) => {
            &&& (k as int) < s.len()
            &&& i < k as int
            &&& s[k as int].parent == s[i].parent
            &&& s[i].parent is Some
            &&& forall|j: int| i < j < k as int ==> s[j].parent != s[i].parent
        },
        None => forall|j: int| i < j < s.len() ==> s[j].parent != s[i].parent,
    }
}

/// Structural well-formedness of the arena: one root, backward parent
/// links, and child chains that enumerate exactly the children in
/// ascending order.
pub open spec fn wf_nodes(s: Seq<Node>) -> bool {
    &&& 1 <= s.len()
    &&& s.len() <= usize::MAX as int
    &&& forall|i: int| 0 <= i < s.len() ==> #[trigger] parent_ok(s, i)
    &&& forall|i: int| 0 <= i < s.len() ==> #[trigger] first_child_ok(s, i)
    &&& forall|i: int| 0 <= i < s.len() ==> #[trigger] next_sibling_ok(s, i)
}

/// `kids_below` lists exactly the children, each once, in ascending order.
pub proof fn lemma_kids(s: Seq<Node>, p: usize, n: int)
    requires
        0 <= n <= s.len(),
        s.len() <= usize::MAX as int,
    ensures
        kids_below(s, p, n).no_duplicates(),
        forall|x: usize| #[trigger] kids_below(s, p, n).contains(x) <==> ((x as int) < n && s[
            x as int
        ].parent == Some(p)),
        forall|a: int, b: int|
            0 <= a < b < kids_below(s, p, n).len() ==> kids_below(s, p, n)[a] < kids_below(
                s,
                p,
                n,
            )[b],
    decreases n,
{
    if n > 0 {
        lemma_kids(s, p, n - 1);
        let prev = kids_below(s, p, n - 1);
        if s[n - 1].parent == Some(p) {
            let cur = prev.push((n - 1) as usize);
            assert(!prev.contains((n - 1) as usize));
            assert forall|x: usize| #[trigger] cur.contains(x) <==> ((x as int) < n && s[
                x as int
            ].parent == Some(p)) by {
                if cur.contains(x) {
                    let i = choose|i: int| 0 <= i < cur.len() && cur[i] == x;
                    if i < prev.len() {
                        assert(prev.contains(x));
                    }
                }
                if (x as int) < n && s[x as int].parent == Some(p) {
                    if (x as int) < n - 1 {
                        assert(prev.contains(x));
                        let i = choose|i: int| 0 <= i < prev.len() && prev[i] == x;
                        assert(cur[i] == x);
                    } else {
                        assert(cur[cur.len() - 1] == x);
                    }
                }
            }
            assert forall|a: int, b: int| 0 <= a < b < cur.len() implies cur[a] < cur[b] by {
                if b < prev.len() {
                } else {
                    assert(cur[a] == prev[a]);
                    assert(prev.contains(prev[a]));
                }
            }
        } else {
            assert forall|x: usize| #[trigger] kids_below(s, p, n).contains(x) <==> ((x as int) < n
                && s[x as int].parent == Some(p)) by {
                if (x as int) < n && s[x as int].parent == Some(p) {
                    assert((x as int) < n - 1);
                }
            }
        }
    }
}

/// A window without children of `p` adds nothing to `kids_below`.
pub proof fn lemma_kids_window(s: Seq<Node>, p: usize, a: int, b: int)
    requires
        0 <= a <= b <= s.len(),
        forall|j: int| a <= j < b ==> s[j].parent != Some(p),
    ensures
        kids_below(s, p, b) == kids_below(s, p, a),
    decreases b - a,
{
    if b > a {
        lemma_kids_window(s, p, a, b - 1);
    }
}

/// `kids_below` only reads parent links below `n`, so it is unchanged by
/// anything that preserves them.
pub proof fn lemma_kids_congruence(s1: Seq<Node>, s2: Seq<Node>, p: usize, n: int)
    requires
        0 <= n <= s1.len(),
        n <= s2.len(),
        forall|j: int| 0 <= j < n ==> s1[j].parent == s2[j].parent,
    ensures
        kids_below(s1, p, n) == kids_below(s2, p, n),
    decreases n,
{
    if n > 0 {
        lemma_kids_congruence(s1, s2, p, n - 1);
    }
}

/// An append-only search tree of game positions.
///
/// Node 0 is the root and holds `root_state`; every other node stands for
/// the position reached from its parent's position by one recorded action.
/// Positions are not stored: they are replayed from the root on demand.
pub struct NodeTree<S: GameState> {
    nodes: Vec<Node>,
    pub root_state: S,
}

impl<S: GameState> View for NodeTree<S> {
    type V = Seq<Node>;

    closed spec fn view(&self) -> Seq<Node> {
        self.nodes@
    }
}

impl<S: GameState> NodeTree<S> {
    /// The position the root node stands for.
    pub closed spec fn spec_root(&self) -> S {
        self.root_state
    }

    /// Structural well-formedness plus a valid root position.
    pub open spec fn wf(&self) -> bool {
        &&& wf_nodes(self@)
        &&& self.spec_root().inv()
    }

    /// The position a node stands for: the root position with the actions
    /// on the path from the root replayed.
    pub open spec fn state_of(&self, i: int) -> S
        decreases i,
    {
        if i <= 0 || i >= self@.len() {
            self.spec_root()
        } else {
            match self@[i].parent {
                Some(p) => if (p as int) < i {
                    self.state_of(p as int).spec_next(self@[i].action)
                } else {
                    self.spec_root()
                },
                None => self.spec_root(),
            }
        }
    }

    /// The edge into node `i` was legal in its parent's position.
    pub open spec fn action_legal_at(&self, i: int) -> bool {
        match self@[i].parent {
            Some(p) => self.state_of(p as int).spec_legal().contains(self@[i].action),
            None => true,
        }
    }

    /// Game-level well-formedness: every recorded edge was legal when it
    /// was created, and no two edges out of one node carry the same action.
    pub open spec fn wf_states(&self) -> bool {
        &&& forall|i: int| 1 <= i < self@.len() ==> #[trigger] self.action_legal_at(i)
        &&& forall|j: int, k: int|
            #![trigger self@[j].action, self@[k].action]
            0 <= j < k < self@.len() && self@[j].parent is Some && self@[j].parent == self@[
                k
            ].parent ==> self@[j].action != self@[k].action
    }

    /// The actions out of node `p` that have no child yet: its position's
    /// legal actions with the existing edges' actions taken out.
    pub open spec fn spec_unexpanded(&self, p: usize) -> Seq<usize> {
        minus_all(self.state_of(p as int).spec_legal(), kid_actions(self@, p))
    }

    /// Every position recorded in a well-formed tree is valid.
    pub proof fn lemma_state_inv(&self, i: int)
        requires
            self.wf(),
            self.wf_states(),
            0 <= i < self@.len(),
        ensures
            self.state_of(i).inv(),
        decreases i,
    {
        assert(parent_ok(self@, i));
        if i > 0 {
            match self@[i].parent {
                Some(p) => {
                    self.lemma_state_inv(p as int);
                    assert(self.action_legal_at(i));
                    self.state_of(p as int).laws(self@[i].action);
                },
                None => {},
            }
        }
    }

    /// A fresh tree: one root node that stands for `root_state`.
    pub fn new(root_state: &S) -> (r: Self)
        requires
            root_state.inv(),
        ensures
            r@.len() == 1,
            r@[0] == (Node {
                parent: None,
                first_child: None,
                next_sibling: None,
                action: 0u64 as NodeAction,
                wins: 0u64,
                plays: 0u64,
            }),
            r.spec_root() == *root_state,
            r.wf(),
            r.wf_states(),
    {
        let mut nodes: Vec<Node> = Vec::new();
        nodes.push(Node::new(0, None));
        let r = NodeTree { nodes, root_state: root_state.duplicate() };
        proof {
            assert(parent_ok(r@, 0));
            assert(first_child_ok(r@, 0));
            assert(next_sibling_ok(r@, 0));
        }
        r
    }

    /// How many nodes the arena holds.
    pub fn len(&self) -> (r: usize)
        ensures
            r == self@.len(),
    {
        self.nodes.len()
    }

    /// Read one node.
    pub fn get(&self, node_id: NodeId) -> (r: &Node)
        requires
            (node_id as int) < self@.len(),
        ensures
            *r == self@[node_id as int],
    {
        &self.nodes[node_id]
    }

    /// Borrow one node for writing.  The caller is responsible for keeping
    /// the tree well formed: only `wins` and `plays` can be changed freely.
    pub fn get_mut(&mut self, node_id: NodeId) -> (r: &mut Node)
        requires
            (node_id as int) < old(self)@.len(),
        ensures
            *r == old(self)@[node_id as int],
            final(self)@ == old(self)@.update(node_id as int, *final(r)),
            final(self).spec_root() == old(self).spec_root(),
    {
        &mut self.nodes[node_id]
    }

    /// The ids of a node's children, oldest first, read off its chain.
    pub fn children(&self, node_id: NodeId) -> (r: Vec<NodeId>)
        requires
            wf_nodes(self@),
            (node_id as int) < self@.len(),
        ensures
            r@ == kids_of(self@, node_id),
            forall|j: int| 0 <= j < r@.len() ==> (r@[j] as int) < self@.len(),
    {
        let ghost s = self@;
        let mut r: Vec<NodeId> = Vec::new();
        let mut cur: Option<NodeId> = self.nodes[node_id].first_child;
        proof {
            assert(first_child_ok(s, node_id as int));
            match cur {
                Some(c) => {
                    lemma_kids_window(s, node_id, 0, c as int);
                },
                None => {
                    lemma_kids_window(s, node_id, 0, s.len() as int);
                },
            }
        }
        loop
            invariant
                s == self@,
                wf_nodes(s),
                (node_id as int) < s.len(),
                match cur {
                    Some(c) => (c as int) < s.len() && s[c as int].parent == Some(node_id) && r@
                        == kids_below(s, node_id, c as int),
                    None => r@ == kids_of(s, node_id),
                },
            ensures
                r@ == kids_of(s, node_id),
            decreases (match cur {
                Some(c) => s.len() - c,
                None => 0int,
            }),
        {
            match cur {
                Some(c) => {
                    r.push(c);
                    proof {
                        assert(next_sibling_ok(s, c as int));
                        assert(kids_below(s, node_id, c as int + 1) == kids_below(
                            s,
                            node_id,
                            c as int,
                        ).push(c));
                    }
                    let next = self.nodes[c].next_sibling;
                    proof {
                        match next {
                            Some(k) => {
                                lemma_kids_window(s, node_id, c as int + 1, k as int);
                            },
                            None => {
                                lemma_kids_window(s, node_id, c as int + 1, s.len() as int);
                            },
                        }
                    }
                    cur = next;
                },
                None => {
                    break ;
                },
            }
        }
        proof {
            lemma_kids(s, node_id, s.len() as int);
            assert forall|j: int| 0 <= j < r@.len() implies (r@[j] as int) < s.len() by {
                assert(kids_of(s, node_id).contains(r@[j]));
            }
        }
        r
    }

    /// The youngest child of a node that has at least one child: the end of
    /// its chain.
    pub fn get_last_child_id(&self, node_id: NodeId) -> (r: NodeId)
        requires
            wf_nodes(self@),
            (node_id as int) < self@.len(),
            self@[node_id as int].first_child is Some,
        ensures
            (r as int) < self@.len(),
            self@[r as int].parent == Some(node_id),
            self@[r as int].next_sibling is None,
    {
        let ghost s = self@;
        proof {
            assert(first_child_ok(s, node_id as int));
        }
        let mut child_id = match self.nodes[node_id].first_child {
            Some(c) => c,
            None => 0,
        };
        loop
            invariant
                s == self@,
                wf_nodes(s),
                (child_id as int) < s.len(),
                s[child_id as int].parent == Some(node_id),
            ensures
                (child_id as int) < s.len(),
                s[child_id as int].parent == Some(node_id),
                s[child_id as int].next_sibling is None,
            decreases s.len() - child_id,
        {
            proof {
                assert(next_sibling_ok(s, child_id as int));
            }
            match self.nodes[child_id].next_sibling {
                Some(id) => {
                    child_id = id;
                },
                None => {
                    break ;
                },
            }
        }
        child_id
    }

    /// Append a new node for `action` under `parent_id`, link it at the end
    /// of the parent's child chain, and return its id.
    pub fn add_node(&mut self, action: NodeAction, parent_id: NodeId) -> (r: NodeId)
        requires
            old(self).wf(),
            (parent_id as int) < old(self)@.len(),
            old(self)@.len() < usize::MAX as int,
        ensures
            r as int == old(self)@.len(),
            final(self)@.len() == old(self)@.len() + 1,
            final(self)@[r as int] == (Node {
                parent: Some(parent_id),
                first_child: None,
                next_sibling: None,
                action,
                wins: 0u64,
                plays: 0u64,
            }),
            forall|i: int|
                0 <= i < old(self)@.len() ==> #[trigger] final(self)@[i].parent == old(self)@[
                    i
                ].parent && final(self)@[i].action == old(self)@[i].action && final(self)@[i].wins
                    == old(self)@[i].wins && final(self)@[i].plays == old(self)@[i].plays,
            final(self).spec_root() == old(self).spec_root(),
            final(self).wf(),
            kids_of(final(self)@, parent_id) == kids_of(old(self)@, parent_id).push(r),
            forall|p: usize|
                p != parent_id ==> #[trigger] kids_of(final(self)@, p) == kids_of(old(self)@, p),
            forall|i: int|
                0 <= i < old(self)@.len() ==> #[trigger] final(self).state_of(i) == old(
                    self,
                ).state_of(i),
            final(self).state_of(r as int) == old(self).state_of(parent_id as int).spec_next(
                action,
            ),
            old(self).wf_states() && old(self).state_of(parent_id as int).spec_legal().contains(
                action,
            ) && !kid_actions(old(self)@, parent_id).contains(action) ==> final(self).wf_states(),
    {
        let ghost oldt = *self;
        let ghost olds = self@;
        let node_id = self.nodes.len();
        let ghost mut linked: int = 0;
        if self.nodes[parent_id].first_child.is_none() {
            let mut pnode = self.nodes[parent_id];
            pnode.first_child = Some(node_id);
            self.nodes[parent_id] = pnode;
            proof {
                linked = parent_id as int;
            }
        } else {
            let last = self.get_last_child_id(parent_id);
            let mut lnode = self.nodes[last];
            lnode.next_sibling = Some(node_id);
            self.nodes[last] = lnode;
            proof {
                linked = last as int;
            }
        }
        self.nodes.push(Node::new(action, Some(parent_id)));
        proof {
            let news = self@;
            let n = node_id as int;
            assert(news.len() == n + 1);
            // Only the one chain link at `linked` differs from the old
            // nodes; everything the replay reads is untouched.
            assert forall|j: int|
                0 <= j < n implies #[trigger] news[j].parent == olds[j].parent && news[j].action
                == olds[j].action && news[j].wins == olds[j].wins && news[j].plays
                == olds[j].plays by {}
            assert(olds[linked].parent == news[linked].parent);
            // Parent links still point backwards.
            assert forall|i: int| 0 <= i < news.len() implies #[trigger] parent_ok(news, i) by {
                if i < n {
                    assert(parent_ok(olds, i));
                }
            }
            // First-child links still point at the smallest child.
            assert forall|i: int| 0 <= i < news.len() implies #[trigger] first_child_ok(
                news,
                i,
            ) by {
                if i == n {
                    assert forall|j: int|
                        0 <= j < news.len() implies news[j].parent != Some(n as usize) by {
                        if j < n {
                            assert(parent_ok(olds, j));
                        }
                    }
                } else if i == parent_id as int && linked == parent_id as int {
                    assert(first_child_ok(olds, i));
                } else {
                    assert(first_child_ok(olds, i));
                    match news[i].first_child {
                        Some(c) => {
                            assert(olds[c as int].parent == Some(i as usize));
                        },
                        None => {
                            assert forall|j: int|
                                0 <= j < news.len() implies news[j].parent != Some(
                                i as usize,
                            ) by {
                                if j == n {
                                    if i == parent_id as int {
                                        assert(olds[parent_id as int].first_child is Some);
                                    }
                                }
                            }
                        },
                    }
                }
            }
            // Next-sibling links still step to the next child.
            assert forall|i: int| 0 <= i < news.len() implies #[trigger] next_sibling_ok(
                news,
                i,
            ) by {
                if i == n {
                } else if i == linked && linked != parent_id as int {
                    // the old last child now points at the new node
                    assert(next_sibling_ok(olds, i));
                } else {
                    assert(next_sibling_ok(olds, i));
                    match news[i].next_sibling {
                        Some(k) => {},
                        None => {
                            assert forall|j: int|
                                i < j < news.len() implies news[j].parent != news[i].parent by {
                                if j == n && news[i].parent == Some(parent_id) {
                                    // a second chain end under the same parent
                                    // is impossible
                                    if linked == parent_id as int {
                                        assert(first_child_ok(olds, parent_id as int));
                                        assert(olds[i].parent != Some(parent_id));
                                    } else {
                                        assert(next_sibling_ok(olds, linked));
                                        if i < linked {
                                            assert(olds[linked].parent == Some(parent_id));
                                        } else {
                                            assert(linked < i < olds.len());
                                            assert(false);
                                        }
                                    }
                                }
                            }
                        },
                    }
                }
            }
            assert(wf_nodes(news));
            // The children of the parent gained exactly the new node; no
            // other node's children changed.
            lemma_kids_congruence(olds, news, parent_id, n);
            assert(kids_of(news, parent_id) == kids_of(olds, parent_id).push(node_id));
            assert forall|p: usize|
                p != parent_id implies #[trigger] kids_of(news, p) == kids_of(olds, p) by {
                lemma_kids_congruence(olds, news, p, n);
            }
            // Replayed positions of old nodes are untouched.
            assert forall|i: int|
                0 <= i < n implies #[trigger] self.state_of(i) == oldt.state_of(i) by {
                lemma_state_of_agree(*self, oldt, i);
            }
            assert(news[n].parent == Some(parent_id));
            assert(news[n].action == action);
            assert(self.state_of(parent_id as int) == oldt.state_of(parent_id as int));
            assert(self.state_of(n) == oldt.state_of(parent_id as int).spec_next(action));
            // A legal, fresh action keeps the tree's edges consistent.
            if oldt.wf_states() && oldt.state_of(parent_id as int).spec_legal().contains(action)
                && !kid_actions(olds, parent_id).contains(action) {
                assert forall|i: int| 1 <= i < news.len() implies #[trigger] self.action_legal_at(
                    i,
                ) by {
                    if i < n {
                        assert(oldt.action_legal_at(i));
                        assert(parent_ok(olds, i));
                    }
                }
                assert forall|j: int, k: int|
                    #![trigger self@[j].action, self@[k].action]
                    0 <= j < k < news.len() && news[j].parent is Some && news[j].parent == news[
                        k
                    ].parent implies news[j].action != news[k].action by {
                    if k == n {
                        lemma_kid_action_member(olds, parent_id, j as usize);
                    }
                }
                assert(self.wf_states());
            }
        }
        node_id
    }

    /// The position a node stands for, replayed from the root.
    pub fn state(&self, node_id: NodeId) -> (r: S)
        requires
            self.wf(),
            self.wf_states(),
            (node_id as int) < self@.len(),
        ensures
            r == self.state_of(node_id as int),
        decreases node_id,
    {
        proof {
            assert(parent_ok(self@, node_id as int));
        }
        match self.nodes[node_id].parent {
            None => self.root_state.duplicate(),
            Some(p) => {
                proof {
                    self.lemma_state_inv(p as int);
                    assert(self.action_legal_at(node_id as int));
                }
                let ps = self.state(p);
                ps.next_state(self.nodes[node_id].action)
            },
        }
    }

    /// Whether a node's position has no legal actions at all: nothing below
    /// it can ever be searched.
    pub fn is_leaf(&self, node_id: NodeId) -> (r: bool)
        requires
            self.wf(),
            self.wf_states(),
            (node_id as int) < self@.len(),
        ensures
            r == (self.state_of(node_id as int).spec_legal().len() == 0),
    {
        proof {
            self.lemma_state_inv(node_id as int);
        }
        let state = self.state(node_id);
        let actions = state.legal_actions();
        actions.len() == 0
    }

    /// The legal actions of `state` that node `node_id` has no child for
    /// yet.  `state` is the position the node stands for.
    pub fn unexpanded_actions(&self, node_id: NodeId, state: &S) -> (r: Vec<usize>)
        requires
            wf_nodes(self@),
            (node_id as int) < self@.len(),
            state.inv(),
        ensures
            r@ == minus_all(state.spec_legal(), kid_actions(self@, node_id)),
    {
        let mut actions = state.legal_actions();
        let kids = self.children(node_id);
        let ghost ka = kid_actions(self@, node_id);
        proof {
            assert(ka.len() == kids@.len());
            assert(ka.take(0) =~= Seq::<usize>::empty());
        }
        let mut ki: usize = 0;
        while ki < kids.len()
            invariant
                ki <= kids.len(),
                wf_nodes(self@),
                (node_id as int) < self@.len(),
                kids@ == kids_of(self@, node_id),
                forall|j: int| 0 <= j < kids@.len() ==> (kids@[j] as int) < self@.len(),
                ka == kid_actions(self@, node_id),
                ka.len() == kids@.len(),
                actions@ == minus_all(state.spec_legal(), ka.take(ki as int)),
            decreases kids.len() - ki,
        {
            let child_id = kids[ki];
            let child_action = self.nodes[child_id].action;
            proof {
                assert(ka[ki as int] == self@[kids@[ki as int] as int].action);
            }
            match find_first(&actions, child_action) {
                Some(pos) => {
                    proof {
                        lemma_first_index(actions@, child_action, pos as int);
                    }
                    actions.remove(pos);
                },
                None => {},
            }
            proof {
                assert(ka.take(ki as int + 1) =~= ka.take(ki as int).push(ka[ki as int]));
                lemma_minus_all_push(state.spec_legal(), ka.take(ki as int), ka[ki as int]);
            }
            ki += 1;
        }
        proof {
            assert(ka.take(ka.len() as int) =~= ka);
        }
        actions
    }

    /// Whether every legal action of a node's position already has a child.
    pub fn is_expanded(&self, node_id: NodeId) -> (r: bool)
        requires
            self.wf(),
            self.wf_states(),
            (node_id as int) < self@.len(),
        ensures
            r == (self.spec_unexpanded(node_id).len() == 0),
    {
        proof {
            self.lemma_state_inv(node_id as int);
        }
        let state = self.state(node_id);
        let unexpanded = self.unexpanded_actions(node_id, &state);
        unexpanded.len() == 0
    }

    /// Whether a node can still be expanded: its position has legal
    /// actions, and at least one of them has no child yet.
    pub fn is_expandable(&self, node_id: NodeId) -> (r: bool)
        requires
            self.wf(),
            self.wf_states(),
            (node_id as int) < self@.len(),
        ensures
            r == (self.state_of(node_id as int).spec_legal().len() != 0 && self.spec_unexpanded(
                node_id,
            ).len() != 0),
    {
        proof {
            self.lemma_state_inv(node_id as int);
        }
        let state = self.state(node_id);
        let actions = state.legal_actions();
        if actions.len() == 0 {
            false
        } else {
            let unexpanded = self.unexpanded_actions(node_id, &state);
            unexpanded.len() != 0
        }
    }
}

/// Find the first index of `x` in `actions`, if any.
fn find_first(actions: &Vec<usize>, x: usize) -> (r: Option<usize>)
    ensures
        match r {
            Some(pos) => (pos as int) < actions@.len() && actions@[pos as int] == x && (forall|
                j: int,
            | 0 <= j < pos ==> actions@[j] != x),
            None => !actions@.contains(x),
        },
{
    let mut pos: usize = 0;
    while pos < actions.len()
        invariant
            pos <= actions@.len(),
            forall|j: int| 0 <= j < pos ==> actions@[j] != x,
        decreases actions@.len() - pos,
    {
        if actions[pos] == x {
            return Some(pos);
        }
        pos += 1;
    }
    None
}

/// A child's action is among its parent's edge actions.
pub proof fn lemma_kid_action_member(s: Seq<Node>, p: usize, j: usize)
    requires
        (j as int) < s.len(),
        s.len() <= usize::MAX as int,
        s[j as int].parent == Some(p),
    ensures
        kid_actions(s, p).contains(s[j as int].action),
{
    lemma_kids(s, p, s.len() as int);
    assert(kids_of(s, p).contains(j));
    let idx = choose|idx: int| 0 <= idx < kids_of(s, p).len() && kids_of(s, p)[idx] == j;
    assert(kid_actions(s, p)[idx] == s[j as int].action);
}

/// Two trees that agree on the root position and on the parent and action
/// of every node up to `i` replay node `i` to the same position.
pub proof fn lemma_state_of_agree<S: GameState>(t1: NodeTree<S>, t2: NodeTree<S>, i: int)
    requires
        t1.spec_root() == t2.spec_root(),
        0 <= i < t1@.len(),
        i < t2@.len(),
        forall|j: int|
            0 <= j <= i ==> #[trigger] t1@[j].parent == t2@[j].parent && t1@[j].action == t2@[
                j
            ].action,
    ensures
        t1.state_of(i) == t2.state_of(i),
    decreases i,
{
    if i > 0 {
        match t1@[i].parent {
            Some(p) => {
                if (p as int) < i {
                    lemma_state_of_agree(t1, t2, p as int);
                }
            },
            None => {},
        }
    }
}

/// The first index carrying `x`, or the length if there is none.
pub open spec fn first_index_of(s: Seq<usize>, x: usize) -> int
    decreases s.len(),
{
    if s.len() == 0 {
        0
    } else if s[0] == x {
        0
    } else {
        1 + first_index_of(s.drop_first(), x)
    }
}

/// `s` with the first occurrence of `x`, if any, taken out.
pub open spec fn remove_first(s: Seq<usize>, x: usize) -> Seq<usize> {
    if s.contains(x) {
        s.remove(first_index_of(s, x))
    } else {
        s
    }
}

/// `s` with the first occurrence of each element of `xs` taken out, in
/// order.
pub open spec fn minus_all(s: Seq<usize>, xs: Seq<usize>) -> Seq<usize>
    decreases xs.len(),
{
    if xs.len() == 0 {
        s
    } else {
        minus_all(remove_first(s, xs[0]), xs.drop_first())
    }
}

/// A cursor over one node's children: it follows the node's first-child
/// link, then the next-sibling chain, yielding each child id in order.
/// A live view of the tree it borrows: the chain is walked as it stands.
pub struct NodeChildIterator<'a, S: GameState> {
    tree: &'a NodeTree<S>,
    curr: NodeId,
    first: bool,
    origin: Ghost<NodeId>,
    emitted: Ghost<Seq<usize>>,
}

impl<'a, S: GameState> NodeChildIterator<'a, S> {
    /// The nodes of the tree being walked.
    pub closed spec fn spec_tree(&self) -> Seq<Node> {
        self.tree@
    }

    /// The node whose children are walked.
    pub closed spec fn spec_origin(&self) -> NodeId {
        self.origin@
    }

    /// The child ids already produced, in order.
    pub closed spec fn spec_emitted(&self) -> Seq<usize> {
        self.emitted@
    }

    /// The cursor stands either at the start or on the child it last
    /// produced, having emitted exactly the children up to that point.
    pub closed spec fn wf(&self) -> bool {
        &&& wf_nodes(self.tree@)
        &&& (self.origin@ as int) < self.tree@.len()
        &&& if self.first {
            self.curr == self.origin@ && self.emitted@ == Seq::<usize>::empty()
        } else {
            &&& (self.curr as int) < self.tree@.len()
            &&& self.tree@[self.curr as int].parent == Some(self.origin@)
            &&& self.emitted@ == kids_below(self.tree@, self.origin@, self.curr as int + 1)
        }
    }

    /// A cursor at the start of `node_id`'s child chain.
    pub fn new(tree: &'a NodeTree<S>, node_id: NodeId) -> (r: Self)
        requires
            wf_nodes(tree@),
            (node_id as int) < tree@.len(),
        ensures
            r.wf(),
            r.spec_tree() == tree@,
            r.spec_origin() == node_id,
            r.spec_emitted() == Seq::<usize>::empty(),
    {
        Self {
            tree,
            curr: node_id,
            first: true,
            origin: Ghost(node_id),
            emitted: Ghost(Seq::empty()),
        }
    }

    /// The next child in the chain, or nothing once the chain ends; at the
    /// end, the cursor has produced exactly the node's children, in order.
    pub fn next(&mut self) -> (r: Option<NodeId>)
        requires
            old(self).wf(),
        ensures
            final(self).wf(),
            final(self).spec_tree() == old(self).spec_tree(),
            final(self).spec_origin() == old(self).spec_origin(),
            match r {
                Some(id) => {
                    &&& final(self).spec_emitted() == old(self).spec_emitted().push(id)
                    &&& (id as int) < old(self).spec_tree().len()
                    &&& old(self).spec_tree()[id as int].parent == Some(old(self).spec_origin())
                },
                None => {
                    &&& final(self).spec_emitted() == old(self).spec_emitted()
                    &&& old(self).spec_emitted() == kids_of(
                        old(self).spec_tree(),
                        old(self).spec_origin(),
                    )
                },
            },
    {
        let ghost s = self.tree@;
        let ghost origin = self.origin@;
        let node = self.tree.get(self.curr);
        let next_id = if self.first {
            proof {
                assert(first_child_ok(s, origin as int));
            }
            node.first_child
        } else {
            proof {
                assert(next_sibling_ok(s, self.curr as int));
            }
            node.next_sibling
        };
        proof {
            match next_id {
                Some(id) => {
                    if self.first {
                        lemma_kids_window(s, origin, 0, id as int);
                    } else {
                        lemma_kids_window(s, origin, self.curr as int + 1, id as int);
                    }
                },
                None => {
                    if self.first {
                        lemma_kids_window(s, origin, 0, s.len() as int);
                    } else {
                        lemma_kids_window(s, origin, self.curr as int + 1, s.len() as int);
                    }
                },
            }
        }
        let ghost was_first = self.first;
        let ghost prev = self.curr;
        match next_id {
            Some(id) => {
                self.first = false;
                self.curr = id;
                proof {
                    self.emitted@ = self.emitted@.push(id);
                    if was_first {
                        assert(s[id as int].parent == Some(origin));
                        assert(kids_below(s, origin, id as int) == kids_below(s, origin, 0));
                    } else {
                        assert(s[id as int].parent == s[prev as int].parent);
                        assert(kids_below(s, origin, id as int) == kids_below(
                            s,
                            origin,
                            prev as int + 1,
                        ));
                    }
                    assert(kids_below(s, origin, id as int + 1) == kids_below(
                        s,
                        origin,
                        id as int,
                    ).push(id));
                }
                Some(id)
            },
            None => None,
        }
    }
}

/// `i` lies on the path from the root to `leaf`: it is `leaf` itself or
/// one of its ancestors.
pub open spec fn on_path(s: Seq<Node>, leaf: int, i: int) -> bool
    decreases leaf,
{
    if leaf == i {
        true
    } else if leaf <= 0 || leaf >= s.len() {
        false
    } else {
        match s[leaf].parent {
            Some(p) => (p as int) < leaf && on_path(s, p as int, i),
            None => false,
        }
    }
}

/// The number of edges from the root down to node `i`.
pub open spec fn depth_of(s: Seq<Node>, i: int) -> nat
    decreases i,
{
    if i <= 0 || i >= s.len() {
        0
    } else {
        match s[i].parent {
            Some(p) => if (p as int) < i {
                1 + depth_of(s, p as int)
            } else {
                0
            },
            None => 0,
        }
    }
}

/// A path node never sits beyond the leaf.
pub proof fn lemma_on_path_le(s: Seq<Node>, leaf: int, i: int)
    requires
        on_path(s, leaf, i),
    ensures
        i <= leaf,
    decreases leaf,
{
    if leaf != i {
        match s[leaf].parent {
            Some(p) => {
                lemma_on_path_le(s, p as int, i);
            },
            None => {},
        }
    }
}

/// The root lies on every node's path.
pub proof fn lemma_on_path_root(s: Seq<Node>, leaf: int)
    requires
        wf_nodes(s),
        0 <= leaf < s.len(),
    ensures
        on_path(s, leaf, 0),
    decreases leaf,
{
    assert(parent_ok(s, leaf));
    if leaf > 0 {
        match s[leaf].parent {
            Some(p) => {
                lemma_on_path_root(s, p as int);
            },
            None => {},
        }
    }
}

/// A non-root path node's parent lies on the path too.
pub proof fn lemma_on_path_parent(s: Seq<Node>, leaf: int, i: int)
    requires
        wf_nodes(s),
        0 <= leaf < s.len(),
        0 < i < s.len(),
        on_path(s, leaf, i),
    ensures
        s[i].parent matches Some(p) ==> on_path(s, leaf, p as int),
    decreases leaf,
{
    assert(parent_ok(s, i));
    if leaf == i {
        match s[i].parent {
            Some(p) => {
                assert(on_path(s, p as int, p as int));
            },
            None => {},
        }
    } else {
        match s[leaf].parent {
            Some(p) => {
                lemma_on_path_parent(s, p as int, i);
            },
            None => {},
        }
    }
}

/// Nodes on a path sit no deeper than the leaf.
pub proof fn lemma_on_path_depth(s: Seq<Node>, leaf: int, i: int)
    requires
        on_path(s, leaf, i),
    ensures
        depth_of(s, i) <= depth_of(s, leaf),
    decreases leaf,
{
    if leaf != i {
        match s[leaf].parent {
            Some(p) => {
                lemma_on_path_depth(s, p as int, i);
            },
            None => {},
        }
    }
}

/// Tree well-formedness: every node other than the root has a parent and
/// stands exactly once in that parent's child chain (it is in the chain,
/// and the chain has no duplicates); parents sit strictly earlier in the
/// arena, so no node is its own ancestor; and the root is reachable from
/// every node along parent links.
pub proof fn lemma_tree_well_formed<S: GameState>(t: &NodeTree<S>)
    requires
        wf_nodes(t@),
    ensures
        t@[0].parent is None,
        forall|i: int|
            1 <= i < t@.len() ==> ((#[trigger] t@[i].parent) matches Some(p) && (p as int) < i
                && kids_of(t@, p).contains(i as usize)),
        forall|p: usize| #[trigger] kids_of(t@, p).no_duplicates(),
        forall|i: int| 0 <= i < t@.len() ==> on_path(t@, i, 0),
{
    assert(parent_ok(t@, 0));
    assert forall|i: int|
        1 <= i < t@.len() implies ((#[trigger] t@[i].parent) matches Some(p) && (p as int) < i
        && kids_of(t@, p).contains(i as usize)) by {
        assert(parent_ok(t@, i));
        match t@[i].parent {
            Some(p) => {
                lemma_kids(t@, p, t@.len() as int);
                assert(kids_of(t@, p).contains(i as usize));
            },
            None => {},
        }
    }
    assert forall|p: usize| #[trigger] kids_of(t@, p).no_duplicates() by {
        lemma_kids(t@, p, t@.len() as int);
    }
    assert forall|i: int| 0 <= i < t@.len() implies on_path(t@, i, 0) by {
        lemma_on_path_root(t@, i);
    }
}

/// The first occurrence of `x` is where no earlier index carries it.
pub proof fn lemma_first_index(s: Seq<usize>, x: usize, pos: int)
    requires
        0 <= pos < s.len(),
        s[pos] == x,
        forall|j: int| 0 <= j < pos ==> s[j] != x,
    ensures
        first_index_of(s, x) == pos,
        s.contains(x),
    decreases pos,
{
    if pos > 0 {
        assert forall|j: int| 0 <= j < pos - 1 implies s.drop_first()[j] != x by {
            assert(s.drop_first()[j] == s[j + 1]);
        }
        assert(s.drop_first()[pos - 1] == s[pos]);
        lemma_first_index(s.drop_first(), x, pos - 1);
    }
}

/// Taking one more element out is one more `remove_first`.
pub proof fn lemma_minus_all_push(s: Seq<usize>, xs: Seq<usize>, x: usize)
    ensures
        minus_all(s, xs.push(x)) == remove_first(minus_all(s, xs), x),
    decreases xs.len(),
{
    let p = xs.push(x);
    if xs.len() == 0 {
        assert(p[0] == x);
        assert(p.drop_first() =~= Seq::<usize>::empty());
        assert(minus_all(s, p) == minus_all(remove_first(s, x), p.drop_first()));
        assert(minus_all(remove_first(s, x), p.drop_first()) == remove_first(s, x));
        assert(minus_all(s, xs) == s);
    } else {
        assert(p[0] == xs[0]);
        assert(p.drop_first() =~= xs.drop_first().push(x));
        assert(minus_all(s, p) == minus_all(remove_first(s, p[0]), p.drop_first()));
        lemma_minus_all_push(remove_first(s, xs[0]), xs.drop_first(), x);
        assert(minus_all(s, p) == remove_first(
            minus_all(remove_first(s, xs[0]), xs.drop_first()),
            x,
        ));
        assert(minus_all(s, xs) == minus_all(remove_first(s, xs[0]), xs.drop_first()));
    }
}

/// The first occurrence of a contained element is within bounds, carries
/// it, and nothing before it does.
pub proof fn lemma_first_index_props(s: Seq<usize>, x: usize)
    requires
        s.contains(x),
    ensures
        0 <= first_index_of(s, x) < s.len(),
        s[first_index_of(s, x)] == x,
        forall|j: int| 0 <= j < first_index_of(s, x) ==> s[j] != x,
    decreases s.len(),
{
    if s.len() > 0 && s[0] != x {
        assert forall|y: usize| s.drop_first().contains(y) <==> exists|j: int|
            1 <= j < s.len() && s[j] == y by {
            if s.drop_first().contains(y) {
                let j = choose|j: int| 0 <= j < s.drop_first().len() && s.drop_first()[j] == y;
                assert(s[j + 1] == y);
            }
            if exists|j: int| 1 <= j < s.len() && s[j] == y {
                let j = choose|j: int| 1 <= j < s.len() && s[j] == y;
                assert(s.drop_first()[j - 1] == y);
            }
        }
        assert(s.drop_first().contains(x));
        lemma_first_index_props(s.drop_first(), x);
        let fi = first_index_of(s.drop_first(), x);
        assert(s[fi + 1] == s.drop_first()[fi]);
        assert forall|j: int| 0 <= j < fi + 1 implies s[j] != x by {
            if j > 0 {
                assert(s.drop_first()[j - 1] == s[j]);
            }
        }
    }
}

/// Taking out one occurrence of `x` from a duplicate-free sequence leaves
/// exactly the other elements.
pub proof fn lemma_remove_first_no_dup(s: Seq<usize>, x: usize)
    requires
        s.no_duplicates(),
    ensures
        remove_first(s, x).no_duplicates(),
        forall|y: usize| #[trigger] remove_first(s, x).contains(y) <==> (s.contains(y) && y != x),
{
    if s.contains(x) {
        lemma_first_index_props(s, x);
        let fi = first_index_of(s, x);
        let rem = s.remove(fi);
        assert forall|j: int| 0 <= j < rem.len() implies rem[j] == (if j < fi {
            s[j]
        } else {
            s[j + 1]
        }) by {}
        assert forall|a: int, b: int| 0 <= a < b < rem.len() implies rem[a] != rem[b] by {
            let sa: int = if a < fi {
                a
            } else {
                a + 1
            };
            let sb: int = if b < fi {
                b
            } else {
                b + 1
            };
            assert(s[sa] == rem[a] && s[sb] == rem[b] && sa < sb);
        }
        assert forall|y: usize| #[trigger] rem.contains(y) <==> (s.contains(y) && y != x) by {
            if rem.contains(y) {
                let j = choose|j: int| 0 <= j < rem.len() && rem[j] == y;
                let sj: int = if j < fi {
                    j
                } else {
                    j + 1
                };
                assert(s[sj] == y);
                assert(s.contains(y));
                if y == x {
                    assert(s[sj] == s[fi] && sj != fi);
                }
            }
            if s.contains(y) && y != x {
                let j = choose|j: int| 0 <= j < s.len() && s[j] == y;
                if j < fi {
                    assert(rem[j] == y);
                } else {
                    assert(j != fi);
                    assert(rem[j - 1] == y);
                }
                assert(rem.contains(y));
            }
        }
    }
}

/// On a duplicate-free sequence, `minus_all` keeps exactly the elements
/// not taken out.
pub proof fn lemma_minus_all_no_dup(s: Seq<usize>, xs: Seq<usize>)
    requires
        s.no_duplicates(),
    ensures
        minus_all(s, xs).no_duplicates(),
        forall|y: usize| #[trigger] minus_all(s, xs).contains(y) <==> (s.contains(y)
            && !xs.contains(y)),
    decreases xs.len(),
{
    if xs.len() > 0 {
        lemma_remove_first_no_dup(s, xs[0]);
        lemma_minus_all_no_dup(remove_first(s, xs[0]), xs.drop_first());
        assert forall|y: usize| #[trigger] xs.contains(y) <==> (y == xs[0]
            || xs.drop_first().contains(y)) by {
            if xs.contains(y) {
                let j = choose|j: int| 0 <= j < xs.len() && xs[j] == y;
                if j > 0 {
                    assert(xs.drop_first()[j - 1] == y);
                }
            }
            if xs.drop_first().contains(y) {
                let j = choose|j: int| 0 <= j < xs.drop_first().len() && xs.drop_first()[j] == y;
                assert(xs[j + 1] == y);
            }
        }
    }
}

/// The legal actions of a node's position split exactly between the
/// actions already expanded into children and the unexpanded ones: the two
/// sets are disjoint and together cover the legal set.
pub proof fn lemma_move_partition<S: GameState>(t: &NodeTree<S>, p: usize)
    requires
        t.wf(),
        t.wf_states(),
        (p as int) < t@.len(),
    ensures
        forall|a: usize| #[trigger]
            t.state_of(p as int).spec_legal().contains(a) <==> (kid_actions(t@, p).contains(a)
                || t.spec_unexpanded(p).contains(a)),
        forall|a: usize|
            !(#[trigger] kid_actions(t@, p).contains(a) && t.spec_unexpanded(p).contains(a)),
{
    t.lemma_state_inv(p as int);
    let st = t.state_of(p as int);
    st.laws(0);
    let legal = st.spec_legal();
    lemma_minus_all_no_dup(legal, kid_actions(t@, p));
    lemma_kids(t@, p, t@.len() as int);
    assert forall|a: usize| #[trigger] kid_actions(t@, p).contains(a) implies legal.contains(
        a,
    ) by {
        let j = choose|j: int| 0 <= j < kid_actions(t@, p).len() && kid_actions(t@, p)[j] == a;
        let kid = kids_of(t@, p)[j];
        assert(kids_of(t@, p).contains(kid));
        assert(parent_ok(t@, kid as int));
        assert(t.action_legal_at(kid as int));
    }
}

} // verus!
