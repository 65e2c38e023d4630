//! The nodes of the search tree's arena.

use vstd::prelude::*;

verus! {

/// Index of a node in the search tree's arena.
pub type NodeId = usize;

/// The action that led from a node's parent to the node.
pub type NodeAction = usize;

/// How far a node has been explored: it still has unexpanded actions, all
/// its actions have children, or it has no actions at all.
#[derive(Debug, Clone, PartialEq, Eq, Structural)]
pub enum NodeStatus {
    Expandable,
    Expanded,
    Leaf,
}

/// One search-tree node.
///
/// Children of a node form a chain: `first_child` points at the oldest
/// child, and each child points at the next one through `next_sibling`.
/// `plays` counts the completed simulations that passed through the node,
/// and `wins` accumulates their rewards in half-point units, credited to the
/// player whose move led to the node; so `wins <= 2 * plays` always holds.
#[derive(Debug, Clone, Copy)]
pub struct Node {
    pub parent: Option<NodeId>,
    pub first_child: Option<NodeId>,
    pub next_sibling: Option<NodeId>,
    pub action: NodeAction,
    pub wins: u64,
    pub plays: u64,
}

impl Node {
    /// A fresh node with no children and no recorded simulations.
    pub fn new(action: NodeAction, parent: Option<NodeId>) -> (r: Self)
        ensures
            r == (Node {
                parent,
                first_child: None,
                next_sibling: None,
                action,
                wins: 0u64,
                plays: 0u64,
            }),
    {
        Self { parent, first_child: None, next_sibling: None, action, wins: 0, plays: 0 }
    }
}

} // verus!
