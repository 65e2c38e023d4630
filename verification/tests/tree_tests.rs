use mcts::game::GameState;
use mcts::tic_tac_toe::TicTacToeState;
use mcts::tree::NodeTree;

fn setup_tree() -> NodeTree<TicTacToeState> {
    let state = TicTacToeState::new();
    NodeTree::new(&state)
}

fn setup_status_tree() -> NodeTree<TicTacToeState> {
    let mut tree = setup_tree();
    tree.add_node(0, 0); // 1 (node id)
    tree.add_node(1, 0); // 2
    tree.add_node(2, 0); // 3
    tree.add_node(3, 0); // 4
    tree.add_node(4, 0); // 5
    tree.add_node(5, 0); // 6
    tree.add_node(6, 0); // 7
    tree.add_node(7, 0); // 8
    tree.add_node(8, 0); // 9
    tree.add_node(1, 1); // 10
    tree.add_node(2, 10); // 11
    tree.add_node(3, 11); // 12
    tree.add_node(4, 12); // 13
    tree.add_node(5, 13); // 14
    tree.add_node(6, 14); // 15
    tree.add_node(7, 15); // 16
    tree.add_node(8, 16); // 17
    tree
}

#[test]
fn test_state() {
    let mut tree = setup_tree();
    tree.add_node(1, 0); // 1 (node id)
    tree.add_node(2, 0); // 2
    tree.add_node(3, 0); // 3
    tree.add_node(4, 0); // 4
    tree.add_node(0, 3); // 5
    tree.add_node(1, 5); // 6
    tree.add_node(2, 5); // 7
    tree.add_node(2, 6); // 8
    let state = tree.state(8);
    assert_eq!(state.board, [2, 1, 2, 1, 0, 0, 0, 0, 0]);
}

#[test]
fn test_unexpanded_actions() {
    let mut tree = setup_tree();
    let unexpanded = tree.unexpanded_actions(0, &tree.state(0));
    assert_eq!(unexpanded, vec![0, 1, 2, 3, 4, 5, 6, 7, 8]);
    tree.add_node(0, 0); // 1 (node id)
    tree.add_node(1, 0); // 2
    tree.add_node(2, 0); // 3
    tree.add_node(3, 0); // 4
    tree.add_node(4, 0); // 5
    tree.add_node(5, 0); // 6
    tree.add_node(6, 0); // 7
    let unexpanded = tree.unexpanded_actions(0, &tree.state(0));
    assert_eq!(unexpanded, vec![7, 8]);
    tree.add_node(7, 0); // 8
    tree.add_node(8, 0); // 9
    let unexpanded = tree.unexpanded_actions(0, &tree.state(0));
    assert_eq!(unexpanded, vec![]);
    tree.add_node(0, 3); // 10
    tree.add_node(1, 3); // 11
    tree.add_node(3, 3); // 12
    tree.add_node(4, 3); // 13
    let unexpanded = tree.unexpanded_actions(3, &tree.state(3));
    assert_eq!(unexpanded, vec![5, 6, 7, 8]);
}

#[test]
fn test_is_leaf() {
    let tree = setup_status_tree();
    assert_eq!(tree.is_leaf(0), false);
    assert_eq!(tree.is_leaf(9), false);
    assert_eq!(tree.is_leaf(13), false);
    assert_eq!(tree.is_leaf(17), true);
}

#[test]
fn test_is_expanded() {
    let tree = setup_status_tree();
    assert_eq!(tree.is_expanded(0), true);
    assert_eq!(tree.is_expanded(9), false);
    assert_eq!(tree.is_expanded(13), false);
    assert_eq!(tree.is_expanded(17), true);
}

#[test]
fn test_is_expandable() {
    let tree = setup_status_tree();
    assert_eq!(tree.is_expandable(0), false);
    assert_eq!(tree.is_expandable(9), true);
    assert_eq!(tree.is_expandable(13), true);
    assert_eq!(tree.is_expandable(17), false);
}

#[test]
fn test_children_follow_the_chain() {
    let tree = setup_status_tree();
    assert_eq!(tree.children(0), vec![1, 2, 3, 4, 5, 6, 7, 8, 9]);
    assert_eq!(tree.children(1), vec![10]);
    assert_eq!(tree.children(10), vec![11]);
    assert_eq!(tree.children(17), Vec::<usize>::new());
    assert_eq!(tree.get_last_child_id(0), 9);
    assert_eq!(tree.len(), 18);
}

#[test]
fn test_add_node_links_parent_and_fields() {
    let mut tree = setup_tree();
    let a = tree.add_node(4, 0);
    let b = tree.add_node(5, 0);
    let c = tree.add_node(6, a);
    assert_eq!((a, b, c), (1, 2, 3));
    assert_eq!(tree.get(c).parent, Some(a));
    assert_eq!(tree.get(c).action, 6);
    assert_eq!(tree.get(c).plays, 0);
    assert_eq!(tree.get(c).wins, 0);
    assert_eq!(tree.children(0), vec![a, b]);
    assert_eq!(tree.children(a), vec![c]);
}

#[test]
fn test_get_mut_updates_statistics() {
    let mut tree = setup_tree();
    let id = tree.add_node(0, 0);
    {
        let node = tree.get_mut(id);
        node.plays = 3;
        node.wins = 5;
    }
    assert_eq!(tree.get(id).plays, 3);
    assert_eq!(tree.get(id).wins, 5);
}

#[test]
fn test_child_iterator_walks_the_chain() {
    let tree = setup_status_tree();
    let mut iter = mcts::tree::NodeChildIterator::new(&tree, 0);
    let mut collected: Vec<usize> = Vec::new();
    while let Some(id) = iter.next() {
        collected.push(id);
    }
    assert_eq!(collected, vec![1, 2, 3, 4, 5, 6, 7, 8, 9]);
    // once exhausted, the cursor stays exhausted
    assert_eq!(iter.next(), None);
    let mut empty = mcts::tree::NodeChildIterator::new(&tree, 17);
    assert_eq!(empty.next(), None);
    assert_eq!(empty.next(), None);
}
