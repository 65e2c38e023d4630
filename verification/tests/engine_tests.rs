use mcts::game::GameState;
use mcts::monte_carlo_agent::MonteCarloAgent;
use mcts::random_agent::RandomAgent;
use mcts::tic_tac_toe::TicTacToeState;
use mcts::uct::isqrt;
use mcts::uct::log2_fp;
use mcts::uct::uct_fp;
use mcts::uct::EXPLORE_C_FP;
use rand::SeedableRng;

const LONG_MILLIS: u64 = 600_000;

fn rng_with(seed: u64) -> rand::rngs::StdRng {
    rand::rngs::StdRng::seed_from_u64(seed)
}

#[test]
fn test_isqrt_exact_values() {
    assert_eq!(isqrt(0), 0);
    assert_eq!(isqrt(1), 1);
    assert_eq!(isqrt(3), 1);
    assert_eq!(isqrt(4), 2);
    assert_eq!(isqrt(15), 3);
    assert_eq!(isqrt(16), 4);
    assert_eq!(isqrt(1_000_000), 1000);
    assert_eq!(isqrt(u64::MAX), 4_294_967_295);
}

#[test]
fn test_log2_fp_on_powers_of_two() {
    // on exact powers of two the fraction vanishes
    assert_eq!(log2_fp(1), 0);
    assert_eq!(log2_fp(2), 65536);
    assert_eq!(log2_fp(4), 2 * 65536);
    assert_eq!(log2_fp(1 << 20), 20 * 65536);
    // between powers the value is strictly between the neighbours
    let l3 = log2_fp(3);
    assert!(65536 < l3 && l3 < 2 * 65536);
}

#[test]
fn test_uct_fp_exact_value() {
    // one win in one visit under a once-visited parent: ln 1 = 0, so the
    // score is the pure exploitation term, half a point in fixed point
    assert_eq!(uct_fp(1, 1, 1, EXPLORE_C_FP), 32768);
    // a sure win scores a full point plus exploration
    assert!(uct_fp(2, 1, 1, EXPLORE_C_FP) == 65536);
    // more visits of the parent raise the exploration bonus
    assert!(uct_fp(1, 1, 100, EXPLORE_C_FP) > uct_fp(1, 1, 2, EXPLORE_C_FP));
}

#[test]
fn test_run_search_visit_accounting() {
    // the root's visit count equals the number of completed iterations
    let agent = MonteCarloAgent {};
    let state = TicTacToeState::new();
    let mut rng = rng_with(11);
    let (tree, iters) = agent.run_search(&state, 300, LONG_MILLIS, &mut rng);
    assert_eq!(iters, 300);
    assert_eq!(tree.get(0).plays, 300);
}

#[test]
fn test_run_search_score_bound() {
    // every node's accumulated score stays within two half-points a visit
    let agent = MonteCarloAgent {};
    let state = TicTacToeState::new();
    let mut rng = rng_with(12);
    let (tree, _iters) = agent.run_search(&state, 500, LONG_MILLIS, &mut rng);
    for id in 0..tree.len() {
        let node = tree.get(id);
        assert!(node.wins <= 2 * node.plays);
    }
}

#[test]
fn test_run_search_tree_links() {
    // parents point backwards and every child sits in its parent's chain
    let agent = MonteCarloAgent {};
    let state = TicTacToeState::new();
    let mut rng = rng_with(13);
    let (tree, _iters) = agent.run_search(&state, 400, LONG_MILLIS, &mut rng);
    assert_eq!(tree.get(0).parent, None);
    for id in 1..tree.len() {
        let parent = tree.get(id).parent.expect("only the root lacks a parent");
        assert!(parent < id);
        let kids = tree.children(parent);
        assert_eq!(kids.iter().filter(|&&k| k == id).count(), 1);
    }
}

#[test]
fn test_selection_lands_on_expandable_or_terminal() {
    let agent = MonteCarloAgent {};
    let state = TicTacToeState::new();
    let mut rng = rng_with(14);
    let (tree, _iters) = agent.run_search(&state, 200, LONG_MILLIS, &mut rng);
    let landing = agent.selection(0, &tree);
    assert!(!tree.is_expanded(landing) || tree.is_leaf(landing));
}

#[test]
fn test_move_partition() {
    // expanded and unexpanded actions split the legal set exactly
    let agent = MonteCarloAgent {};
    let state = TicTacToeState::new();
    let mut rng = rng_with(15);
    let (tree, _iters) = agent.run_search(&state, 100, LONG_MILLIS, &mut rng);
    for id in 0..tree.len() {
        let position = tree.state(id);
        let mut legal = position.legal_actions();
        let mut split: Vec<usize> = tree
            .children(id)
            .iter()
            .map(|&kid| tree.get(kid).action)
            .collect();
        split.extend(tree.unexpanded_actions(id, &position));
        legal.sort();
        split.sort();
        assert_eq!(legal, split);
    }
}

#[test]
fn test_determinism_under_fixed_seed() {
    // a fixed random source and an iteration budget reproduce the move
    let agent = MonteCarloAgent {};
    let mut state = TicTacToeState::new();
    state.board = [1, 2, 0, 0, 1, 0, 0, 0, 2];
    let mut first = rng_with(99);
    let mut second = rng_with(99);
    let a = agent.choose_action(&state, 250, LONG_MILLIS, &mut first);
    let b = agent.choose_action(&state, 250, LONG_MILLIS, &mut second);
    assert_eq!(a, b);
}

#[test]
fn test_immediate_win_is_found() {
    // player 1 can win at once by playing cell 2
    let agent = MonteCarloAgent {};
    let mut state = TicTacToeState::new();
    state.board = [1, 1, 0, 0, 0, 0, 2, 2, 0];
    state.player = 1;
    let mut hits = 0;
    for seed in 0..10u64 {
        let mut rng = rng_with(seed);
        if agent.choose_action(&state, 1500, LONG_MILLIS, &mut rng) == Some(2) {
            hits += 1;
        }
    }
    assert!(hits >= 9, "winning move found only {} times out of 10", hits);
}

#[test]
fn test_forced_draw_returns_no_move() {
    let agent = MonteCarloAgent {};
    let mut state = TicTacToeState::new();
    state.board = [2, 1, 2, 1, 1, 2, 1, 2, 1];
    state.player = 2;
    let mut rng = rng_with(5);
    assert_eq!(agent.choose_action(&state, 50, LONG_MILLIS, &mut rng), None);
}

#[test]
fn test_single_legal_move_is_returned() {
    let agent = MonteCarloAgent {};
    let mut state = TicTacToeState::new();
    state.board = [0, 2, 2, 1, 1, 2, 2, 1, 1];
    state.player = 1;
    for budget in [1u64, 7, 60] {
        let mut rng = rng_with(budget);
        assert_eq!(agent.choose_action(&state, budget, LONG_MILLIS, &mut rng), Some(0));
    }
}

#[test]
fn test_symmetric_opening_spreads_moves() {
    // from the empty board, different seeds must not all pick one move
    let agent = MonteCarloAgent {};
    let state = TicTacToeState::new();
    let mut seen: Vec<usize> = Vec::new();
    for seed in 0..25u64 {
        let mut rng = rng_with(seed);
        let action = agent.choose_action(&state, 40, LONG_MILLIS, &mut rng).unwrap();
        if !seen.contains(&action) {
            seen.push(action);
        }
    }
    assert!(seen.len() >= 2, "all seeds picked the same opening move");
}

#[test]
fn test_time_budget_still_returns_a_move() {
    // a zero time budget stops after the guaranteed first iteration
    let agent = MonteCarloAgent {};
    let state = TicTacToeState::new();
    let mut rng = rng_with(3);
    let action = agent.choose_action(&state, 1_000, 0, &mut rng);
    assert!(action.is_some());
}

#[test]
fn test_random_agent_plays_legal_move() {
    let agent = RandomAgent {};
    let state = TicTacToeState::new();
    let mut rng = rng_with(17);
    for _ in 0..20 {
        let action = agent.choose_action(&state, &mut rng).unwrap();
        assert!(action < 9);
    }
    let mut finished = TicTacToeState::new();
    finished.board = [2, 1, 2, 1, 1, 2, 1, 2, 1];
    assert_eq!(agent.choose_action(&finished, &mut rng), None);
}
