use mcts::game::GameState;
use mcts::game::GameResult;
use mcts::monte_carlo_agent::MonteCarloAgent;
use mcts::tic_tac_toe::TicTacToeState;
use rand::SeedableRng;

#[test]
fn test_reward() {
    let mut state = TicTacToeState::new();
    state.player = 1;
    state.board = [1, 1, 1, 0, 0, 0, 2, 2, 0];
    assert_eq!(state.reward(), Some(2));
    state.board = [1, 2, 0, 0, 1, 0, 2, 0, 1];
    assert_eq!(state.reward(), Some(2));
    state.board = [2, 1, 0, 0, 1, 2, 0, 1, 0];
    assert_eq!(state.reward(), Some(2));
    state.board = [0, 2, 1, 0, 1, 2, 1, 0, 0];
    assert_eq!(state.reward(), Some(2));
    state.board = [2, 1, 2, 1, 1, 2, 2, 2, 1];
    assert_eq!(state.reward(), Some(1));
    state.board = [2, 2, 2, 1, 1, 2, 2, 1, 1];
    assert_eq!(state.reward(), Some(0));
    state.board = [0, 0, 0, 0, 0, 0, 0, 0, 0];
    assert_eq!(state.reward(), None);
    state.board = [0, 2, 2, 1, 1, 2, 2, 1, 1];
    assert_eq!(state.reward(), None);
    state.player = 2;
    state.board = [2, 2, 2, 1, 1, 2, 2, 1, 1];
    assert_eq!(state.reward(), Some(2));
}

#[test]
fn test_simulate() {
    let agent = MonteCarloAgent {};
    let mut rng = rand::rngs::StdRng::seed_from_u64(7);
    let mut state = TicTacToeState::new();
    state.player = 1;
    state.board = [0, 2, 2, 1, 1, 2, 2, 1, 1];
    let mut comp_state = state.clone();
    comp_state.board[0] = 1;
    let (terminal, _even) = agent.simulate(state, &mut rng);
    assert_eq!(terminal.board, comp_state.board);
}

#[test]
fn test_new_board_is_empty() {
    let state = TicTacToeState::new();
    assert_eq!(state.board, [0, 0, 0, 0, 0, 0, 0, 0, 0]);
    assert_eq!(state.player, 1);
    assert_eq!(state.legal_actions(), vec![0, 1, 2, 3, 4, 5, 6, 7, 8]);
    assert_eq!(state.reward(), None);
}

#[test]
fn test_next_state_places_mark_and_alternates() {
    let state = TicTacToeState::new();
    let after = state.next_state(4);
    assert_eq!(after.board, [0, 0, 0, 0, 1, 0, 0, 0, 0]);
    assert_eq!(after.player, 2);
    let again = after.next_state(0);
    assert_eq!(again.board, [2, 0, 0, 0, 1, 0, 0, 0, 0]);
    assert_eq!(again.player, 1);
    // the receiver itself is unchanged: transitions are pure
    assert_eq!(state.board, [0, 0, 0, 0, 0, 0, 0, 0, 0]);
}

#[test]
fn test_won_position_has_no_legal_actions() {
    let mut state = TicTacToeState::new();
    state.player = 2;
    state.board = [1, 1, 1, 0, 0, 0, 2, 2, 0];
    assert_eq!(state.legal_actions(), Vec::<usize>::new());
}

#[test]
fn test_game_result_reward_values() {
    assert_eq!(GameResult::Win.reward_value(), 2);
    assert_eq!(GameResult::Draw.reward_value(), 1);
    assert_eq!(GameResult::Lose.reward_value(), 0);
}
