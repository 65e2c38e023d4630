//! The capability contract a game must provide to the search engine, and
//! the canonical reward domain.

use vstd::prelude::*;

verus! {

/// The canonical reward domain, in half-point units so that every reward is
/// an integer: a win is worth `REWARD_WIN`, a draw `REWARD_DRAW`, a loss
/// `REWARD_LOSS`.  Every reward a game reports must lie in this range.
pub const REWARD_WIN: u64 = 2;

pub const REWARD_DRAW: u64 = 1;

pub const REWARD_LOSS: u64 = 0;

/// A reward stated for one player, restated for the other player.
pub open spec fn spec_flip_reward(r: u64) -> u64
    recommends
        r <= REWARD_WIN,
{
    (REWARD_WIN - r) as u64
}

/// Outcome of a finished game from a fixed player's point of view.
#[derive(Debug)]
pub enum GameResult {
    Win,
    Lose,
    Draw,
}

impl GameResult {
    /// The canonical reward for this outcome, in half-point units.
    pub fn reward_value(&self) -> (r: u64)
        ensures
            r == match self {
                GameResult::Win => REWARD_WIN,
                GameResult::Draw => REWARD_DRAW,
                GameResult::Lose => REWARD_LOSS,
            },
            r <= REWARD_WIN,
    {
        match self {
            GameResult::Win => REWARD_WIN,
            GameResult::Draw => REWARD_DRAW,
            GameResult::Lose => REWARD_LOSS,
        }
    }
}

/// The capability contract a game state must provide to the search engine.
///
/// A state is an immutable snapshot of a deterministic, perfect-information,
/// turn-alternating game.  New states are derived only by applying legal
/// actions; a state is terminal exactly when it has no legal actions.
///
/// Reward convention: `spec_reward` is `None` on states the game considers
/// undecided, and otherwise the canonical half-point reward for the player
/// **about to move** in that state (so a position in which the opponent has
/// just completed a win is worth `REWARD_LOSS`).
pub trait GameState: Sized {
    /// Validity of a state's representation.  Everything below assumes it.
    spec fn inv(&self) -> bool;

    /// The actions that may be applied to this state, in a fixed order and
    /// without repetition.  Empty exactly when the state is terminal.
    spec fn spec_legal(&self) -> Seq<usize>;

    /// The state reached by applying one action.
    spec fn spec_next(&self, action: usize) -> Self;

    /// The decided outcome, if any, for the player about to move.
    spec fn spec_reward(&self) -> Option<u64>;

    /// A strict upper bound on how many more actions can ever be applied
    /// from this state.  It shrinks with every transition, which bounds the
    /// depth of the game tree and the length of every rollout.
    spec fn horizon(&self) -> nat;

    /// The laws every game must obey: legal actions are distinct, rewards
    /// stay in the canonical domain, and applying a legal action preserves
    /// validity while consuming horizon.
    proof fn laws(&self, action: usize)
        requires
            self.inv(),
        ensures
            self.spec_legal().no_duplicates(),
            self.spec_reward() matches Some(v) ==> v <= REWARD_WIN,
            self.spec_legal().contains(action) ==> self.spec_next(action).inv(),
            self.spec_legal().contains(action) ==> self.spec_next(action).horizon()
                < self.horizon(),
    ;

    /// A fresh starting state.
    fn new() -> (r: Self)
        ensures
            r.inv(),
    ;

    /// An identical copy of this state.
    fn duplicate(&self) -> (r: Self)
        requires
            self.inv(),
        ensures
            r == *self,
    ;

    /// The decided outcome, if any, for the player about to move.
    fn reward(&self) -> (r: Option<u64>)
        requires
            self.inv(),
        ensures
            r == self.spec_reward(),
    ;

    /// The legal actions of this state.
    fn legal_actions(&self) -> (r: Vec<usize>)
        requires
            self.inv(),
        ensures
            r@ == self.spec_legal(),
    ;

    /// The state reached by applying one legal action.  Pure: the receiver
    /// is not changed.
    fn next_state(&self, action: usize) -> (r: Self)
        requires
            self.inv(),
            self.spec_legal().contains(action),
        ensures
            r == self.spec_next(action),
    ;
}

} // verus!
