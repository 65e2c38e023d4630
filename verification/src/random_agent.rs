//! An agent that plays uniformly at random among the legal actions.

use vstd::prelude::*;
use crate::game::GameState;
use crate::rng::rng_below;

verus! {

/// An agent that plays a uniformly random legal action.
#[derive(Debug, Clone)]
pub struct RandomAgent {}

impl RandomAgent {
    /// A uniformly random legal action of `state`, or nothing when the
    /// state is terminal.
    pub fn choose_action<S: GameState>(&self, state: &S, rng: &mut rand::rngs::StdRng) -> (r:
        Option<usize>)
        requires
            state.inv(),
        ensures
            match r {
                Some(a) => state.spec_legal().contains(a),
                None => state.spec_legal().len() == 0,
            },
    {
        let actions = state.legal_actions();
        if actions.len() == 0 {
            None
        } else {
            let i = rng_below(rng, actions.len() as u64);
            let a = actions[i as usize];
            proof {
                assert(state.spec_legal()[i as int] == a);
            }
            Some(a)
        }
    }
}

} // verus!
