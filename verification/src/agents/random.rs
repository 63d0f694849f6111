use vstd::prelude::*;

use rand::Rng;

use super::{legal_action_on, Agent};
use crate::action::Action;
use crate::bitboard::lemma_pop_zero_iff;
use crate::board::Board;
use crate::state::legal_bb;

verus! {

/// Relies on rand's ThreadRng being an opaque generator state; the verifier
/// sees nothing inside it.
#[verifier::external_type_specification]
#[verifier::external_body]
pub struct ExThreadRng(rand::rngs::ThreadRng);

/// Relies on rand's thread_rng: a lazily seeded generator for this thread.
/// Nothing is assumed of it.
#[verifier::external_body]
fn rng_new() -> rand::rngs::ThreadRng {
    rand::thread_rng()
}

/// Relies on rand's Rng::gen_range over `0..n`: a uniformly drawn value below
/// `n`. It panics on an empty range, which the precondition rules out; of the
/// value itself only the range is assumed.
#[verifier::external_body]
fn rand_below(rng: &mut rand::rngs::ThreadRng, n: usize) -> (r: usize)
    requires
        n > 0,
    ensures
        r < n,
{
    rng.gen_range(0..n)
}

/// Plays a legal action drawn at random.
pub struct RandomAgent {}

impl Agent for RandomAgent {
    open spec fn completes(&self, board: Board) -> bool {
        legal_bb(board.state.player_bit, board.state.opponent_bit) != 0
    }

    fn next_action_option(&self, board: &Board) -> (r: Option<Action>)
        ensures
            (match r {
                Some(a) => legal_action_on(*board, a),
                None => true,
            }),
            self.completes(*board) ==> r is Some,
    {
        let actions = board.legal_actions();
        proof {
            lemma_pop_zero_iff(legal_bb(board.state.player_bit, board.state.opponent_bit));
        }
        if actions.len() == 0 {
            None
        } else {
            let mut rng = rng_new();
            let idx = rand_below(&mut rng, actions.len());
            Some(actions[idx])
        }
    }
}

} // verus!
