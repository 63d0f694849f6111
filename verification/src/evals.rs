use vstd::prelude::*;

use crate::board::Board;
use crate::constants::{ScoreType, INF};
use crate::state::State;

pub mod cell_score;

verus! {

/// A pluggable static positional scorer over a board, from the mover's
/// perspective. Every evaluator pins its result to its own spec function and
/// stays strictly inside the search window.
pub trait EvalTrait {
    /// The mathematical value this evaluator assigns to a state.
    spec fn spec_eval(s: State) -> int;

    /// Score the board for the side about to move.
    fn eval(board: Board) -> (r: ScoreType)
        ensures
            r as int == Self::spec_eval(board.state),
            -(INF as int) < (r as int) && (r as int) < (INF as int),
    ;
}

} // verus!
