use vstd::prelude::*;

use crate::action::Action;
use crate::bitboard::single_bit;
use crate::board::Board;
use crate::state::{legal_bb, State};
use crate::turn::FIRST_TURN;



pub mod alphabeta;
pub mod mcts;
pub mod minimax;
pub mod random;

verus! {

/// A placement the mover may actually make on `b`.
pub open spec fn legal_action_on(b: Board, a: Action) -> bool {
    single_bit(a.bitboard) && a.bitboard & legal_bb(b.state.player_bit, b.state.opponent_bit)
        == a.bitboard
}

/// The capability the driver consumes: hand in a board, get back a placement
/// if the strategy found one. Whatever comes back is legal on that board; on
/// the boards for which the strategy promises completion, something always
/// comes back, and the driver resolves an absent result as a forced pass or
/// the end of the game.
pub trait Agent {
    /// The boards on which this strategy promises to hand back an action.
    spec fn completes(&self, board: Board) -> bool;

    fn next_action_option(&self, board: &Board) -> (r: Option<Action>)
        requires
            board.wf(),
        ensures
            (match r {
                Some(a) => legal_action_on(*board, a),
                None => true,
            }),
            self.completes(*board) ==> r is Some,
    ;

    fn next_action(&self, board: &Board) -> (r: Action)
        requires
            board.wf(),
            self.completes(*board),
        ensures
            legal_action_on(*board, r),
    {
        let r = self.next_action_option(board);
        r.unwrap()
    }

    fn get_action_from(&self, state: State) -> (r: Action)
        requires
            state.wf(),
            self.completes((Board { turn: FIRST_TURN, index: 1, state })),
        ensures
            single_bit(r.bitboard),
            r.bitboard & legal_bb(state.player_bit, state.opponent_bit) == r.bitboard,
    {
        let mut tmp_board = Board::init();
        tmp_board.set_state(state);
        self.next_action(&tmp_board)
    }
}

} // verus!
