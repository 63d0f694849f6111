use vstd::prelude::*;

use std::time::Instant;

use super::{legal_action_on, Agent};
use crate::action::Action;
use crate::bitboard::{
    cell_mask, lemma_cell_hit, lemma_nonzero_has_cell, lemma_top_shr_step, lemma_top_shr_zero,
    top_shr, BitBoard,
};
use crate::board::{apply_spec, status_of, swapped, Board};
use crate::clock::{instant_now, time_exceeded};
use crate::constants::{ScoreType, INF, TOP_BIT};
use crate::enums::BoardStatus;
use crate::evals::cell_score::{eval_spec, lemma_eval_bounds, CellEval};
use crate::evals::EvalTrait;
use crate::state::{legal_bb, State};

verus! {

/// A fixed-depth negamax searcher under the soft time ceiling.
pub struct MiniMaxAgent {
    pub depth: i32,
    pub rest_time: u128,
}

/// Whether the mover may place on cell `i`.
pub open spec fn legal_at(s: State, i: int) -> bool {
    legal_bb(s.player_bit, s.opponent_bit) & cell_mask(i) != 0
}

/// One when the mover must pass, zero otherwise: the tie-breaking component
/// of the termination measure, since a pass keeps the depth budget.
pub open spec fn pass_flag(s: State) -> int {
    if legal_bb(s.player_bit, s.opponent_bit) == 0 {
        1
    } else {
        0
    }
}

pub open spec fn imax(a: int, b: int) -> int {
    if a >= b {
        a
    } else {
        b
    }
}

/// The depth budget an agent was configured with; a negative setting buys no
/// plies.
pub open spec fn depth_nat(d: i32) -> nat {
    if d >= 0 {
        d as nat
    } else {
        0
    }
}

/// The full-width negamax value of a state: the positional score at the
/// horizon or at a finished game; otherwise the best negated child value,
/// where a forced pass swaps sides without spending depth.
pub open spec fn minimax_value(s: State, depth: nat) -> int
    decreases depth, pass_flag(s), 66int,
{
    if status_of(s) == BoardStatus::Finished || depth == 0 {
        eval_spec(s)
    } else if legal_bb(s.player_bit, s.opponent_bit) == 0 {
        -minimax_value(swapped(s), depth)
    } else {
        best_from(s, depth, 0)
    }
}

/// The best negated child value over the cells from `i` up.
pub open spec fn best_from(s: State, depth: nat, i: int) -> int
    decreases depth, pass_flag(s), 65 - i,
{
    if i >= 64 {
        -(INF as int)
    } else {
        let rest = best_from(s, depth, i + 1);
        if depth > 0 && legal_at(s, i) {
            imax(-minimax_value(apply_spec(s, cell_mask(i)), (depth - 1) as nat), rest)
        } else {
            rest
        }
    }
}

/// The best negated child value over the cells before `i`, floored at the
/// sentinel the scan starts from.
pub open spec fn pmax(s: State, depth: nat, i: int) -> int
    decreases i,
{
    if i <= 0 {
        -(INF as int)
    } else {
        let rest = pmax(s, depth, i - 1);
        if depth > 0 && legal_at(s, i - 1) {
            imax(rest, -minimax_value(apply_spec(s, cell_mask(i - 1)), (depth - 1) as nat))
        } else {
            rest
        }
    }
}

/// The root scan: walk the legal cells in generation order, keep the first
/// action strictly better than everything before it; the child search keeps
/// the full depth budget.
pub open spec fn root_scan(s: State, depth: nat, i: int, bc: int, bs: int) -> (int, int)
    decreases 64 - i,
{
    if i < 0 || i >= 64 {
        (bc, bs)
    } else if legal_at(s, i) {
        let sc = -minimax_value(apply_spec(s, cell_mask(i)), depth);
        if sc > bs {
            root_scan(s, depth, i + 1, i, sc)
        } else {
            root_scan(s, depth, i + 1, bc, bs)
        }
    } else {
        root_scan(s, depth, i + 1, bc, bs)
    }
}

/// The cell and score a full-width root scan settles on; the cell is -1 when
/// the mover has no legal placement.
pub open spec fn root_choice(s: State, depth: nat) -> (int, int) {
    root_scan(s, depth, 0, -1, -(INF as int))
}

/// Negamax values stay strictly inside the search window.
pub proof fn lemma_minimax_bounds(s: State, depth: nat)
    ensures
        -1920 <= minimax_value(s, depth) <= 1920,
    decreases depth, pass_flag(s), 66int,
{
    if status_of(s) == BoardStatus::Finished || depth == 0 {
        lemma_eval_bounds(s);
    } else if legal_bb(s.player_bit, s.opponent_bit) == 0 {
        lemma_minimax_bounds(swapped(s), depth);
    } else {
        let bb = legal_bb(s.player_bit, s.opponent_bit);
        lemma_nonzero_has_cell(bb);
        let c = choose|i: int| 0 <= i < 64 && bb & #[trigger] cell_mask(i) != 0;
        assert(legal_at(s, c));
        lemma_best_from_bounds(s, depth, 0);
    }
}

/// A suffix scan either sees no playable cell and keeps the sentinel, or
/// lands strictly inside the window.
pub proof fn lemma_best_from_bounds(s: State, depth: nat, i: int)
    ensures
        -(INF as int) <= best_from(s, depth, i) <= 1920,
        (exists|c: int| i <= c < 64 && #[trigger] legal_at(s, c)) && depth > 0 ==> -1920
            <= best_from(s, depth, i),
        best_from(s, depth, i) == -(INF as int) || -1920 <= best_from(s, depth, i),
    decreases depth, pass_flag(s), 65 - i,
{
    if i < 64 {
        lemma_best_from_bounds(s, depth, i + 1);
        if depth > 0 && legal_at(s, i) {
            lemma_minimax_bounds(apply_spec(s, cell_mask(i)), (depth - 1) as nat);
        }
    }
}

/// The prefix scan and the suffix scan of the same cells meet in the middle.
pub proof fn lemma_prefix_suffix(s: State, depth: nat, i: int)
    requires
        0 <= i <= 64,
    ensures
        imax(pmax(s, depth, i), best_from(s, depth, i)) == best_from(s, depth, 0),
    decreases i,
{
    lemma_best_from_bounds(s, depth, i);
    if i == 0 {
    } else {
        lemma_prefix_suffix(s, depth, i - 1);
        if depth > 0 && legal_at(s, i - 1) {
            lemma_minimax_bounds(apply_spec(s, cell_mask(i - 1)), (depth - 1) as nat);
        }
    }
}

/// The prefix scan never gets worse as it takes in more cells.
pub proof fn lemma_pmax_mono(s: State, depth: nat, i: int, j: int)
    requires
        i <= j,
    ensures
        pmax(s, depth, i) <= pmax(s, depth, j),
    decreases j - i,
{
    if i < j {
        lemma_pmax_mono(s, depth, i, j - 1);
    }
}

impl MiniMaxAgent {
    /// The negamax score of `board` at `depth`, polling the clock at every
    /// entry. When the deadline never fired, the score is exactly the
    /// full-width negamax value; a deadline overrun degrades the subtree to
    /// its static evaluation and raises the flag.
    pub fn minimax_score(
        &self,
        board: &Board,
        depth: i32,
        now: &Instant,
        timed_out: &mut bool,
    ) -> (score: ScoreType)
        requires
            board.wf(),
            depth >= 0,
        ensures
            -1920 <= (score as int) && (score as int) <= 1920,
            *old(timed_out) ==> *final(timed_out),
            !*final(timed_out) ==> score as int == minimax_value(board.state, depth as nat),
        decreases depth, pass_flag(board.state), 66int,
    {
        let s = board.state;
        proof {
            lemma_eval_bounds(s);
        }
        if time_exceeded(now, self.rest_time) {
            *timed_out = true;
            return CellEval::eval(*board);
        }
        if board.status() == BoardStatus::Finished || depth == 0 {
            return CellEval::eval(*board);
        }
        let legal_bitboard: BitBoard = board.legal_actions_bitboard();
        if legal_bitboard == 0 {
            let next_board = board.play_pass();
            proof {
                assert(next_board.state == swapped(s));
                assert(pass_flag(swapped(s)) == 0);
            }
            let sub = self.minimax_score(&next_board, depth, now, timed_out);
            return -sub;
        }
        let ghost dn = depth as nat;
        let mut best_score: ScoreType = -INF;
        let mut mask: BitBoard = TOP_BIT;
        let mut i: u64 = 0;
        proof {
            lemma_top_shr_zero();
        }
        while i < 64
            invariant
                board.wf(),
                depth >= 1,
                dn == depth as nat,
                s == board.state,
                legal_bitboard == legal_bb(s.player_bit, s.opponent_bit),
                i <= 64,
                mask == if i < 64 {
                    top_shr(i)
                } else {
                    0u64
                },
                best_score as int == -(INF as int) || (-1920 <= (best_score as int) && (
                best_score as int) <= 1920),
                best_score as int == -(INF as int) ==> (forall|c: int|
                    0 <= c < i ==> !legal_at(s, c)),
                *old(timed_out) ==> *timed_out,
                !*timed_out ==> best_score as int == pmax(s, dn, i as int),
            decreases 64 - i,
        {
            proof {
                lemma_top_shr_step(i);
            }
            if legal_bitboard & mask != 0 {
                proof {
                    lemma_cell_hit(legal_bitboard, i);
                }
                let action = Action::action_from_bitboard(mask);
                let next_board = board.play_onestep(action);
                proof {
                    assert(next_board.state == apply_spec(s, cell_mask(i as int)));
                }
                let sub = self.minimax_score(&next_board, depth - 1, now, timed_out);
                let score = -sub;
                if score > best_score {
                    best_score = score;
                }
            }
            mask = mask >> 1;
            i = i + 1;
        }
        proof {
            if best_score as int == -(INF as int) {
                lemma_nonzero_has_cell(legal_bitboard);
                let c = choose|c: int| 0 <= c < 64 && legal_bitboard & #[trigger] cell_mask(c)
                    != 0;
                assert(legal_at(s, c));
                assert(false);
            }
            if !*timed_out {
                lemma_prefix_suffix(s, dn, 64);
                lemma_best_from_bounds(s, dn, 64);
            }
        }
        best_score
    }

    /// The full root scan: play every legal action, search it with the whole
    /// depth budget, and keep the first action strictly better than all
    /// before it. An action comes back exactly when one is legal; if the
    /// deadline never fired, it is the full-width negamax decision.
    pub fn decide(&self, board: &Board, now: &Instant, timed_out: &mut bool) -> (r: Option<Action>)
        requires
            board.wf(),
        ensures
            (match r {
                Some(a) => legal_action_on(*board, a),
                None => true,
            }),
            (r is Some) <==> legal_bb(board.state.player_bit, board.state.opponent_bit) != 0,
            *old(timed_out) ==> *final(timed_out),
            !*final(timed_out) ==> (match r {
                None => root_choice(board.state, depth_nat(self.depth)).0 == -1,
                Some(a) => root_choice(board.state, depth_nat(self.depth)).0 >= 0 && a.bitboard
                    == cell_mask(root_choice(board.state, depth_nat(self.depth)).0),
            }),
    {
        let s = board.state;
        let depth: i32 = if self.depth < 0 {
            0
        } else {
            self.depth
        };
        let ghost dn = depth_nat(self.depth);
        let legal_bitboard: BitBoard = board.legal_actions_bitboard();
        let mut best_action: Option<Action> = None;
        let mut best_score: ScoreType = -INF;
        let ghost mut best_cell: int = -1;
        let mut mask: BitBoard = TOP_BIT;
        let mut i: u64 = 0;
        proof {
            lemma_top_shr_zero();
        }
        while i < 64
            invariant
                board.wf(),
                depth >= 0,
                dn == depth as nat,
                s == board.state,
                legal_bitboard == legal_bb(s.player_bit, s.opponent_bit),
                i <= 64,
                mask == if i < 64 {
                    top_shr(i)
                } else {
                    0u64
                },
                best_cell == -1 || 0 <= best_cell < i,
                best_cell == -1 <==> best_action is None,
                best_cell == -1 ==> best_score == -INF && (forall|c: int|
                    0 <= c < i ==> !legal_at(s, c)),
                best_cell >= 0 ==> legal_at(s, best_cell) && best_action == Some(
                    Action { bitboard: cell_mask(best_cell) },
                ),
                -(INF as int) <= (best_score as int) && (best_score as int) < (INF as int),
                *old(timed_out) ==> *timed_out,
                !*timed_out ==> root_scan(s, dn, i as int, best_cell, best_score as int)
                    == root_choice(s, dn),
            decreases 64 - i,
        {
            proof {
                lemma_top_shr_step(i);
            }
            if legal_bitboard & mask != 0 {
                proof {
                    lemma_cell_hit(legal_bitboard, i);
                }
                let action = Action::action_from_bitboard(mask);
                let next_board = board.play_onestep(action);
                proof {
                    assert(next_board.state == apply_spec(s, cell_mask(i as int)));
                }
                let sub = self.minimax_score(&next_board, depth, now, timed_out);
                let score = -sub;
                if score > best_score {
                    best_score = score;
                    best_action = Some(action);
                    proof {
                        best_cell = i as int;
                    }
                }
            }
            mask = mask >> 1;
            i = i + 1;
        }
        proof {
            crate::bitboard::lemma_mask_algebra();
            if best_action is None {
                if legal_bitboard != 0 {
                    lemma_nonzero_has_cell(legal_bitboard);
                    let c = choose|c: int| 0 <= c < 64 && legal_bitboard & #[trigger] cell_mask(c)
                        != 0;
                    assert(legal_at(s, c));
                    assert(false);
                }
            } else {
                assert(legal_at(s, best_cell));
                lemma_cell_hit(legal_bitboard, best_cell as u64);
                if legal_bitboard == 0 {
                    assert(legal_bitboard & cell_mask(best_cell) == 0);
                    assert(false);
                }
            }
        }
        best_action
    }
}

impl Agent for MiniMaxAgent {
    open spec fn completes(&self, board: Board) -> bool {
        legal_bb(board.state.player_bit, board.state.opponent_bit) != 0
    }

    fn next_action_option(&self, board: &Board) -> (r: Option<Action>)
        ensures
            (match r {
                Some(a) => legal_action_on(*board, a),
                None => true,
            }),
            self.completes(*board) ==> r is Some,
    {
        let now = instant_now();
        let mut timed_out = false;
        self.decide(board, &now, &mut timed_out)
    }
}

} // verus!
