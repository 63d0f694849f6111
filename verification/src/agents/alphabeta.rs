use vstd::prelude::*;

use std::time::Instant;

use super::minimax::{
    best_from, depth_nat, imax, legal_at, lemma_best_from_bounds, lemma_minimax_bounds,
    lemma_pmax_mono, lemma_prefix_suffix, minimax_value, pass_flag, pmax, root_choice, root_scan,
};
use super::{legal_action_on, Agent};
use crate::action::Action;
use crate::bitboard::{
    cell_mask, lemma_cell_hit, lemma_nonzero_has_cell, lemma_top_shr_step, lemma_top_shr_zero,
    top_shr, BitBoard,
};
use crate::board::{apply_spec, status_of, swapped, Board};
use crate::clock::{instant_now, time_exceeded};
use crate::constants::{ScoreType, INF, TOP_BIT};
use crate::enums::BoardStatus;
use crate::evals::cell_score::CellEval;
use crate::evals::EvalTrait;
use crate::state::legal_bb;

verus! {

/// A fixed-depth negamax searcher with alpha-beta pruning, under the soft
/// time ceiling. Pruning is lossless: its root decision carries the same
/// contract as the full-width searcher's.
pub struct AlphaBetaAgent {
    pub depth: i32,
    pub rest_time: u128,
}

impl AlphaBetaAgent {
    /// The alpha-beta score of `board` inside the window `(alpha, beta)`,
    /// polling the clock at every entry. Whenever the deadline never fired,
    /// the score relates to the full-width negamax value `v` by the classic
    /// window guarantees: a score at or below `alpha` means `v` is too, a
    /// score at or above `beta` means `v` is too, and a score strictly inside
    /// the window is exactly `v`. Under any timing, the score is a positional
    /// verdict unless the fail-hard window clamped it to one of its own ends.
    pub fn alpha_beta_score(
        &self,
        board: &Board,
        depth: i32,
        alpha: ScoreType,
        beta: ScoreType,
        now: &Instant,
        timed_out: &mut bool,
    ) -> (score: ScoreType)
        requires
            board.wf(),
            depth >= 0,
            -(INF as int) <= (alpha as int),
            alpha < beta,
            (beta as int) <= (INF as int),
        ensures
            -(INF as int) < (score as int) && (score as int) < (INF as int),
            (-1920 <= (score as int) && (score as int) <= 1920) || score == alpha || score
                == beta,
            *old(timed_out) ==> *final(timed_out),
            !*final(timed_out) ==> {
                let v = minimax_value(board.state, depth as nat);
                &&& (score <= alpha ==> v <= alpha as int)
                &&& (score >= beta ==> v >= beta as int)
                &&& (alpha < score && score < beta ==> score as int == v)
            },
        decreases depth, pass_flag(board.state), 66int,
    {
        let ghost s = board.state;
        proof {
            crate::evals::cell_score::lemma_eval_bounds(s);
        }
        if time_exceeded(now, self.rest_time) {
            *timed_out = true;
            return CellEval::eval(*board);
        }
        if board.status() == BoardStatus::Finished || depth == 0 {
            return CellEval::eval(*board);
        }
        let legal_bitboard: BitBoard = board.legal_actions_bitboard();
        if legal_bitboard == 0 {
            let next_board = board.play_pass();
            proof {
                assert(next_board.state == swapped(s));
                assert(pass_flag(swapped(s)) == 0);
            }
            let sub = self.alpha_beta_score(&next_board, depth, -beta, -alpha, now, timed_out);
            return -sub;
        }
        let ghost dn = depth as nat;
        let mut cur_alpha: ScoreType = alpha;
        let mut mask: BitBoard = TOP_BIT;
        let mut i: u64 = 0;
        proof {
            lemma_top_shr_zero();
        }
        while i < 64
            invariant
                board.wf(),
                depth >= 1,
                dn == depth as nat,
                s == board.state,
                legal_bitboard == legal_bb(s.player_bit, s.opponent_bit),
                legal_bitboard != 0,
                status_of(s) != BoardStatus::Finished,
                i <= 64,
                mask == if i < 64 {
                    top_shr(i)
                } else {
                    0u64
                },
                -(INF as int) <= (alpha as int),
                alpha <= cur_alpha,
                cur_alpha < beta,
                (beta as int) <= (INF as int),
                cur_alpha == alpha || (-1920 <= (cur_alpha as int) && (cur_alpha as int)
                    <= 1920),
                cur_alpha as int == -(INF as int) ==> (forall|c: int|
                    0 <= c < i ==> !legal_at(s, c)),
                *old(timed_out) ==> *timed_out,
                !*timed_out ==> cur_alpha as int == imax(alpha as int, pmax(s, dn, i as int)),
            decreases 64 - i,
        {
            proof {
                lemma_top_shr_step(i);
            }
            if legal_bitboard & mask != 0 {
                proof {
                    lemma_cell_hit(legal_bitboard, i);
                }
                let action = Action::action_from_bitboard(mask);
                let next_board = board.play_onestep(action);
                proof {
                    assert(next_board.state == apply_spec(s, cell_mask(i as int)));
                }
                let sub = self.alpha_beta_score(
                    &next_board,
                    depth - 1,
                    -beta,
                    -cur_alpha,
                    now,
                    timed_out,
                );
                let score = -sub;
                let ghost sc = -minimax_value(apply_spec(s, cell_mask(i as int)), (depth - 1) as nat);
                proof {
                    if !*timed_out {
                        lemma_minimax_bounds(apply_spec(s, cell_mask(i as int)), (depth - 1) as nat);
                        // The child's window guarantees pin the true child
                        // score on whichever side of the running window the
                        // returned score lies.
                        if score > cur_alpha {
                            if score < beta {
                                assert(score as int == sc);
                            } else {
                                assert(sc >= beta as int);
                            }
                        } else {
                            assert(sc <= cur_alpha as int);
                        }
                    }
                }
                if score > cur_alpha {
                    cur_alpha = score;
                }
                if cur_alpha >= beta {
                    proof {
                        if !*timed_out {
                            assert(pmax(s, dn, i as int + 1) >= sc);
                            lemma_pmax_mono(s, dn, i as int + 1, 64);
                            lemma_prefix_suffix(s, dn, 64);
                            lemma_best_from_bounds(s, dn, 64);
                            assert(minimax_value(s, dn) == best_from(s, dn, 0));
                            assert(minimax_value(s, dn) >= beta as int);
                        }
                    }
                    return cur_alpha;
                }
            }
            mask = mask >> 1;
            i = i + 1;
        }
        proof {
            if cur_alpha as int == -(INF as int) {
                lemma_nonzero_has_cell(legal_bitboard);
                let c = choose|c: int| 0 <= c < 64 && legal_bitboard & #[trigger] cell_mask(c)
                    != 0;
                assert(legal_at(s, c));
                assert(false);
            }
            if !*timed_out {
                lemma_pmax_mono(s, dn, 0, 64);
                lemma_prefix_suffix(s, dn, 64);
                lemma_best_from_bounds(s, dn, 64);
                assert(minimax_value(s, dn) == best_from(s, dn, 0));
            }
        }
        cur_alpha
    }

    /// The pruned root scan: play every legal action, search it inside the
    /// narrowing window, and keep the first action strictly better than all
    /// before it. An action comes back exactly when one is legal; if the
    /// deadline never fired, the decision is identical to the full-width
    /// negamax decision — pruning loses nothing.
    pub fn decide(&self, board: &Board, now: &Instant, timed_out: &mut bool) -> (r: Option<Action>)
        requires
            board.wf(),
        ensures
            (match r {
                Some(a) => legal_action_on(*board, a),
                None => true,
            }),
            (r is Some) <==> legal_bb(board.state.player_bit, board.state.opponent_bit) != 0,
            *old(timed_out) ==> *final(timed_out),
            !*final(timed_out) ==> (match r {
                None => root_choice(board.state, depth_nat(self.depth)).0 == -1,
                Some(a) => root_choice(board.state, depth_nat(self.depth)).0 >= 0 && a.bitboard
                    == cell_mask(root_choice(board.state, depth_nat(self.depth)).0),
            }),
    {
        let ghost s = board.state;
        let depth: i32 = if self.depth < 0 {
            0
        } else {
            self.depth
        };
        let ghost dn = depth_nat(self.depth);
        let beta: ScoreType = INF;
        let legal_bitboard: BitBoard = board.legal_actions_bitboard();
        let mut best_action: Option<Action> = None;
        let mut alpha: ScoreType = -INF;
        let ghost mut best_cell: int = -1;
        let mut mask: BitBoard = TOP_BIT;
        let mut i: u64 = 0;
        proof {
            lemma_top_shr_zero();
        }
        while i < 64
            invariant
                board.wf(),
                depth >= 0,
                dn == depth as nat,
                s == board.state,
                legal_bitboard == legal_bb(s.player_bit, s.opponent_bit),
                beta == INF,
                i <= 64,
                mask == if i < 64 {
                    top_shr(i)
                } else {
                    0u64
                },
                best_cell == -1 || 0 <= best_cell < i,
                best_cell == -1 <==> best_action is None,
                best_cell == -1 ==> alpha == -INF && (forall|c: int|
                    0 <= c < i ==> !legal_at(s, c)),
                best_cell >= 0 ==> legal_at(s, best_cell) && best_action == Some(
                    Action { bitboard: cell_mask(best_cell) },
                ),
                -(INF as int) <= (alpha as int) && (alpha as int) < (INF as int),
                *old(timed_out) ==> *timed_out,
                !*timed_out ==> root_scan(s, dn, i as int, best_cell, alpha as int) == root_choice(
                    s,
                    dn,
                ),
            decreases 64 - i,
        {
            proof {
                lemma_top_shr_step(i);
            }
            if legal_bitboard & mask != 0 {
                proof {
                    lemma_cell_hit(legal_bitboard, i);
                }
                let action = Action::action_from_bitboard(mask);
                let next_board = board.play_onestep(action);
                proof {
                    assert(next_board.state == apply_spec(s, cell_mask(i as int)));
                }
                let sub = self.alpha_beta_score(&next_board, depth, -beta, -alpha, now, timed_out);
                let score = -sub;
                let ghost sc = -minimax_value(apply_spec(s, cell_mask(i as int)), dn);
                proof {
                    if !*timed_out {
                        lemma_minimax_bounds(apply_spec(s, cell_mask(i as int)), dn);
                        if score > alpha {
                            assert(score as int == sc);
                        } else {
                            assert(sc <= alpha as int);
                        }
                    }
                }
                if score > alpha {
                    alpha = score;
                    best_action = Some(action);
                    proof {
                        best_cell = i as int;
                    }
                }
            }
            mask = mask >> 1;
            i = i + 1;
        }
        proof {
            crate::bitboard::lemma_mask_algebra();
            if best_action is None {
                if legal_bitboard != 0 {
                    lemma_nonzero_has_cell(legal_bitboard);
                    let c = choose|c: int| 0 <= c < 64 && legal_bitboard & #[trigger] cell_mask(c)
                        != 0;
                    assert(legal_at(s, c));
                    assert(false);
                }
            } else {
                assert(legal_at(s, best_cell));
                lemma_cell_hit(legal_bitboard, best_cell as u64);
                if legal_bitboard == 0 {
                    assert(legal_bitboard & cell_mask(best_cell) == 0);
                    assert(false);
                }
            }
        }
        best_action
    }
}

impl Agent for AlphaBetaAgent {
    open spec fn completes(&self, board: Board) -> bool {
        legal_bb(board.state.player_bit, board.state.opponent_bit) != 0
    }

    fn next_action_option(&self, board: &Board) -> (r: Option<Action>)
        ensures
            (match r {
                Some(a) => legal_action_on(*board, a),
                None => true,
            }),
            self.completes(*board) ==> r is Some,
    {
        let now = instant_now();
        let mut timed_out = false;
        self.decide(board, &now, &mut timed_out)
    }
}

} // verus!
