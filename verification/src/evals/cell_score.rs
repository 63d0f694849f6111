use vstd::prelude::*;

use crate::bitboard::{cell_mask, top_shr};
use crate::board::Board;
use crate::constants::{ScoreType, INF, TOP_BIT};
use crate::state::State;

use super::EvalTrait;

verus! {

/// The positional weight of cell `i`: corners weigh most, their neighbours
/// least; the table is symmetric under both board reflections.
pub open spec fn cell_weight(i: int) -> int {
    let r = i / 8;
    let c = i % 8;
    let rr = if r < 4 {
        r
    } else {
        7 - r
    };
    let cc = if c < 4 {
        c
    } else {
        7 - c
    };
    if rr == 0 {
        if cc == 0 {
            30
        } else if cc == 1 {
            -12
        } else if cc == 2 {
            0
        } else {
            -1
        }
    } else if rr == 1 {
        if cc == 0 {
            -12
        } else if cc == 1 {
            -15
        } else {
            -3
        }
    } else if rr == 2 {
        if cc == 0 {
            0
        } else if cc == 1 {
            -3
        } else if cc == 2 {
            0
        } else {
            -1
        }
    } else {
        if cc == 1 {
            -3
        } else {
            -1
        }
    }
}

/// The positional score of the first `n` cells: the mover's disks add their
/// weight, the opponent's disks subtract it.
pub open spec fn eval_upto(p: u64, o: u64, n: int) -> int
    decreases n,
{
    if n <= 0 {
        0
    } else {
        eval_upto(p, o, n - 1) + (if p & cell_mask(n - 1) != 0 {
            cell_weight(n - 1)
        } else {
            0
        }) - (if o & cell_mask(n - 1) != 0 {
            cell_weight(n - 1)
        } else {
            0
        })
    }
}

/// The positional score of a whole state.
pub open spec fn eval_spec(s: State) -> int {
    eval_upto(s.player_bit, s.opponent_bit, 64)
}

/// Every cell weight lies between -15 and 30.
pub proof fn lemma_weight_bounds(i: int)
    ensures
        -15 <= cell_weight(i) <= 30,
{
}

proof fn lemma_eval_upto_bounds(p: u64, o: u64, n: int)
    requires
        0 <= n <= 64,
    ensures
        -30 * n <= eval_upto(p, o, n) <= 30 * n,
    decreases n,
{
    if n > 0 {
        lemma_eval_upto_bounds(p, o, n - 1);
        lemma_weight_bounds(n - 1);
    }
}

/// A positional score never leaves the open search window.
pub proof fn lemma_eval_bounds(s: State)
    ensures
        -1920 <= eval_spec(s) <= 1920,
{
    lemma_eval_upto_bounds(s.player_bit, s.opponent_bit, 64);
}

/// The fixed corner-and-edge-biased evaluator.
pub struct CellEval {}

impl CellEval {
    /// The positional weight of cell `i`.
    fn weight_of(i: u64) -> (r: ScoreType)
        requires
            i < 64,
        ensures
            r as int == cell_weight(i as int),
    {
        let row = i / 8;
        let col = i % 8;
        let rr = if row < 4 {
            row
        } else {
            7 - row
        };
        let cc = if col < 4 {
            col
        } else {
            7 - col
        };
        if rr == 0 {
            if cc == 0 {
                30
            } else if cc == 1 {
                -12
            } else if cc == 2 {
                0
            } else {
                -1
            }
        } else if rr == 1 {
            if cc == 0 {
                -12
            } else if cc == 1 {
                -15
            } else {
                -3
            }
        } else if rr == 2 {
            if cc == 0 {
                0
            } else if cc == 1 {
                -3
            } else if cc == 2 {
                0
            } else {
                -1
            }
        } else {
            if cc == 1 {
                -3
            } else {
                -1
            }
        }
    }
}

impl EvalTrait for CellEval {
    open spec fn spec_eval(s: State) -> int {
        eval_spec(s)
    }

    fn eval(board: Board) -> (r: ScoreType)
        ensures
            r as int == eval_spec(board.state),
            -(INF as int) < (r as int) && (r as int) < (INF as int),
    {
        let p = board.state.player_bit;
        let o = board.state.opponent_bit;
        let mut res_score: ScoreType = 0;
        let mut mask: u64 = TOP_BIT;
        let mut i: u64 = 0;
        proof {
            assert(top_shr(0) == 0x8000000000000000u64) by (bit_vector);
        }
        while i < 64
            invariant
                i <= 64,
                mask == if i < 64 {
                    top_shr(i)
                } else {
                    0u64
                },
                res_score as int == eval_upto(p, o, i as int),
                -30 * i <= res_score as int <= 30 * i,
            decreases 64 - i,
        {
            proof {
                assert(top_shr(i) >> 1 == if i + 1 < 64 {
                    top_shr((i + 1) as u64)
                } else {
                    0u64
                }) by (bit_vector)
                    requires
                        i < 64,
                ;
                lemma_weight_bounds(i as int);
            }
            let w = CellEval::weight_of(i);
            if p & mask != 0 {
                res_score = res_score + w;
            }
            if o & mask != 0 {
                res_score = res_score - w;
            }
            mask = mask >> 1;
            i = i + 1;
        }
        proof {
            lemma_eval_upto_bounds(p, o, 64);
            assert(Self::spec_eval(board.state) == eval_spec(board.state));
        }
        res_score
    }
}

} // verus!
