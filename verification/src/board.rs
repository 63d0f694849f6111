use vstd::prelude::*;

use crate::action::Action;
use crate::bitboard::{
    bit_at, bit_set, lemma_mask_algebra, lemma_pop_or_disjoint, lemma_pop_single,
    lemma_pop_xor_subset, one_bit, pop, single_bit, BitBoard, BitBoardTrait,
};
use crate::constants::ScoreType;
use crate::enums::{BoardStatus, WinningStatus};
use crate::state::{
    action_bits, actions_upto, legal_bb, legal_part_shl, legal_part_shr, lemma_legal_bb_blank,
    run_acc_shl, run_acc_shr, State, WATCH_ALL_SIDE, WATCH_HORIZONTAL, WATCH_VERTICAL,
};
use crate::turn::{spec_reverse, Turn, TurnTrait, FIRST_TURN};

verus! {

/// A position under play: whose turn it is, the ply index, and the disks,
/// stored from the mover's perspective.
#[derive(Debug, Clone, Copy)]
pub struct Board {
    pub turn: Turn,
    pub index: i32,
    pub state: State,
}

/// The ply index after one more ply; it stops at the machine limit.
pub open spec fn next_ply_index(i: int) -> int {
    if i < 0x7fffffff {
        i + 1
    } else {
        0x7fffffff
    }
}

/// One shift step along direction `k`, masked so that no disk wraps around a
/// board edge.
pub open spec fn transfer_spec(bit: u64, k: int) -> u64 {
    if k == 0 {
        (bit << 8) & 0xffffffffffffff00
    } else if k == 1 {
        (bit << 7) & 0x7f7f7f7f7f7f7f00
    } else if k == 2 {
        (bit >> 1) & 0x7f7f7f7f7f7f7f7f
    } else if k == 3 {
        (bit >> 9) & 0x007f7f7f7f7f7f7f
    } else if k == 4 {
        (bit >> 8) & 0x00ffffffffffffff
    } else if k == 5 {
        (bit >> 7) & 0x00fefefefefefefe
    } else if k == 6 {
        (bit << 1) & 0xfefefefefefefefe
    } else {
        (bit << 9) & 0xfefefefefefefe00
    }
}

/// How far direction `k` moves a bit position.
pub open spec fn delta(k: int) -> int {
    if k == 0 {
        8
    } else if k == 1 {
        7
    } else if k == 2 {
        -1
    } else if k == 3 {
        -9
    } else if k == 4 {
        -8
    } else if k == 5 {
        -7
    } else if k == 6 {
        1
    } else {
        9
    }
}

/// Whether direction `k` may deliver a disk onto bit position `t`: the
/// transfer masks cut every landing cell that a shift would have wrapped
/// around a board edge.
pub open spec fn landing_ok(t: int, k: int) -> bool {
    if k == 0 {
        t >= 8
    } else if k == 1 {
        t >= 8 && t % 8 != 7
    } else if k == 2 {
        t % 8 != 7
    } else if k == 3 {
        t < 56 && t % 8 != 7
    } else if k == 4 {
        t < 56
    } else if k == 5 {
        t < 56 && t % 8 != 0
    } else if k == 6 {
        t % 8 != 0
    } else {
        t >= 8 && t % 8 != 0
    }
}

/// Whether one step along direction `k` from bit position `u` stays on the
/// board.
pub open spec fn step_valid(u: int, k: int) -> bool {
    let t = u + delta(k);
    0 <= u < 64 && 0 <= t < 64 && landing_ok(t, k)
}

/// The bit position reached after `m` steps along direction `k` from `j`.
pub open spec fn pos_at(j: int, k: int, m: int) -> int
    decreases m,
{
    if m <= 0 {
        j
    } else {
        pos_at(j, k, m - 1) + delta(k)
    }
}

/// The first `n` cells along direction `k` from `j` are reached by valid
/// steps and all carry opponent disks.
pub open spec fn opp_run(o: u64, j: int, k: int, n: int) -> bool
    decreases n,
{
    if n <= 0 {
        true
    } else {
        opp_run(o, j, k, n - 1) && step_valid(pos_at(j, k, n - 1), k) && bit_at(
            o,
            pos_at(j, k, n),
        )
    }
}

/// Beyond the `n`-cell run, one more valid step lands on a mover's disk.
pub open spec fn run_bounded(p: u64, j: int, k: int, n: int) -> bool {
    step_valid(pos_at(j, k, n), k) && bit_at(p, pos_at(j, k, n + 1))
}

/// The mask of the cells `1 ..= n` steps along direction `k` from `j`.
pub open spec fn run_mask(j: int, k: int, n: int) -> u64
    decreases n,
{
    if n <= 0 {
        0u64
    } else {
        run_mask(j, k, n - 1) | one_bit(pos_at(j, k, n) as u64)
    }
}

/// The flip walk along direction `k`: march over opponent disks, and commit
/// the gathered run only when the walk ends on a mover's disk.
pub open spec fn dir_flips_rec(p: u64, o: u64, mask: u64, acc: u64, k: int, fuel: int) -> u64
    decreases fuel,
{
    if fuel > 0 && mask != 0 && mask & o != 0 {
        dir_flips_rec(p, o, transfer_spec(mask, k), acc | mask, k, fuel - 1)
    } else if mask & p != 0 {
        acc
    } else {
        0u64
    }
}

/// The disks that placing `a` flips along direction `k`.
pub open spec fn dir_flips(p: u64, o: u64, a: u64, k: int) -> u64 {
    dir_flips_rec(p, o, transfer_spec(a, k), 0u64, k, 8)
}

/// The disks that placing `a` flips along the first `n` directions.
pub open spec fn flips_upto(p: u64, o: u64, a: u64, n: int) -> u64
    decreases n,
{
    if n <= 0 {
        0u64
    } else {
        flips_upto(p, o, a, n - 1) | dir_flips(p, o, a, n - 1)
    }
}

/// All disks that placing `a` flips.
pub open spec fn flips(p: u64, o: u64, a: u64) -> u64 {
    flips_upto(p, o, a, 8)
}

/// The state after the mover places `a`: exactly what `Board::play_onestep`
/// produces.
pub open spec fn apply_spec(s: State, a: u64) -> State {
    State {
        player_bit: s.opponent_bit ^ flips(s.player_bit, s.opponent_bit, a),
        opponent_bit: s.player_bit ^ (a | flips(s.player_bit, s.opponent_bit, a)),
    }
}

/// The state after the mover passes.
pub open spec fn swapped(s: State) -> State {
    State { player_bit: s.opponent_bit, opponent_bit: s.player_bit }
}

/// The whole board after the mover places `a`: flipped disks, swapped roles,
/// and the next ply index.
pub open spec fn played_board(b: Board, a: u64) -> Board {
    Board {
        turn: spec_reverse(b.turn),
        index: next_ply_index(b.index as int) as i32,
        state: apply_spec(b.state, a),
    }
}

/// What the side about to move can do on state `s`.
pub open spec fn status_of(s: State) -> BoardStatus {
    let mover = legal_bb(s.player_bit, s.opponent_bit);
    let waiter = legal_bb(s.opponent_bit, s.player_bit);
    if mover == 0 && waiter != 0 {
        BoardStatus::Pass
    } else if mover == 0 && waiter == 0 {
        BoardStatus::Finished
    } else {
        BoardStatus::Usual
    }
}

/// The outcome of state `s`, seen from the side about to move.
pub open spec fn winning_of(s: State) -> WinningStatus {
    if status_of(s) == BoardStatus::Finished {
        if pop(s.player_bit) > pop(s.opponent_bit) {
            WinningStatus::Win
        } else if pop(s.player_bit) < pop(s.opponent_bit) {
            WinningStatus::Lose
        } else {
            WinningStatus::Draw
        }
    } else {
        WinningStatus::NotFinished
    }
}

/// A masked shift moves a single bit to its landing position, or drops it.
proof fn lemma_shl_single(mm: u64, s: u64, j: u64, t: u64)
    by (bit_vector)
    requires
        j < 64,
        s < 64,
        t == j + s,
    ensures
        (one_bit(j) << s) & mm == if t < 64 && bit_set(mm, t) {
            one_bit(t)
        } else {
            0u64
        },
{
}

proof fn lemma_shr_single(mm: u64, s: u64, j: u64, t: u64)
    by (bit_vector)
    requires
        j < 64,
        s < 64,
        if j >= s {
            t + s == j
        } else {
            t == 0
        },
    ensures
        (one_bit(j) >> s) & mm == if j >= s && bit_set(mm, t) {
            one_bit(t)
        } else {
            0u64
        },
{
}

/// What each transfer mask keeps, one landing position at a time.
proof fn lemma_transfer_mask_bits()
    by (bit_vector)
    ensures
        forall|t: u64| t < 64 ==> (#[trigger] bit_set(0xffffffffffffff00u64, t) <==> t >= 8),
        forall|t: u64|
            t < 64 ==> (#[trigger] bit_set(0x7f7f7f7f7f7f7f00u64, t) <==> t >= 8 && t % 8 != 7),
        forall|t: u64| t < 64 ==> (#[trigger] bit_set(0x7f7f7f7f7f7f7f7fu64, t) <==> t % 8 != 7),
        forall|t: u64|
            t < 64 ==> (#[trigger] bit_set(0x007f7f7f7f7f7f7fu64, t) <==> t < 56 && t % 8 != 7),
        forall|t: u64| t < 64 ==> (#[trigger] bit_set(0x00ffffffffffffffu64, t) <==> t < 56),
        forall|t: u64|
            t < 64 ==> (#[trigger] bit_set(0x00fefefefefefefeu64, t) <==> t < 56 && t % 8 != 0),
        forall|t: u64| t < 64 ==> (#[trigger] bit_set(0xfefefefefefefefeu64, t) <==> t % 8 != 0),
        forall|t: u64|
            t < 64 ==> (#[trigger] bit_set(0xfefefefefefefe00u64, t) <==> t >= 8 && t % 8 != 0),
{
}

/// A transfer moves a single bit one valid step, and drops a bit whose step
/// would leave the board or wrap an edge.
proof fn lemma_transfer_single(j: u64, k: int)
    requires
        j < 64,
        0 <= k < 8,
    ensures
        transfer_spec(one_bit(j), k) == if step_valid(j as int, k) {
            one_bit((j as int + delta(k)) as u64)
        } else {
            0u64
        },
{
    lemma_transfer_mask_bits();
    if k == 0 {
        let t = (j + 8) as u64;
        lemma_shl_single(0xffffffffffffff00u64, 8, j, t);
    } else if k == 1 {
        let t = (j + 7) as u64;
        lemma_shl_single(0x7f7f7f7f7f7f7f00u64, 7, j, t);
    } else if k == 2 {
        let t: u64 = if j >= 1 {
            (j - 1) as u64
        } else {
            0u64
        };
        lemma_shr_single(0x7f7f7f7f7f7f7f7fu64, 1, j, t);
    } else if k == 3 {
        let t: u64 = if j >= 9 {
            (j - 9) as u64
        } else {
            0u64
        };
        lemma_shr_single(0x007f7f7f7f7f7f7fu64, 9, j, t);
    } else if k == 4 {
        let t: u64 = if j >= 8 {
            (j - 8) as u64
        } else {
            0u64
        };
        lemma_shr_single(0x00ffffffffffffffu64, 8, j, t);
    } else if k == 5 {
        let t: u64 = if j >= 7 {
            (j - 7) as u64
        } else {
            0u64
        };
        lemma_shr_single(0x00fefefefefefefeu64, 7, j, t);
    } else if k == 6 {
        let t = (j + 1) as u64;
        lemma_shl_single(0xfefefefefefefefeu64, 1, j, t);
    } else {
        let t = (j + 9) as u64;
        lemma_shl_single(0xfefefefefefefe00u64, 9, j, t);
    }
}

/// A gathered run lies within the opponent's disks.
proof fn lemma_run_mask_subset(o: u64, j: int, k: int, n: int)
    requires
        opp_run(o, j, k, n),
        0 <= n,
    ensures
        run_mask(j, k, n) & o == run_mask(j, k, n),
    decreases n,
{
    lemma_mask_algebra();
    if n > 0 {
        lemma_run_mask_subset(o, j, k, n - 1);
        let u = pos_at(j, k, n) as u64;
        assert(one_bit(u) & o == one_bit(u));
        assert((run_mask(j, k, n - 1) | one_bit(u)) & o == (run_mask(j, k, n - 1) | one_bit(u)));
    } else {
        assert(forall|m: u64| (0u64 & m) == 0) by (bit_vector);
    }
}

/// Soundness of the flip walk: whatever it commits is a run of opponent
/// disks, reached step by step from the placed cell, bounded at the far end
/// by a mover's disk.
proof fn lemma_walk_sound(p: u64, o: u64, j: int, k: int, t: int, mask: u64, acc: u64)
    requires
        p & o == 0,
        0 <= k < 8,
        0 <= j < 64,
        0 <= t <= 8,
        acc == run_mask(j, k, t),
        opp_run(o, j, k, t),
        mask == if step_valid(pos_at(j, k, t), k) {
            one_bit(pos_at(j, k, t + 1) as u64)
        } else {
            0u64
        },
    ensures
        dir_flips_rec(p, o, mask, acc, k, 8 - t) == 0 || exists|n: int|
            1 <= n <= 8 && opp_run(o, j, k, n) && run_bounded(p, j, k, n) && dir_flips_rec(
                p,
                o,
                mask,
                acc,
                k,
                8 - t,
            ) == run_mask(j, k, n),
    decreases 8 - t,
{
    lemma_mask_algebra();
    let fuel = 8 - t;
    let r = dir_flips_rec(p, o, mask, acc, k, fuel);
    if mask == 0 {
        assert(0u64 & p == 0) by (bit_vector);
        assert(r == 0);
    } else {
        let u = pos_at(j, k, t);
        let v = pos_at(j, k, t + 1);
        assert(step_valid(u, k) && mask == one_bit(v as u64));
        if fuel > 0 && mask & o != 0 {
            assert(bit_set(o, v as u64));
            assert(opp_run(o, j, k, t + 1));
            assert(acc | mask == run_mask(j, k, t + 1));
            lemma_transfer_single(v as u64, k);
            assert(pos_at(j, k, t + 2) == v + delta(k));
            lemma_walk_sound(p, o, j, k, t + 1, transfer_spec(mask, k), acc | mask);
        } else {
            if mask & p != 0 {
                assert(bit_set(p, v as u64));
                assert(run_bounded(p, j, k, t));
                assert(r == acc);
                if t == 0 {
                    assert(r == 0);
                } else {
                    assert(1 <= t <= 8 && opp_run(o, j, k, t) && run_bounded(p, j, k, t) && r
                        == run_mask(j, k, t));
                }
            } else {
                assert(r == 0);
            }
        }
    }
}

/// Every committed flip run is bounded on one end by the newly placed disk
/// and on the other by a pre-existing mover disk, with only opponent disks
/// strictly between: the walk along direction `k` either flips nothing or
/// flips exactly the cells `1 ..= n` steps out, all opponent-owned, with the
/// mover's own disk `n + 1` steps out.
pub proof fn lemma_flip_run_bounded(p: u64, o: u64, j: u64, k: int)
    requires
        p & o == 0,
        j < 64,
        0 <= k < 8,
    ensures
        dir_flips(p, o, one_bit(j), k) == 0 || exists|n: int|
            1 <= n <= 8 && opp_run(o, j as int, k, n) && run_bounded(p, j as int, k, n)
                && dir_flips(p, o, one_bit(j), k) == run_mask(j as int, k, n),
{
    lemma_transfer_single(j, k);
    lemma_walk_sound(p, o, j as int, k, 0, transfer_spec(one_bit(j), k), 0u64);
}

/// Everything the placement flips belongs to the opponent.
pub proof fn lemma_flips_subset(p: u64, o: u64, a: u64)
    requires
        p & o == 0,
        single_bit(a),
    ensures
        flips(p, o, a) & o == flips(p, o, a),
    decreases 8int,
{
    lemma_mask_algebra();
    let j = choose|j: u64| j < 64 && a == one_bit(j);
    assert forall|k: int| 0 <= k < 8 implies (#[trigger] dir_flips(p, o, a, k)) & o == dir_flips(
        p,
        o,
        a,
        k,
    ) by {
        lemma_flip_run_bounded(p, o, j, k);
        if dir_flips(p, o, a, k) == 0 {
            assert(0u64 & o == 0) by (bit_vector);
        } else {
            let n = choose|n: int|
                1 <= n <= 8 && opp_run(o, j as int, k, n) && run_bounded(p, j as int, k, n)
                    && dir_flips(p, o, one_bit(j), k) == run_mask(j as int, k, n);
            lemma_run_mask_subset(o, j as int, k, n);
        }
    }
    assert forall|m: int| 0 <= m <= 8 implies (#[trigger] flips_upto(p, o, a, m)) & o == flips_upto(
        p,
        o,
        a,
        m,
    ) by {
        lemma_flips_upto_subset(p, o, a, m);
    }
}

proof fn lemma_flips_upto_subset(p: u64, o: u64, a: u64, m: int)
    requires
        0 <= m <= 8,
        forall|k: int|
            0 <= k < 8 ==> (#[trigger] dir_flips(p, o, a, k)) & o == dir_flips(p, o, a, k),
    ensures
        flips_upto(p, o, a, m) & o == flips_upto(p, o, a, m),
    decreases m,
{
    lemma_mask_algebra();
    if m > 0 {
        lemma_flips_upto_subset(p, o, a, m - 1);
    } else {
        assert(0u64 & o == 0) by (bit_vector);
    }
}

impl Board {
    /// A board is well formed when its disk masks are disjoint.
    pub open spec fn wf(self) -> bool {
        self.state.wf()
    }

    /// The starting board: initial disks, black to move, ply 1.
    pub fn init() -> (r: Board)
        ensures
            r.turn == FIRST_TURN,
            r.index == 1,
            r.state.player_bit == crate::constants::FIRST_BLACK_BIT,
            r.state.opponent_bit == crate::constants::FIRST_WHITE_BIT,
            r.wf(),
    {
        Board { turn: FIRST_TURN, index: 1, state: State::init() }
    }

    /// Replace the disks, keeping turn and ply index.
    pub fn set_state(&mut self, state: State)
        ensures
            final(self).state == state,
            final(self).turn == old(self).turn,
            final(self).index == old(self).index,
    {
        self.state = state;
    }

    /// One masked shift step along direction `k`.
    fn transfer(bit: BitBoard, k: i32) -> (r: BitBoard)
        requires
            0 <= k < 8,
        ensures
            r == transfer_spec(bit, k as int),
    {
        if k == 0 {
            (bit << 8u64) & 0xffffffffffffff00
        } else if k == 1 {
            (bit << 7u64) & 0x7f7f7f7f7f7f7f00
        } else if k == 2 {
            (bit >> 1u64) & 0x7f7f7f7f7f7f7f7f
        } else if k == 3 {
            (bit >> 9u64) & 0x007f7f7f7f7f7f7f
        } else if k == 4 {
            (bit >> 8u64) & 0x00ffffffffffffff
        } else if k == 5 {
            (bit >> 7u64) & 0x00fefefefefefefe
        } else if k == 6 {
            (bit << 1u64) & 0xfefefefefefefefe
        } else {
            (bit << 9u64) & 0xfefefefefefefe00
        }
    }

    /// Classify the mover's situation: a legal placement exists, only the
    /// opponent could place, or neither side can.
    pub fn status(&self) -> (r: BoardStatus)
        ensures
            r == status_of(self.state),
            r == BoardStatus::Finished <==> (legal_bb(self.state.player_bit, self.state.opponent_bit)
                == 0 && legal_bb(self.state.opponent_bit, self.state.player_bit) == 0),
            r == BoardStatus::Pass <==> (legal_bb(self.state.player_bit, self.state.opponent_bit)
                == 0 && legal_bb(self.state.opponent_bit, self.state.player_bit) != 0),
    {
        let tmp_state = State {
            player_bit: self.state.opponent_bit,
            opponent_bit: self.state.player_bit,
        };

        let player_legal_actions_board: BitBoard = self.state.legal_actions_bitboard();
        let opponent_legal_actions_board: BitBoard = tmp_state.legal_actions_bitboard();

        if player_legal_actions_board == 0 && opponent_legal_actions_board != 0 {
            BoardStatus::Pass
        } else if player_legal_actions_board == 0 && opponent_legal_actions_board == 0 {
            BoardStatus::Finished
        } else {
            BoardStatus::Usual
        }
    }

    /// Apply a legal placement: flip every bounded run, hand the move to the
    /// other side, and advance the ply index. Total disks grow by exactly
    /// one; flips change ownership, not count.
    pub fn play_onestep(self, action: Action) -> (r: Board)
        requires
            self.wf(),
            single_bit(action.bitboard),
            action.bitboard & legal_bb(self.state.player_bit, self.state.opponent_bit)
                == action.bitboard,
        ensures
            r.state.player_bit == self.state.opponent_bit ^ flips(
                self.state.player_bit,
                self.state.opponent_bit,
                action.bitboard,
            ),
            r.state.opponent_bit == self.state.player_bit ^ (action.bitboard | flips(
                self.state.player_bit,
                self.state.opponent_bit,
                action.bitboard,
            )),
            r.turn == spec_reverse(self.turn),
            r.index == next_ply_index(self.index as int),
            r.wf(),
            pop(r.state.player_bit) + pop(r.state.opponent_bit) == pop(self.state.player_bit)
                + pop(self.state.opponent_bit) + 1,
            flips(self.state.player_bit, self.state.opponent_bit, action.bitboard) != 0,
            r == played_board(self, action.bitboard),
    {
        let p = self.state.player_bit;
        let o = self.state.opponent_bit;
        let a = action.bitboard;
        let mut reverse_board: BitBoard = 0;
        let mut k: i32 = 0;
        proof {
            lemma_mask_algebra();
        }
        while k < 8
            invariant
                0 <= k <= 8,
                reverse_board == flips_upto(p, o, a, k as int),
            decreases 8 - k,
        {
            let mut tmp_reverse_board: BitBoard = 0;
            let mut mask: BitBoard = Board::transfer(a, k);
            let mut steps: u64 = 0;
            while steps < 8 && mask != 0 && (mask & o) != 0
                invariant
                    steps <= 8,
                    0 <= k < 8,
                    dir_flips_rec(p, o, mask, tmp_reverse_board, k as int, 8 - steps) == dir_flips(
                        p,
                        o,
                        a,
                        k as int,
                    ),
                decreases 8 - steps,
            {
                tmp_reverse_board = tmp_reverse_board | mask;
                mask = Board::transfer(mask, k);
                steps = steps + 1;
            }
            proof {
                lemma_mask_algebra();
            }
            if mask & p != 0 {
                reverse_board = reverse_board | tmp_reverse_board;
            }
            k = k + 1;
        }

        let res_board = Board {
            state: State { player_bit: o ^ reverse_board, opponent_bit: p ^ (a | reverse_board) },
            index: if self.index < i32::MAX {
                self.index + 1
            } else {
                i32::MAX
            },
            turn: self.turn.reverse(),
        };
        proof {
            let f = flips(p, o, a);
            lemma_mask_algebra();
            lemma_legal_bb_blank(p, o);
            lemma_flips_subset(p, o, a);
            // The placed disk sits on a blank cell; the flips sit on opponent
            // cells; so placed disk, flips, and the mover's disks are three
            // disjoint masks.
            assert(a & (p | o) == 0);
            assert(a & p == 0 && a & o == 0);
            assert(f & p == 0);
            assert(f & a == 0 && a & f == 0);
            let j = choose|j: u64| j < 64 && a == one_bit(j);
            lemma_pop_single(j);
            assert(o & f == f && (a | f) & p == 0) by (bit_vector)
                requires
                    f & o == f,
                    a & p == 0,
                    f & p == 0,
            ;
            lemma_pop_xor_subset(o, f);
            assert((a | f) & p == 0 ==> p & (a | f) == 0 && p ^ (a | f) == p | (a | f))
                by (bit_vector);
            lemma_pop_or_disjoint(p, a | f);
            lemma_pop_or_disjoint(a, f);
            assert((o ^ f) & (p ^ (a | f)) == 0) by (bit_vector)
                requires
                    p & o == 0,
                    a & p == 0,
                    a & o == 0,
                    f & o == f,
            ;
            assert(bit_set(legal_bb(p, o), j));
            lemma_legal_placement_flips(p, o, j);
        }
        res_board
    }

    /// Hand the move to the other side without placing a disk. Only allowed
    /// when the mover has no placement and the opponent has one — so the new
    /// mover can always place, and passes never chain.
    pub fn play_pass(self) -> (r: Board)
        requires
            status_of(self.state) == BoardStatus::Pass,
        ensures
            r.state.player_bit == self.state.opponent_bit,
            r.state.opponent_bit == self.state.player_bit,
            status_of(r.state) == BoardStatus::Usual,
            r.turn == spec_reverse(self.turn),
            r.index == next_ply_index(self.index as int),
            pop(r.state.player_bit) + pop(r.state.opponent_bit) == pop(self.state.player_bit)
                + pop(self.state.opponent_bit),
            self.wf() ==> r.wf(),
    {
        proof {
            let p = self.state.player_bit;
            let o = self.state.opponent_bit;
            if o & p != 0 {
                assert(p & o != 0) by (bit_vector)
                    requires
                        o & p != 0,
                ;
            }
        }
        Board {
            state: State {
                player_bit: self.state.opponent_bit,
                opponent_bit: self.state.player_bit,
            },
            index: if self.index < i32::MAX {
                self.index + 1
            } else {
                i32::MAX
            },
            turn: self.turn.reverse(),
        }
    }

    /// Black's score, white's score, and the winner's name.
    pub fn result(&self) -> (r: (ScoreType, ScoreType, &'static str))
        ensures
            r.0 == pop(
                if self.turn == Turn::Black {
                    self.state.player_bit
                } else {
                    self.state.opponent_bit
                },
            ),
            r.1 == pop(
                if self.turn == Turn::White {
                    self.state.player_bit
                } else {
                    self.state.opponent_bit
                },
            ),
            r.0 > r.1 ==> r.2@ == "Black"@,
            r.0 < r.1 ==> r.2@ == "White"@,
            r.0 == r.1 ==> r.2@ == "Draw"@,
    {
        let black_score: ScoreType;
        let white_score: ScoreType;

        if self.turn == Turn::Black {
            black_score = self.state.player_bit.count();
            white_score = self.state.opponent_bit.count();
        } else {
            white_score = self.state.player_bit.count();
            black_score = self.state.opponent_bit.count();
        }

        let winner: &'static str = if black_score > white_score {
            "Black"
        } else if black_score < white_score {
            "White"
        } else {
            "Draw"
        };

        (black_score, white_score, winner)
    }

    /// The outcome from the mover's perspective: meaningful only once the
    /// game is finished.
    pub fn winning_status(&self) -> (r: WinningStatus)
        ensures
            r == winning_of(self.state),
    {
        if self.status() == BoardStatus::Finished {
            let player_cnt = self.state.player_bit.count();
            let opponent_cnt = self.state.opponent_bit.count();
            if player_cnt > opponent_cnt {
                WinningStatus::Win
            } else if player_cnt < opponent_cnt {
                WinningStatus::Lose
            } else {
                WinningStatus::Draw
            }
        } else {
            WinningStatus::NotFinished
        }
    }

    /// Every cell on which the mover may place a disk.
    pub fn legal_actions_bitboard(&self) -> (r: BitBoard)
        ensures
            r == legal_bb(self.state.player_bit, self.state.opponent_bit),
    {
        self.state.legal_actions_bitboard()
    }

    /// The legal placements, one action per flagged cell, in cell order.
    pub fn legal_actions(&self) -> (r: Vec<Action>)
        ensures
            action_bits(r@) =~= actions_upto(
                legal_bb(self.state.player_bit, self.state.opponent_bit),
                64,
            ),
            r@.len() == pop(legal_bb(self.state.player_bit, self.state.opponent_bit)),
            forall|q: int|
                0 <= q < r@.len() ==> single_bit(#[trigger] r@[q].bitboard) && r@[q].bitboard
                    & legal_bb(self.state.player_bit, self.state.opponent_bit) == r@[q].bitboard,
    {
        self.state.legal_actions()
    }
}

/// The watch mask the kernel applies along direction `k`.
pub open spec fn watch_of(k: int) -> u64 {
    if k == 0 || k == 4 {
        WATCH_VERTICAL
    } else if k == 2 || k == 6 {
        WATCH_HORIZONTAL
    } else {
        WATCH_ALL_SIDE
    }
}

/// A run witness inside the kernel's accumulator: `m + 1` watched cells from
/// `t` on, each a step `d` apart, with a mover's disk one step beyond.
pub open spec fn wchain(p: u64, w: u64, d: int, t: int, m: int) -> bool
    decreases m,
{
    if m < 0 {
        false
    } else if m == 0 {
        bit_at(w, t) && bit_at(p, t + d)
    } else {
        bit_at(w, t) && wchain(p, w, d, t + d, m - 1)
    }
}

/// Some witness of length at most `k + 1` starts at `t`.
pub open spec fn has_chain(p: u64, w: u64, d: int, t: int, k: int) -> bool
    decreases k,
{
    wchain(p, w, d, t, k) || (k > 0 && has_chain(p, w, d, t, k - 1))
}

/// Placing on `j` would flip a bounded run of between 1 and `n` opponent
/// disks along direction `k`.
pub open spec fn has_flip_run(p: u64, o: u64, j: int, k: int, n: int) -> bool
    decreases n,
{
    (n >= 1 && opp_run(o, j, k, n) && run_bounded(p, j, k, n)) || (n > 1 && has_flip_run(
        p,
        o,
        j,
        k,
        n - 1,
    ))
}

/// One bit of a watched left shift: the landing cell is watched and the bit
/// came from `s` positions below.
proof fn lemma_shl_bit(w: u64, x: u64, s: u64, t: u64, u: u64)
    by (bit_vector)
    requires
        s < 64,
        t < 64,
        (if t >= s {
            u + s == t
        } else {
            u == 0
        }),
    ensures
        bit_set(w & (x << s), t) == (t >= s && bit_set(w, t) && bit_set(x, u)),
{
}

/// One bit of a watched right shift.
proof fn lemma_shr_bit(w: u64, x: u64, s: u64, t: u64, u: u64)
    by (bit_vector)
    requires
        s < 64,
        t < 64,
        u == t + s,
    ensures
        bit_set(w & (x >> s), t) == (u < 64 && bit_set(w, t) && bit_set(x, u)),
{
}

/// What the three watch masks keep, one bit position at a time.
proof fn lemma_watch_mask_bits()
    by (bit_vector)
    ensures
        forall|t: u64|
            t < 64 ==> (#[trigger] bit_set(0x7e7e7e7e7e7e7e7eu64, t) <==> (t % 8 != 0 && t % 8
                != 7)),
        forall|t: u64|
            t < 64 ==> (#[trigger] bit_set(0x00ffffffffffff00u64, t) <==> (8 <= t && t < 56)),
        forall|t: u64|
            t < 64 ==> (#[trigger] bit_set(0x007e7e7e7e7e7e00u64, t) <==> (8 <= t && t < 56 && t
                % 8 != 0 && t % 8 != 7)),
{
}

/// A watched cell is exactly one that a step along `k` may land on and then
/// leave again: the edge-exclusion masks encode step validity.
proof fn lemma_watch_char(t: int, k: int)
    requires
        0 <= k < 8,
    ensures
        bit_at(watch_of(k), t) <==> (0 <= t < 64 && 0 <= t + delta(k) < 64 && landing_ok(t, k)
            && landing_ok(t + delta(k), k)),
{
    lemma_watch_mask_bits();
    if 0 <= t < 64 {
        let tu = t as u64;
        assert(bit_at(watch_of(k), t) == bit_set(watch_of(k), tu));
    }
}

/// Any chain is anchored on a real board cell.
proof fn lemma_has_chain_range(p: u64, w: u64, d: int, t: int, k: int)
    requires
        has_chain(p, w, d, t, k),
    ensures
        0 <= t < 64,
        bit_at(w, t),
    decreases k,
{
    if !wchain(p, w, d, t, k) {
        lemma_has_chain_range(p, w, d, t, k - 1);
    }
}

/// A chain of length up to `k + 1` is a one-cell run ending on a mover's
/// disk, or a watched cell followed by a chain of length up to `k`.
proof fn lemma_has_chain_step(p: u64, w: u64, d: int, t: int, k: int)
    requires
        k >= 1,
    ensures
        has_chain(p, w, d, t, k) == (wchain(p, w, d, t, 0) || (bit_at(w, t) && has_chain(
            p,
            w,
            d,
            t + d,
            k - 1,
        ))),
    decreases k,
{
    assert(has_chain(p, w, d, t + d, 0) == wchain(p, w, d, t + d, 0));
    assert(wchain(p, w, d, t, k) == (bit_at(w, t) && wchain(p, w, d, t + d, k - 1)));
    if k == 1 {
        assert(has_chain(p, w, d, t, 0) == wchain(p, w, d, t, 0));
    } else {
        lemma_has_chain_step(p, w, d, t, k - 1);
        assert(has_chain(p, w, d, t + d, k - 1) == (wchain(p, w, d, t + d, k - 1) || has_chain(
            p,
            w,
            d,
            t + d,
            k - 2,
        )));
    }
}

/// One bit of the left-shift accumulator holds exactly when a chain starts
/// there.
proof fn lemma_run_acc_shl_bits(p: u64, w: u64, s: u64, k: int, t: int)
    requires
        0 < s < 64,
        0 <= k,
    ensures
        bit_at(run_acc_shl(p, w, s, k), t) <==> has_chain(p, w, -(s as int), t, k),
    decreases k,
{
    if t < 0 || t >= 64 {
        if has_chain(p, w, -(s as int), t, k) {
            lemma_has_chain_range(p, w, -(s as int), t, k);
        }
    } else {
        let tu = t as u64;
        let u = if t >= s {
            (t - s) as u64
        } else {
            0u64
        };
        if k == 0 {
            lemma_shl_bit(w, p, s, tu, u);
        } else {
            crate::bitboard::lemma_bit_ops();
            lemma_run_acc_shl_bits(p, w, s, k - 1, t);
            lemma_run_acc_shl_bits(p, w, s, k - 1, t - s);
            lemma_shl_bit(w, run_acc_shl(p, w, s, k - 1), s, tu, u);
            lemma_has_chain_step(p, w, -(s as int), t, k);
            assert(bit_set(run_acc_shl(p, w, s, k), tu) == (bit_set(run_acc_shl(p, w, s, k - 1), tu)
                || bit_set(w & (run_acc_shl(p, w, s, k - 1) << s), tu)));
            assert(has_chain(p, w, -(s as int), t, k - 1) ==> has_chain(p, w, -(s as int), t, k));
            assert(wchain(p, w, -(s as int), t, 0) ==> (bit_at(w, t) && bit_at(p, t - s)));
        }
    }
}

/// One bit of the right-shift accumulator holds exactly when a chain starts
/// there.
proof fn lemma_run_acc_shr_bits(p: u64, w: u64, s: u64, k: int, t: int)
    requires
        0 < s < 64,
        0 <= k,
    ensures
        bit_at(run_acc_shr(p, w, s, k), t) <==> has_chain(p, w, s as int, t, k),
    decreases k,
{
    if t < 0 || t >= 64 {
        if has_chain(p, w, s as int, t, k) {
            lemma_has_chain_range(p, w, s as int, t, k);
        }
    } else {
        let tu = t as u64;
        let u = (t + s) as u64;
        if k == 0 {
            lemma_shr_bit(w, p, s, tu, u);
        } else {
            crate::bitboard::lemma_bit_ops();
            lemma_run_acc_shr_bits(p, w, s, k - 1, t);
            lemma_run_acc_shr_bits(p, w, s, k - 1, t + s);
            lemma_shr_bit(w, run_acc_shr(p, w, s, k - 1), s, tu, u);
            lemma_has_chain_step(p, w, s as int, t, k);
            assert(bit_set(run_acc_shr(p, w, s, k), tu) == (bit_set(run_acc_shr(p, w, s, k - 1), tu)
                || bit_set(w & (run_acc_shr(p, w, s, k - 1) >> s), tu)));
        }
    }
}

/// One bit of a whole left-shift direction: a blank landing cell with a chain
/// one step below.
proof fn lemma_legal_part_shl_bits(p: u64, w: u64, blank: u64, s: u64, j: int)
    requires
        0 < s < 64,
        0 <= j < 64,
    ensures
        bit_at(legal_part_shl(p, w, blank, s), j) <==> (bit_at(blank, j) && has_chain(
            p,
            w,
            -(s as int),
            j - s,
            5,
        )),
{
    let ju = j as u64;
    let u = if j >= s {
        (j - s) as u64
    } else {
        0u64
    };
    lemma_shl_bit(blank, run_acc_shl(p, w, s, 5), s, ju, u);
    lemma_run_acc_shl_bits(p, w, s, 5, j - s);
    if j < s && has_chain(p, w, -(s as int), j - s, 5) {
        lemma_has_chain_range(p, w, -(s as int), j - s, 5);
    }
}

/// One bit of a whole right-shift direction.
proof fn lemma_legal_part_shr_bits(p: u64, w: u64, blank: u64, s: u64, j: int)
    requires
        0 < s < 64,
        0 <= j < 64,
    ensures
        bit_at(legal_part_shr(p, w, blank, s), j) <==> (bit_at(blank, j) && has_chain(
            p,
            w,
            s as int,
            j + s,
            5,
        )),
{
    let ju = j as u64;
    let u = (j + s) as u64;
    lemma_shr_bit(blank, run_acc_shr(p, w, s, 5), s, ju, u);
    lemma_run_acc_shr_bits(p, w, s, 5, j + s);
    if j + s >= 64 && has_chain(p, w, s as int, j + s, 5) {
        lemma_has_chain_range(p, w, s as int, j + s, 5);
    }
}

proof fn lemma_pos_shift(j: int, k: int, q: int)
    requires
        q >= 1,
    ensures
        pos_at(j, k, q) == pos_at(j + delta(k), k, q - 1),
    decreases q,
{
    if q == 1 {
        assert(pos_at(j, k, 1) == pos_at(j, k, 0) + delta(k));
        assert(pos_at(j + delta(k), k, 0) == j + delta(k));
    } else {
        lemma_pos_shift(j, k, q - 1);
        assert(pos_at(j, k, q) == pos_at(j, k, q - 1) + delta(k));
        assert(pos_at(j + delta(k), k, q - 1) == pos_at(j + delta(k), k, q - 2) + delta(k));
    }
}

/// A run from `j` is one valid step onto an opponent disk, then a run from
/// there.
proof fn lemma_opp_run_shift(o: u64, j: int, k: int, n: int)
    requires
        n >= 1,
    ensures
        opp_run(o, j, k, n) == (step_valid(j, k) && bit_at(o, j + delta(k)) && opp_run(
            o,
            j + delta(k),
            k,
            n - 1,
        )),
    decreases n,
{
    assert(pos_at(j, k, 0) == j);
    lemma_pos_shift(j, k, n);
    if n == 1 {
        assert(pos_at(j, k, 1) == j + delta(k));
        assert(opp_run(o, j, k, 1) == (opp_run(o, j, k, 0) && step_valid(pos_at(j, k, 0), k)
            && bit_at(o, pos_at(j, k, 1))));
        assert(opp_run(o, j + delta(k), k, 0));
    } else {
        lemma_opp_run_shift(o, j, k, n - 1);
        lemma_pos_shift(j, k, n - 1);
        assert(opp_run(o, j, k, n) == (opp_run(o, j, k, n - 1) && step_valid(pos_at(j, k, n - 1), k)
            && bit_at(o, pos_at(j, k, n))));
        assert(opp_run(o, j + delta(k), k, n - 1) == (opp_run(o, j + delta(k), k, n - 2)
            && step_valid(pos_at(j + delta(k), k, n - 2), k) && bit_at(
            o,
            pos_at(j + delta(k), k, n - 1),
        )));
    }
}

proof fn lemma_run_bounded_shift(p: u64, j: int, k: int, n: int)
    requires
        n >= 1,
    ensures
        run_bounded(p, j, k, n) == run_bounded(p, j + delta(k), k, n - 1),
{
    lemma_pos_shift(j, k, n);
    lemma_pos_shift(j, k, n + 1);
}

/// A kernel chain one step out of `j` is exactly a bounded flip run of the
/// same length placed on `j`.
proof fn lemma_chain_flip_glue(p: u64, o: u64, j: int, k: int, n: int)
    requires
        0 <= k < 8,
        0 <= j < 64,
        n >= 1,
    ensures
        wchain(p, o & watch_of(k), delta(k), j + delta(k), n - 1) <==> (opp_run(o, j, k, n)
            && run_bounded(p, j, k, n)),
    decreases n,
{
    let d = delta(k);
    let w = o & watch_of(k);
    crate::bitboard::lemma_bit_ops();
    lemma_watch_char(j + d, k);
    assert(bit_at(w, j + d) == (bit_at(o, j + d) && bit_at(watch_of(k), j + d)));
    if n == 1 {
        assert(pos_at(j, k, 0) == j);
        assert(pos_at(j, k, 1) == pos_at(j, k, 0) + delta(k));
        assert(pos_at(j, k, 2) == pos_at(j, k, 1) + delta(k));
        assert(opp_run(o, j, k, 0));
        assert(opp_run(o, j, k, 1) == (opp_run(o, j, k, 0) && step_valid(pos_at(j, k, 0), k)
            && bit_at(o, pos_at(j, k, 1))));
        assert(run_bounded(p, j, k, 1) == (step_valid(pos_at(j, k, 1), k) && bit_at(
            p,
            pos_at(j, k, 2),
        )));
    } else {
        lemma_opp_run_shift(o, j, k, n);
        lemma_run_bounded_shift(p, j, k, n);
        // Either side pins the step out of `j + d`, which together with the
        // watch characterization aligns the two leading conjuncts.
        if wchain(p, w, d, j + d, n - 1) {
            assert(bit_at(w, j + d) && wchain(p, w, d, j + d + d, n - 2));
            lemma_chain_flip_glue(p, o, j + d, k, n - 1);
            assert(opp_run(o, j + d, k, n - 1) && run_bounded(p, j + d, k, n - 1));
            assert(step_valid(j, k));
        } else if opp_run(o, j, k, n) && run_bounded(p, j, k, n) {
            assert(step_valid(j, k) && bit_at(o, j + d) && opp_run(o, j + d, k, n - 1)
                && run_bounded(p, j + d, k, n - 1));
            lemma_chain_flip_glue(p, o, j + d, k, n - 1);
            lemma_opp_run_shift(o, j + d, k, n - 1);
            assert(step_valid(j + d, k));
            assert(bit_at(watch_of(k), j + d));
            assert(wchain(p, w, d, j + d, n - 1) == (bit_at(w, j + d) && wchain(
                p,
                w,
                d,
                j + d + d,
                n - 2,
            )));
            assert(false);
        }
    }
}

/// Chains of any length up to six match bounded flip runs of any length up
/// to six.
proof fn lemma_has_chain_flip(p: u64, o: u64, j: int, k: int, n: int)
    requires
        0 <= k < 8,
        0 <= j < 64,
        n >= 1,
    ensures
        has_chain(p, o & watch_of(k), delta(k), j + delta(k), n - 1) <==> has_flip_run(
            p,
            o,
            j,
            k,
            n,
        ),
    decreases n,
{
    lemma_chain_flip_glue(p, o, j, k, n);
    if n > 1 {
        lemma_has_chain_flip(p, o, j, k, n - 1);
    }
}

/// The legal-move kernel flags exactly the empty cells from which the mover
/// could flip at least one bounded run of opponent disks: the shift-accumulate
/// algorithm computes the rule of the game.
pub proof fn lemma_legal_bb_cells(p: u64, o: u64, j: int)
    requires
        0 <= j < 64,
    ensures
        bit_at(legal_bb(p, o), j) <==> (!bit_at(p, j) && !bit_at(o, j) && exists|k: int|
            0 <= k < 8 && has_flip_run(p, o, j, k, 6)),
{
    crate::bitboard::lemma_bit_ops();
    let blank = !(p | o);
    assert(bit_at(blank, j) == (!bit_at(p, j) && !bit_at(o, j)));
    lemma_legal_part_shl_bits(p, o & WATCH_HORIZONTAL, blank, 1, j);
    lemma_legal_part_shr_bits(p, o & WATCH_HORIZONTAL, blank, 1, j);
    lemma_legal_part_shl_bits(p, o & WATCH_VERTICAL, blank, 8, j);
    lemma_legal_part_shr_bits(p, o & WATCH_VERTICAL, blank, 8, j);
    lemma_legal_part_shl_bits(p, o & WATCH_ALL_SIDE, blank, 7, j);
    lemma_legal_part_shr_bits(p, o & WATCH_ALL_SIDE, blank, 7, j);
    lemma_legal_part_shl_bits(p, o & WATCH_ALL_SIDE, blank, 9, j);
    lemma_legal_part_shr_bits(p, o & WATCH_ALL_SIDE, blank, 9, j);
    lemma_has_chain_flip(p, o, j, 2, 6);
    lemma_has_chain_flip(p, o, j, 6, 6);
    lemma_has_chain_flip(p, o, j, 4, 6);
    lemma_has_chain_flip(p, o, j, 0, 6);
    lemma_has_chain_flip(p, o, j, 5, 6);
    lemma_has_chain_flip(p, o, j, 1, 6);
    lemma_has_chain_flip(p, o, j, 3, 6);
    lemma_has_chain_flip(p, o, j, 7, 6);
    let ju = j as u64;
    assert(bit_at(legal_bb(p, o), j) == (bit_at(legal_part_shl(p, o & WATCH_HORIZONTAL, blank, 1), j)
        || bit_at(legal_part_shr(p, o & WATCH_HORIZONTAL, blank, 1), j) || bit_at(
        legal_part_shl(p, o & WATCH_VERTICAL, blank, 8),
        j,
    ) || bit_at(legal_part_shr(p, o & WATCH_VERTICAL, blank, 8), j) || bit_at(
        legal_part_shl(p, o & WATCH_ALL_SIDE, blank, 7),
        j,
    ) || bit_at(legal_part_shr(p, o & WATCH_ALL_SIDE, blank, 7), j) || bit_at(
        legal_part_shl(p, o & WATCH_ALL_SIDE, blank, 9),
        j,
    ) || bit_at(legal_part_shr(p, o & WATCH_ALL_SIDE, blank, 9), j)));
    if bit_at(legal_bb(p, o), j) {
        if has_flip_run(p, o, j, 2, 6) {
            assert(exists|k: int| 0 <= k < 8 && has_flip_run(p, o, j, k, 6));
        } else if has_flip_run(p, o, j, 6, 6) {
            assert(exists|k: int| 0 <= k < 8 && has_flip_run(p, o, j, k, 6));
        } else if has_flip_run(p, o, j, 4, 6) {
            assert(exists|k: int| 0 <= k < 8 && has_flip_run(p, o, j, k, 6));
        } else if has_flip_run(p, o, j, 0, 6) {
            assert(exists|k: int| 0 <= k < 8 && has_flip_run(p, o, j, k, 6));
        } else if has_flip_run(p, o, j, 5, 6) {
            assert(exists|k: int| 0 <= k < 8 && has_flip_run(p, o, j, k, 6));
        } else if has_flip_run(p, o, j, 1, 6) {
            assert(exists|k: int| 0 <= k < 8 && has_flip_run(p, o, j, k, 6));
        } else if has_flip_run(p, o, j, 3, 6) {
            assert(exists|k: int| 0 <= k < 8 && has_flip_run(p, o, j, k, 6));
        } else {
            assert(has_flip_run(p, o, j, 7, 6));
        }
    }
    if !bit_at(p, j) && !bit_at(o, j) && exists|k: int| 0 <= k < 8 && has_flip_run(p, o, j, k, 6) {
        let k = choose|k: int| 0 <= k < 8 && has_flip_run(p, o, j, k, 6);
        assert(has_chain(p, o & watch_of(k), delta(k), j + delta(k), 5));
    }
}

proof fn lemma_opp_run_at(o: u64, j: int, k: int, n: int, q: int)
    requires
        opp_run(o, j, k, n),
        1 <= q <= n,
    ensures
        bit_at(o, pos_at(j, k, q)),
        step_valid(pos_at(j, k, q - 1), k),
    decreases n,
{
    if q < n {
        lemma_opp_run_at(o, j, k, n - 1, q);
    }
}

proof fn lemma_run_mask_nonzero(j: int, k: int, n: int)
    requires
        n >= 1,
        0 <= pos_at(j, k, n) < 64,
    ensures
        run_mask(j, k, n) != 0,
{
    lemma_mask_algebra();
    crate::bitboard::lemma_bit_ops();
    let u = pos_at(j, k, n) as u64;
    assert(bit_set(one_bit(u), u));
    assert(run_mask(j, k, n) == (run_mask(j, k, n - 1) | one_bit(u)));
    assert(bit_set(run_mask(j, k, n), u));
    if run_mask(j, k, n) == 0 {
        assert(one_bit(u) & 0u64 == 0);
        assert(!bit_set(0u64, u));
    }
}

/// The walk from a cell with a bounded flip run commits exactly that run.
proof fn lemma_walk_complete(p: u64, o: u64, j: int, k: int, t: int, n: int)
    requires
        p & o == 0,
        0 <= k < 8,
        0 <= j < 64,
        0 <= t <= n,
        1 <= n <= 6,
        opp_run(o, j, k, n),
        run_bounded(p, j, k, n),
    ensures
        dir_flips_rec(p, o, one_bit(pos_at(j, k, t + 1) as u64), run_mask(j, k, t), k, 8 - t)
            == run_mask(j, k, n),
    decreases n - t,
{
    lemma_mask_algebra();
    let u = pos_at(j, k, t + 1);
    if t < n {
        lemma_opp_run_at(o, j, k, n, t + 1);
        assert(bit_at(o, u));
        let uu = u as u64;
        assert(one_bit(uu) & o != 0);
        assert(one_bit(uu) != 0) by {
            if one_bit(uu) == 0 {
                assert(one_bit(uu) & o == 0);
            }
        }
        // The next step is valid: the run continues, or it is the bounding
        // step onto the mover's disk.
        if t + 1 < n {
            lemma_opp_run_at(o, j, k, n, t + 2);
        }
        assert(step_valid(pos_at(j, k, t + 1), k));
        lemma_transfer_single(uu, k);
        assert(transfer_spec(one_bit(uu), k) == one_bit(pos_at(j, k, t + 2) as u64));
        assert(run_mask(j, k, t) | one_bit(uu) == run_mask(j, k, t + 1));
        lemma_walk_complete(p, o, j, k, t + 1, n);
    } else {
        assert(bit_at(p, u));
        let uu = u as u64;
        assert(one_bit(uu) & p == one_bit(uu));
        assert(one_bit(uu) & o == 0);
        assert(one_bit(uu) & p != 0) by {
            if one_bit(uu) & p == 0 {
                assert(!bit_set(p, uu));
            }
        }
    }
}

proof fn lemma_has_flip_run_elim(p: u64, o: u64, j: int, k: int, n: int)
    requires
        has_flip_run(p, o, j, k, n),
    ensures
        exists|m: int| 1 <= m <= n && opp_run(o, j, k, m) && #[trigger] run_bounded(p, j, k, m),
    decreases n,
{
    if !(n >= 1 && opp_run(o, j, k, n) && run_bounded(p, j, k, n)) {
        lemma_has_flip_run_elim(p, o, j, k, n - 1);
    }
}

proof fn lemma_flips_upto_nonzero(p: u64, o: u64, a: u64, k0: int, m: int)
    requires
        0 <= k0 < m <= 8,
        dir_flips(p, o, a, k0) != 0,
    ensures
        flips_upto(p, o, a, m) != 0,
    decreases m,
{
    lemma_mask_algebra();
    if m - 1 > k0 {
        lemma_flips_upto_nonzero(p, o, a, k0, m - 1);
    }
}

/// Placing on a cell the kernel flags always flips at least one disk: what
/// `legal_actions_bitboard` promises, `play_onestep` delivers.
pub proof fn lemma_legal_placement_flips(p: u64, o: u64, j: u64)
    requires
        p & o == 0,
        j < 64,
        bit_at(legal_bb(p, o), j as int),
    ensures
        flips(p, o, one_bit(j)) != 0,
{
    lemma_legal_bb_cells(p, o, j as int);
    let k = choose|k: int| 0 <= k < 8 && has_flip_run(p, o, j as int, k, 6);
    lemma_has_flip_run_elim(p, o, j as int, k, 6);
    let n = choose|m: int|
        1 <= m <= 6 && opp_run(o, j as int, k, m) && #[trigger] run_bounded(p, j as int, k, m);
    lemma_walk_complete(p, o, j as int, k, 0, n);
    lemma_opp_run_at(o, j as int, k, n, 1);
    assert(step_valid(pos_at(j as int, k, 0), k));
    lemma_transfer_single(j, k);
    assert(pos_at(j as int, k, 0) == j as int);
    assert(pos_at(j as int, k, 1) == j + delta(k));
    assert(transfer_spec(one_bit(j), k) == one_bit(pos_at(j as int, k, 1) as u64));
    assert(run_mask(j as int, k, 0) == 0);
    assert(dir_flips(p, o, one_bit(j), k) == run_mask(j as int, k, n));
    lemma_opp_run_at(o, j as int, k, n, n);
    lemma_run_mask_nonzero(j as int, k, n);
    lemma_flips_upto_nonzero(p, o, one_bit(j), k, 8);
}

/// When the game is finished neither side has a legal placement; when the
/// status asks for a pass, the mover has none and the opponent has one.
pub proof fn lemma_status_characterization(s: State)
    ensures
        status_of(s) == BoardStatus::Finished <==> (legal_bb(s.player_bit, s.opponent_bit) == 0
            && legal_bb(s.opponent_bit, s.player_bit) == 0),
        status_of(s) == BoardStatus::Pass <==> (legal_bb(s.player_bit, s.opponent_bit) == 0
            && legal_bb(s.opponent_bit, s.player_bit) != 0),
        status_of(s) == BoardStatus::Usual <==> legal_bb(s.player_bit, s.opponent_bit) != 0,
{
}

} // verus!
