use vstd::prelude::*;

use crate::action::Action;
use crate::bitboard::{cell_mask, pop, pop_below, single_bit, top_shr, BitBoard};
use crate::constants::{FIRST_BLACK_BIT, FIRST_WHITE_BIT, MAX_ACTION_NUM, TOP_BIT};

verus! {

/// Opponent disks that a horizontal shift may watch: the wrap columns are cut.
pub const WATCH_HORIZONTAL: u64 = 0x7e7e7e7e7e7e7e7e;

/// Opponent disks that a vertical shift may watch: the wrap rows are cut.
pub const WATCH_VERTICAL: u64 = 0x00ffffffffffff00;

/// Opponent disks that a diagonal shift may watch: the whole rim is cut.
pub const WATCH_ALL_SIDE: u64 = 0x007e7e7e7e7e7e00;

/// Disks of the side about to move and of the other side.
///
/// Well-formed states keep the two masks disjoint; every transition produces
/// a new value.
#[derive(Debug, Clone, Copy)]
pub struct State {
    pub player_bit: BitBoard,
    pub opponent_bit: BitBoard,
}

/// The longest run reachable from the mover's disks through watched opponent
/// disks, going `k + 1` left-shift steps of magnitude `s`.
pub open spec fn run_acc_shl(p: u64, w: u64, s: u64, k: int) -> u64
    decreases k,
{
    if k <= 0 {
        w & (p << s)
    } else {
        let t = run_acc_shl(p, w, s, k - 1);
        t | (w & (t << s))
    }
}

/// The same run accumulation for the right-shift orientation.
pub open spec fn run_acc_shr(p: u64, w: u64, s: u64, k: int) -> u64
    decreases k,
{
    if k <= 0 {
        w & (p >> s)
    } else {
        let t = run_acc_shr(p, w, s, k - 1);
        t | (w & (t >> s))
    }
}

/// Legal cells found by one left-shift direction: one step beyond the longest
/// run, restricted to blank cells.
pub open spec fn legal_part_shl(p: u64, w: u64, blank: u64, s: u64) -> u64 {
    blank & (run_acc_shl(p, w, s, 5) << s)
}

/// Legal cells found by one right-shift direction.
pub open spec fn legal_part_shr(p: u64, w: u64, blank: u64, s: u64) -> u64 {
    blank & (run_acc_shr(p, w, s, 5) >> s)
}

/// Every cell on which the mover may place a disk: the union of the eight
/// shift directions, each watching only opponent disks that the shift cannot
/// wrap around a board edge.
pub open spec fn legal_bb(p: u64, o: u64) -> u64 {
    let blank = !(p | o);
    legal_part_shl(p, o & WATCH_HORIZONTAL, blank, 1) | legal_part_shr(
        p,
        o & WATCH_HORIZONTAL,
        blank,
        1,
    ) | legal_part_shl(p, o & WATCH_VERTICAL, blank, 8) | legal_part_shr(
        p,
        o & WATCH_VERTICAL,
        blank,
        8,
    ) | legal_part_shl(p, o & WATCH_ALL_SIDE, blank, 7) | legal_part_shr(
        p,
        o & WATCH_ALL_SIDE,
        blank,
        7,
    ) | legal_part_shl(p, o & WATCH_ALL_SIDE, blank, 9) | legal_part_shr(
        p,
        o & WATCH_ALL_SIDE,
        blank,
        9,
    )
}

/// The masks of the legal cells, ordered by cell index, looking at the first
/// `n` cells only.
pub open spec fn actions_upto(bb: u64, n: int) -> Seq<u64>
    decreases n,
{
    if n <= 0 {
        Seq::empty()
    } else {
        actions_upto(bb, n - 1) + if bb & cell_mask(n - 1) != 0 {
            seq![cell_mask(n - 1)]
        } else {
            Seq::empty()
        }
    }
}

/// The masks wrapped by a sequence of actions.
pub open spec fn action_bits(s: Seq<Action>) -> Seq<u64> {
    s.map_values(|a: Action| a.bitboard)
}

proof fn lemma_actions_upto_len(bb: u64, n: int)
    requires
        0 <= n <= 64,
    ensures
        actions_upto(bb, n).len() + pop_below(bb, 64 - n) == pop(bb),
    decreases n,
{
    if n > 0 {
        lemma_actions_upto_len(bb, n - 1);
        let i = (n - 1) as u64;
        let j = (64 - n) as u64;
        assert((bb & top_shr(i) != 0) == crate::bitboard::bit_set(bb, j)) by (bit_vector)
            requires
                i < 64,
                j == 63 - i,
        ;
    }
}

/// A legal-action list is as long as the population count of its bitboard.
pub proof fn lemma_actions_upto_full_len(bb: u64)
    ensures
        actions_upto(bb, 64).len() == pop(bb),
{
    lemma_actions_upto_len(bb, 64);
}

/// Every listed action mask flags one single legal cell.
pub proof fn lemma_actions_upto_elems(bb: u64, n: int)
    requires
        0 <= n <= 64,
    ensures
        forall|q: int|
            0 <= q < actions_upto(bb, n).len() ==> single_bit(#[trigger] actions_upto(bb, n)[q])
                && actions_upto(bb, n)[q] & bb == actions_upto(bb, n)[q],
    decreases n,
{
    if n > 0 {
        lemma_actions_upto_elems(bb, n - 1);
        let pre = actions_upto(bb, n - 1);
        let cur = actions_upto(bb, n);
        if bb & cell_mask(n - 1) != 0 {
            let i = (n - 1) as u64;
            crate::bitboard::lemma_cell_mask_single(i);
            assert(bb & top_shr(i) != 0 ==> top_shr(i) & bb == top_shr(i)) by (bit_vector);
            assert forall|q: int| 0 <= q < cur.len() implies single_bit(cur[q]) && cur[q] & bb
                == cur[q] by {
                if q < pre.len() {
                    assert(cur[q] == pre[q]);
                } else {
                    assert(cur[q] == cell_mask(n - 1));
                }
            }
        } else {
            assert(cur =~= pre);
        }
    }
}

/// Nothing may be placed on an occupied cell: each direction's result is cut
/// down to blank cells before it enters the union.
pub proof fn lemma_legal_bb_blank(p: u64, o: u64)
    ensures
        legal_bb(p, o) & (p | o) == 0,
        legal_bb(p, o) & p == 0,
        legal_bb(p, o) & o == 0,
{
    assert(forall|y: u64, m: u64| (!m & y) & m == 0) by (bit_vector);
    assert(forall|a: u64, b: u64, m: u64| a & m == 0 && b & m == 0 ==> (a | b) & m == 0)
        by (bit_vector);
    assert(forall|x: u64, a: u64, b: u64| x & (a | b) == 0 ==> x & a == 0 && x & b == 0)
        by (bit_vector);
}

impl State {
    /// A state is well formed when no cell carries a disk of both sides.
    pub open spec fn wf(self) -> bool {
        self.player_bit & self.opponent_bit == 0
    }

    /// The initial position: black is about to move.
    pub fn init() -> (r: State)
        ensures
            r.player_bit == FIRST_BLACK_BIT,
            r.opponent_bit == FIRST_WHITE_BIT,
            r.wf(),
    {
        let player_bit: BitBoard = FIRST_BLACK_BIT;
        let opponent_bit: BitBoard = FIRST_WHITE_BIT;
        proof {
            assert(0x0000000810000000u64 & 0x0000001008000000u64 == 0) by (bit_vector);
        }
        State::build(player_bit, opponent_bit)
    }

    /// Wrap two disk masks as a state.
    pub fn build(player_bit: BitBoard, opponent_bit: BitBoard) -> (r: State)
        ensures
            r.player_bit == player_bit,
            r.opponent_bit == opponent_bit,
    {
        State { player_bit, opponent_bit }
    }

    /// Every cell on which the mover may place a disk: exactly the empty
    /// cells from which a bounded run of opponent disks could be flipped
    /// (`crate::board::lemma_legal_bb_cells`).
    pub fn legal_actions_bitboard(&self) -> (r: BitBoard)
        ensures
            r == legal_bb(self.player_bit, self.opponent_bit),
    {
        let p = self.player_bit;
        let o = self.opponent_bit;
        let horizontal_watch_board: BitBoard = o & WATCH_HORIZONTAL;
        let vertical_watch_board: BitBoard = o & WATCH_VERTICAL;
        let all_side_watch_board: BitBoard = o & WATCH_ALL_SIDE;
        let blank_board: BitBoard = !(p | o);

        let mut legal_board: BitBoard = probe_shl(p, horizontal_watch_board, blank_board, 1);
        legal_board = legal_board | probe_shr(p, horizontal_watch_board, blank_board, 1);
        legal_board = legal_board | probe_shl(p, vertical_watch_board, blank_board, 8);
        legal_board = legal_board | probe_shr(p, vertical_watch_board, blank_board, 8);
        legal_board = legal_board | probe_shl(p, all_side_watch_board, blank_board, 7);
        legal_board = legal_board | probe_shr(p, all_side_watch_board, blank_board, 7);
        legal_board = legal_board | probe_shl(p, all_side_watch_board, blank_board, 9);
        legal_board = legal_board | probe_shr(p, all_side_watch_board, blank_board, 9);
        legal_board
    }

    /// The legal placements, one action per flagged cell, in cell order.
    pub fn legal_actions(&self) -> (r: Vec<Action>)
        ensures
            action_bits(r@) =~= actions_upto(legal_bb(self.player_bit, self.opponent_bit), 64),
            r@.len() == pop(legal_bb(self.player_bit, self.opponent_bit)),
            forall|q: int|
                0 <= q < r@.len() ==> single_bit(#[trigger] r@[q].bitboard) && r@[q].bitboard
                    & legal_bb(self.player_bit, self.opponent_bit) == r@[q].bitboard,
    {
        let legal_bitboard: BitBoard = self.legal_actions_bitboard();
        let mut mask: BitBoard = TOP_BIT;
        let mut actions: Vec<Action> = Vec::with_capacity(MAX_ACTION_NUM);
        let mut i: u64 = 0;
        proof {
            assert(top_shr(0) == 0x8000000000000000u64) by (bit_vector);
        }
        while i < 64
            invariant
                i <= 64,
                mask == if i < 64 {
                    top_shr(i)
                } else {
                    0u64
                },
                action_bits(actions@) =~= actions_upto(legal_bitboard, i as int),
            decreases 64 - i,
        {
            proof {
                assert(top_shr(i) >> 1 == if i + 1 < 64 {
                    top_shr((i + 1) as u64)
                } else {
                    0u64
                }) by (bit_vector)
                    requires
                        i < 64,
                ;
            }
            if legal_bitboard & mask != 0 {
                proof {
                    crate::bitboard::lemma_cell_mask_single(i);
                }
                actions.push(Action::action_from_bitboard(mask));
            }
            mask = mask >> 1;
            i = i + 1;
        }
        proof {
            lemma_actions_upto_full_len(legal_bitboard);
            lemma_actions_upto_elems(legal_bitboard, 64);
            assert forall|q: int| 0 <= q < actions@.len() implies single_bit(
                #[trigger] actions@[q].bitboard,
            ) && actions@[q].bitboard & legal_bitboard == actions@[q].bitboard by {
                assert(action_bits(actions@)[q] == actions@[q].bitboard);
                assert(actions_upto(legal_bitboard, 64)[q] == action_bits(actions@)[q]);
            }
        }
        actions
    }
}

/// One left-shift direction of the kernel: watch, accumulate five times, then
/// step once beyond the run onto a blank cell.
fn probe_shl(p: u64, w: u64, blank: u64, s: u64) -> (r: u64)
    requires
        s < 64,
    ensures
        r == legal_part_shl(p, w, blank, s),
{
    let mut tmp_board: u64 = w & (p << s);
    let mut k: u64 = 0;
    while k < 5
        invariant
            s < 64,
            k <= 5,
            tmp_board == run_acc_shl(p, w, s, k as int),
        decreases 5 - k,
    {
        tmp_board = tmp_board | (w & (tmp_board << s));
        k = k + 1;
    }
    blank & (tmp_board << s)
}

/// One right-shift direction of the kernel.
fn probe_shr(p: u64, w: u64, blank: u64, s: u64) -> (r: u64)
    requires
        s < 64,
    ensures
        r == legal_part_shr(p, w, blank, s),
{
    let mut tmp_board: u64 = w & (p >> s);
    let mut k: u64 = 0;
    while k < 5
        invariant
            s < 64,
            k <= 5,
            tmp_board == run_acc_shr(p, w, s, k as int),
        decreases 5 - k,
    {
        tmp_board = tmp_board | (w & (tmp_board >> s));
        k = k + 1;
    }
    blank & (tmp_board >> s)
}

} // verus!
