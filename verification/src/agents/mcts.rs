use vstd::prelude::*;

use std::time::Instant;

use super::{legal_action_on, Agent};
use crate::action::Action;
use crate::board::{played_board, winning_of, Board};
use crate::clock::{instant_now, time_reached};
use crate::enums::WinningStatus;
use crate::state::{action_bits, actions_upto, legal_bb};

verus! {

/// One node of a search tree: a board snapshot, its children as one
/// contiguous arena range (materialized only on expansion), a visit count,
/// and an accumulated reward sum in half-points, all from the node's own
/// mover's perspective.
#[derive(Debug, Clone, Copy)]
pub struct Node {
    pub board: Board,
    pub parent: usize,
    pub child_start: usize,
    pub child_count: usize,
    pub try_count: u32,
    pub sum_w_half: u64,
}

/// Parent links only ever point backwards: children are appended after the
/// node that expands.
pub open spec fn parents_ok(s: Seq<Node>) -> bool {
    forall|q: int| 0 < q < s.len() ==> (#[trigger] s[q]).parent < q
}

/// One node is structurally sound: a well-formed board, a reward sum that at
/// most doubles the visit count (a visit pays out at most one point, stored
/// in half-points), and a child range that sits behind the node inside the
/// arena and points back at it.
pub open spec fn node_ok(s: Seq<Node>, q: int) -> bool {
    let n = s[q];
    &&& n.board.wf()
    &&& n.sum_w_half <= 2 * n.try_count
    &&& n.child_count <= 64
    &&& (n.child_count > 0 ==> q < n.child_start && n.child_start + n.child_count <= s.len() && (
    forall|c: int|
        n.child_start <= c < n.child_start + n.child_count ==> (#[trigger] s[c]).parent == q))
}

/// The whole arena is structurally sound.
pub open spec fn arena_ok(s: Seq<Node>) -> bool {
    &&& s.len() >= 1
    &&& parents_ok(s)
    &&& forall|q: int| 0 <= q < s.len() ==> #[trigger] node_ok(s, q)
}

/// Whether node `j` lies in the subtree rooted at `a`, following parent
/// links.
pub open spec fn desc_of(s: Seq<Node>, j: int, a: int) -> bool
    decreases j,
{
    j == a || (0 < j < s.len() && s[j].parent < j && desc_of(s, s[j].parent as int, a))
}

/// The total visit count of the arena range `[start, start + cnt)`.
pub open spec fn count_sum(s: Seq<Node>, start: int, cnt: int) -> int
    decreases cnt,
{
    if cnt <= 0 {
        0
    } else {
        count_sum(s, start, cnt - 1) + s[start + cnt - 1].try_count
    }
}

/// A descendant never sits before its subtree's root in the arena.
proof fn lemma_desc_ge(s: Seq<Node>, j: int, a: int)
    requires
        desc_of(s, j, a),
        0 <= a,
    ensures
        j >= a,
    decreases j,
{
    if j != a {
        lemma_desc_ge(s, s[j].parent as int, a);
    }
}

/// Subtree membership composes.
proof fn lemma_desc_trans(s: Seq<Node>, j: int, c: int, a: int)
    requires
        desc_of(s, j, c),
        desc_of(s, c, a),
    ensures
        desc_of(s, j, a),
    decreases j,
{
    if j != c {
        lemma_desc_trans(s, s[j].parent as int, c, a);
    }
}

/// Subtree membership only reads parent links, so it survives any mutation
/// that keeps them.
proof fn lemma_desc_stable(s1: Seq<Node>, s2: Seq<Node>, j: int, a: int)
    requires
        s1.len() <= s2.len(),
        forall|q: int| 0 <= q < s1.len() ==> (#[trigger] s2[q]).parent == s1[q].parent,
        0 <= j < s1.len(),
    ensures
        desc_of(s1, j, a) == desc_of(s2, j, a),
    decreases j,
{
    if j != a && 0 < j && s1[j].parent < j {
        lemma_desc_stable(s1, s2, s1[j].parent as int, a);
    }
}

/// Two distinct children of one node root disjoint subtrees.
proof fn lemma_sibling_not_desc(s: Seq<Node>, idx: int, c: int, d: int)
    requires
        s[c].parent == idx,
        s[d].parent == idx,
        idx < c,
        idx < d,
        c != d,
        0 <= idx,
        0 < d < s.len(),
    ensures
        !desc_of(s, d, c),
{
    if desc_of(s, d, c) {
        assert(desc_of(s, idx, c));
        lemma_desc_ge(s, idx, c);
    }
}

/// Bumping one member of a range by one bumps the range total by one;
/// untouched members keep it.
proof fn lemma_count_sum_bump(s1: Seq<Node>, s2: Seq<Node>, start: int, cnt: int, c: int)
    requires
        forall|d: int|
            start <= d < start + cnt && d != c ==> (#[trigger] s2[d]).try_count == s1[d].try_count,
        start <= c < start + cnt ==> s2[c].try_count == s1[c].try_count + 1,
    ensures
        start <= c < start + cnt ==> count_sum(s2, start, cnt) == count_sum(s1, start, cnt) + 1,
        !(start <= c < start + cnt) ==> count_sum(s2, start, cnt) == count_sum(s1, start, cnt),
    decreases cnt,
{
    if cnt > 0 {
        lemma_count_sum_bump(s1, s2, start, cnt - 1, c);
    }
}

/// A range total dominates each member and stays below the range width times
/// the largest count a node can carry.
proof fn lemma_count_sum_bounds(s: Seq<Node>, start: int, cnt: int)
    requires
        0 <= start,
        0 <= cnt,
        start + cnt <= s.len(),
    ensures
        0 <= count_sum(s, start, cnt),
        count_sum(s, start, cnt) <= cnt * 0xffffffffint,
        forall|d: int|
            start <= d < start + cnt ==> (#[trigger] s[d]).try_count <= count_sum(s, start, cnt),
    decreases cnt,
{
    if cnt > 0 {
        lemma_count_sum_bounds(s, start, cnt - 1);
        assert(count_sum(s, start, cnt) == count_sum(s, start, cnt - 1) + s[start + cnt
            - 1].try_count);
        assert(s[start + cnt - 1].try_count <= 0xffffffffint);
        assert((cnt - 1) * 0xffffffffint + 0xffffffffint == cnt * 0xffffffffint)
            by (nonlinear_arith);
    }
}

/// The floor of the base-two logarithm.
pub open spec fn log2_spec(t: nat) -> nat
    decreases t,
{
    if t <= 1 {
        0
    } else {
        1 + log2_spec(t / 2)
    }
}

/// Halving often enough exhausts any bounded number.
proof fn lemma_log2_small(t: nat, k: nat)
    requires
        t < pow2_spec(k),
    ensures
        log2_spec(t) < k || t <= 1,
    decreases k,
{
    if t > 1 && k > 0 {
        lemma_log2_small(t / 2, (k - 1) as nat);
    }
}

pub open spec fn pow2_spec(k: nat) -> nat
    decreases k,
{
    if k == 0 {
        1
    } else {
        2 * pow2_spec((k - 1) as nat)
    }
}

proof fn lemma_log2_bound(t: u64)
    ensures
        log2_spec(t as nat) <= 63,
{
    assert(pow2_spec(64) == 0x10000000000000000) by {
        reveal_with_fuel(pow2_spec, 65);
    }
    lemma_log2_small(t as nat, 64);
}

fn log2_floor(t: u64) -> (r: u64)
    ensures
        r == log2_spec(t as nat),
        r <= 63,
    decreases t,
{
    proof {
        lemma_log2_bound(t);
    }
    if t <= 1 {
        0
    } else {
        1 + log2_floor(t / 2)
    }
}

/// The integer square root.
pub open spec fn isqrt_spec(x: nat) -> nat
    decreases x,
{
    if x == 0 {
        0
    } else {
        let p = isqrt_spec((x - 1) as nat);
        if (p + 1) * (p + 1) <= x {
            p + 1
        } else {
            p
        }
    }
}

proof fn lemma_isqrt_char(x: nat)
    ensures
        isqrt_spec(x) * isqrt_spec(x) <= x,
        x < (isqrt_spec(x) + 1) * (isqrt_spec(x) + 1),
    decreases x,
{
    if x > 0 {
        lemma_isqrt_char((x - 1) as nat);
        let p = isqrt_spec((x - 1) as nat);
        assert(p * p <= x - 1);
        assert(x - 1 < (p + 1) * (p + 1));
        assert(isqrt_spec(x) == if (p + 1) * (p + 1) <= x {
            p + 1
        } else {
            p
        });
        if (p + 1) * (p + 1) <= x {
            assert(x <= (p + 1) * (p + 1));
            assert(x < (p + 1 + 1) * (p + 1 + 1)) by (nonlinear_arith)
                requires
                    x <= (p + 1) * (p + 1),
            ;
            assert(isqrt_spec(x) * isqrt_spec(x) <= x);
            assert(x < (isqrt_spec(x) + 1) * (isqrt_spec(x) + 1));
        } else {
            assert(p * p <= x);
            assert(x < (p + 1) * (p + 1));
            assert(isqrt_spec(x) * isqrt_spec(x) <= x);
            assert(x < (isqrt_spec(x) + 1) * (isqrt_spec(x) + 1));
        }
    } else {
        assert(isqrt_spec(x) == 0);
        assert(isqrt_spec(x) * isqrt_spec(x) <= x);
        assert(x < (isqrt_spec(x) + 1) * (isqrt_spec(x) + 1)) by (nonlinear_arith)
            requires
                x == 0 && isqrt_spec(x) == 0,
        ;
    }
}

proof fn lemma_isqrt_unique(x: nat, r: nat)
    requires
        r * r <= x,
        x < (r + 1) * (r + 1),
    ensures
        r == isqrt_spec(x),
{
    lemma_isqrt_char(x);
    let q = isqrt_spec(x);
    if r < q {
        assert((r + 1) * (r + 1) <= q * q) by (nonlinear_arith)
            requires
                r + 1 <= q,
        ;
    }
    if q < r {
        assert((q + 1) * (q + 1) <= r * r) by (nonlinear_arith)
            requires
                q + 1 <= r,
        ;
    }
}

fn isqrt(x: u64) -> (r: u64)
    ensures
        r == isqrt_spec(x as nat),
{
    let mut lo: u64 = 0;
    let mut hi: u64 = 0x100000000;
    proof {
        assert((0x100000000int) * (0x100000000int) > x) by (nonlinear_arith)
            requires
                x < 0x10000000000000000,
        ;
    }
    while lo + 1 < hi
        invariant
            lo < hi <= 0x100000000,
            (lo as int) * (lo as int) <= x as int,
            (x as int) < (hi as int) * (hi as int),
        decreases hi - lo,
    {
        let mid = lo + (hi - lo) / 2;
        proof {
            assert((mid as int) * (mid as int) <= (0xffffffffint) * (0xffffffffint))
                by (nonlinear_arith)
                requires
                    mid <= 0xffffffff,
            ;
        }
        if mid * mid <= x {
            lo = mid;
        } else {
            hi = mid;
        }
    }
    proof {
        lemma_isqrt_unique(x as nat, lo as nat);
    }
    lo
}

/// The UCB1 selection value in fixed point, scaled by 65536: one minus the
/// child's mean reward, plus the exploration bonus
/// `sqrt(2 * ln(total) / visits)` with the natural logarithm taken as the
/// base-two logarithm times `ln 2` (45426 / 65536).
pub open spec fn ucb1_spec(w_half: u64, n: u64, t: u64) -> int {
    65536 - (65536 * (w_half as int)) / (2 * (n as int)) + isqrt_spec(
        (((131072 * ((log2_spec(t as nat)) as int * 45426)) / (n as int))) as nat,
    )
}

fn ucb1_scaled(w_half: u64, n: u64, t: u64) -> (r: u64)
    requires
        1 <= n,
        w_half <= 2 * n,
        n <= t,
        t <= 64 * 0xffffffffu64,
    ensures
        r as int == ucb1_spec(w_half, n, t),
{
    proof {
        assert(65536 * (w_half as int) <= 65536 * (2 * (t as int))) by (nonlinear_arith)
            requires
                w_half <= 2 * n && n <= t,
        ;
        assert((65536 * (w_half as int)) / (2 * (n as int)) <= 65536) by (nonlinear_arith)
            requires
                1 <= n && w_half <= 2 * n,
        ;
        assert((65536 * (w_half as int)) / (2 * (n as int)) >= 0) by (nonlinear_arith)
            requires
                1 <= n,
        ;
    }
    let mean_penalty: u64 = (65536 * w_half) / (2 * n);
    let lg: u64 = log2_floor(t);
    let ln_scaled: u64 = lg * 45426;
    let explore_arg: u64 = (131072 * ln_scaled) / n;
    let explore: u64 = isqrt(explore_arg);
    proof {
        lemma_isqrt_char(explore_arg as nat);
        assert((explore as int) * (explore as int) <= explore_arg as int);
        assert(explore < 0x100000000) by (nonlinear_arith)
            requires
                (explore as int) * (explore as int) <= explore_arg as int,
                explore_arg < 0x10000000000000000,
        ;
    }
    65536 - mean_penalty + explore
}

/// The visit total of a node's materialized children.
pub open spec fn children_visits(s: Seq<Node>, q: int) -> int {
    count_sum(s, s[q].child_start as int, s[q].child_count as int)
}

/// The selection rule: `c` is the child of `idx` the walk descends into —
/// the first unvisited child, or, once every child has been visited, the
/// first child with the highest UCB1 value over the children's visit total.
pub open spec fn selected_child(s: Seq<Node>, idx: int, c: int) -> bool {
    let start = s[idx].child_start as int;
    let cnt = s[idx].child_count as int;
    let t = children_visits(s, idx);
    &&& start <= c < start + cnt
    &&& (s[c].try_count == 0 ==> forall|d: int|
        start <= d < c ==> (#[trigger] s[d]).try_count > 0)
    &&& (s[c].try_count != 0 ==> {
        &&& (forall|d: int| start <= d < start + cnt ==> (#[trigger] s[d]).try_count > 0)
        &&& (forall|d: int|
            start <= d < start + cnt ==> ucb1_spec(
                (#[trigger] s[d]).sum_w_half,
                s[d].try_count as u64,
                t as u64,
            ) <= ucb1_spec(s[c].sum_w_half, s[c].try_count as u64, t as u64))
        &&& (forall|d: int|
            start <= d < c ==> ucb1_spec(
                (#[trigger] s[d]).sum_w_half,
                s[d].try_count as u64,
                t as u64,
            ) < ucb1_spec(s[c].sum_w_half, s[c].try_count as u64, t as u64))
    })
}

/// Materialize one child per legal action of node `idx`, in generation
/// order, at the end of the arena.
pub fn expand(nodes: &mut Vec<Node>, idx: usize)
    requires
        arena_ok(old(nodes)@),
        idx < old(nodes)@.len(),
        old(nodes)@[idx as int].child_count == 0,
    ensures
        arena_ok(final(nodes)@),
        final(nodes)@.len() >= old(nodes)@.len(),
        forall|j: int|
            0 <= j < old(nodes)@.len() && j != idx ==> final(nodes)@[j] == old(nodes)@[j],
        final(nodes)@[idx as int].try_count == old(nodes)@[idx as int].try_count,
        final(nodes)@[idx as int].sum_w_half == old(nodes)@[idx as int].sum_w_half,
        final(nodes)@[idx as int].board == old(nodes)@[idx as int].board,
        final(nodes)@[idx as int].parent == old(nodes)@[idx as int].parent,
        final(nodes)@[idx as int].child_count as int == crate::bitboard::pop(
            legal_bb(
                old(nodes)@[idx as int].board.state.player_bit,
                old(nodes)@[idx as int].board.state.opponent_bit,
            ),
        ),
        final(nodes)@[idx as int].child_count > 0 ==> final(nodes)@[idx as int].child_start
            == old(nodes)@.len(),
        final(nodes)@.len() == old(nodes)@.len() + final(nodes)@[idx as int].child_count,
        forall|i: int|
            0 <= i < final(nodes)@[idx as int].child_count ==> (#[trigger] final(nodes)@[old(nodes)@.len() + i]).board == played_board(
                old(nodes)@[idx as int].board,
                actions_upto(
                    legal_bb(
                        old(nodes)@[idx as int].board.state.player_bit,
                        old(nodes)@[idx as int].board.state.opponent_bit,
                    ),
                    64,
                )[i],
            ),
        forall|j: int|
            old(nodes)@.len() <= j < final(nodes)@.len() ==> (#[trigger] final(nodes)@[j]).try_count == 0
                && final(nodes)@[j].sum_w_half == 0 && final(nodes)@[j].child_count == 0,
        children_visits(final(nodes)@, idx as int) == 0,
{
    proof {
        assert(node_ok(old(nodes)@, idx as int));
    }
    let node = nodes[idx];
    let actions = node.board.legal_actions();
    let start = nodes.len();
    proof {
        crate::bitboard::lemma_pop_below_bound(
            legal_bb(node.board.state.player_bit, node.board.state.opponent_bit),
            64,
        );
    }
    let mut q: usize = 0;
    while q < actions.len()
        invariant
            arena_ok(nodes@),
            idx < start,
            start == old(nodes)@.len(),
            start + q == nodes@.len(),
            q <= actions.len(),
            actions.len() <= 64,
            node == old(nodes)@[idx as int],
            node.board.wf(),
            forall|j: int| 0 <= j < start ==> nodes@[j] == old(nodes)@[j],
            forall|z: int|
                0 <= z < actions@.len() ==> crate::agents::legal_action_on(
                    node.board,
                    #[trigger] actions@[z],
                ),
            forall|j: int|
                start <= j < nodes@.len() ==> (#[trigger] nodes@[j]).parent == idx
                    && nodes@[j].try_count == 0 && nodes@[j].sum_w_half == 0
                    && nodes@[j].child_count == 0,
            action_bits(actions@) =~= actions_upto(
                legal_bb(node.board.state.player_bit, node.board.state.opponent_bit),
                64,
            ),
            forall|j: int|
                start <= j < nodes@.len() ==> (#[trigger] nodes@[j]).board == played_board(
                    node.board,
                    actions_upto(
                        legal_bb(node.board.state.player_bit, node.board.state.opponent_bit),
                        64,
                    )[j - start],
                ),
        decreases actions.len() - q,
    {
        proof {
            assert(actions_upto(
                legal_bb(node.board.state.player_bit, node.board.state.opponent_bit),
                64,
            )[q as int] == action_bits(actions@)[q as int]);
            assert(action_bits(actions@)[q as int] == actions@[q as int].bitboard);
        }
        let new_board = node.board.play_onestep(actions[q]);
        let add_node = Node {
            board: new_board,
            parent: idx,
            child_start: 0,
            child_count: 0,
            try_count: 0,
            sum_w_half: 0,
        };
        let ghost prev = nodes@;
        nodes.push(add_node);
        proof {
            let s = nodes@;
            assert forall|z: int| 0 <= z < s.len() implies #[trigger] node_ok(s, z) by {
                if z < prev.len() {
                    assert(node_ok(prev, z));
                    assert(s[z] == prev[z]);
                    if prev[z].child_count > 0 {
                        assert forall|c: int|
                            s[z].child_start <= c < s[z].child_start
                                + s[z].child_count implies (#[trigger] s[c]).parent == z by {
                            assert(s[c] == prev[c]);
                        }
                    }
                }
            }
        }
        q = q + 1;
    }
    let mut updated = node;
    updated.child_start = start;
    updated.child_count = actions.len();
    let ghost pre_set = nodes@;
    nodes.set(idx, updated);
    proof {
        let s = nodes@;
        assert forall|z: int| 0 <= z < s.len() implies #[trigger] node_ok(s, z) by {
            if z == idx {
                assert forall|c: int|
                    s[z].child_start <= c < s[z].child_start + s[z].child_count implies (
                #[trigger] s[c]).parent == z by {
                    assert(s[c] == pre_set[c]);
                }
            } else {
                assert(node_ok(pre_set, z));
                assert(s[z] == pre_set[z]);
                if pre_set[z].child_count > 0 {
                    assert forall|c: int|
                        s[z].child_start <= c < s[z].child_start + s[z].child_count implies (
                    #[trigger] s[c]).parent == z by {
                        if c != idx {
                            assert(s[c] == pre_set[c]);
                        }
                    }
                }
            }
        }
        lemma_count_sum_zero(s, start as int, actions@.len() as int);
    }
}

/// A range of unvisited nodes totals zero visits.
proof fn lemma_count_sum_zero(s: Seq<Node>, start: int, cnt: int)
    requires
        forall|d: int| start <= d < start + cnt ==> (#[trigger] s[d]).try_count == 0,
    ensures
        count_sum(s, start, cnt) == 0,
    decreases cnt,
{
    if cnt > 0 {
        lemma_count_sum_zero(s, start, cnt - 1);
    }
}

/// Pick the child to walk into: the first unvisited child wins outright;
/// otherwise the first child with the highest UCB1 value.
fn next_child_node_index(nodes: &Vec<Node>, idx: usize) -> (c: usize)
    requires
        arena_ok(nodes@),
        idx < nodes@.len(),
        nodes@[idx as int].child_count > 0,
    ensures
        selected_child(nodes@, idx as int, c as int),
{
    proof {
        assert(node_ok(nodes@, idx as int));
    }
    let start = nodes[idx].child_start;
    let cnt = nodes[idx].child_count;
    let mut t: u64 = 0;
    let mut d: usize = start;
    let n = nodes.len();
    proof {
        lemma_count_sum_bounds(nodes@, start as int, cnt as int);
        assert(start + cnt <= n);
    }
    let end: usize = start + cnt;
    while d < end
        invariant
            arena_ok(nodes@),
            idx < nodes@.len(),
            start == nodes@[idx as int].child_start,
            cnt == nodes@[idx as int].child_count,
            0 < cnt <= 64,
            start + cnt <= nodes@.len(),
            start <= d <= start + cnt,
            end == start + cnt,
            t == count_sum(nodes@, start as int, d - start),
            t <= 64 * 0xffffffffu64,
            forall|e: int| start <= e < d ==> (#[trigger] nodes@[e]).try_count > 0,
        decreases start + cnt - d,
    {
        proof {
            lemma_count_sum_bounds(nodes@, start as int, d + 1 - start);
        }
        if nodes[d].try_count == 0 {
            return d;
        }
        t = t + nodes[d].try_count as u64;
        d = d + 1;
    }
    proof {
        assert(t == children_visits(nodes@, idx as int));
        lemma_count_sum_bounds(nodes@, start as int, cnt as int);
        assert forall|g: int|
            start <= g < start + cnt implies (#[trigger] nodes@[g]).try_count > 0
            && nodes@[g].try_count <= t by {
            assert(nodes@[g].try_count <= count_sum(nodes@, start as int, cnt as int));
        }
        assert(node_ok(nodes@, start as int));
    }
    let mut best_index: usize = start;
    let mut best_value: u64 = ucb1_scaled(
        nodes[start].sum_w_half,
        nodes[start].try_count as u64,
        t,
    );
    let mut e: usize = start + 1;
    while e < end
        invariant
            arena_ok(nodes@),
            idx < nodes@.len(),
            start == nodes@[idx as int].child_start,
            cnt == nodes@[idx as int].child_count,
            0 < cnt <= 64,
            start + cnt <= nodes@.len(),
            start < e <= start + cnt,
            end == start + cnt,
            start <= best_index < e,
            t == children_visits(nodes@, idx as int),
            t <= 64 * 0xffffffffu64,
            forall|g: int|
                start <= g < start + cnt ==> (#[trigger] nodes@[g]).try_count > 0
                    && nodes@[g].try_count <= t,
            best_value as int == ucb1_spec(
                nodes@[best_index as int].sum_w_half,
                nodes@[best_index as int].try_count as u64,
                t,
            ),
            forall|g: int|
                start <= g < e ==> ucb1_spec(
                    (#[trigger] nodes@[g]).sum_w_half,
                    nodes@[g].try_count as u64,
                    t,
                ) <= best_value as int,
            forall|g: int|
                start <= g < best_index ==> ucb1_spec(
                    (#[trigger] nodes@[g]).sum_w_half,
                    nodes@[g].try_count as u64,
                    t,
                ) < best_value as int,
        decreases start + cnt - e,
    {
        proof {
            assert(node_ok(nodes@, e as int));
        }
        let ucb1_value = ucb1_scaled(nodes[e].sum_w_half, nodes[e].try_count as u64, t);
        if ucb1_value > best_value {
            best_index = e;
            best_value = ucb1_value;
        }
        e = e + 1;
    }
    best_index
}

/// The reward of a decided game in half-points, from the mover's own
/// perspective: a win pays one point, a draw half of one, a loss nothing.
pub open spec fn reward_of(ws: WinningStatus) -> u64 {
    match ws {
        WinningStatus::Win => 2u64,
        WinningStatus::Lose => 0u64,
        _ => 1u64,
    }
}

fn reward_half(ws: WinningStatus) -> (r: u64)
    ensures
        r == reward_of(ws),
{
    if ws == WinningStatus::Win {
        2
    } else if ws == WinningStatus::Lose {
        0
    } else {
        1
    }
}

/// One simulation walking from node `idx`: settle a decided board as its
/// outcome; sample a leaf and expand it once it has been visited
/// `expand_threshold` times; otherwise walk into the UCB1-selected child and
/// flip its reward. The node's own visit count grows by exactly one, and so
/// does the visit total of its children whenever it has any and the game is
/// not yet decided there — nothing outside the node's subtree moves. The
/// returned reward is the terminal outcome (win one point, draw half) at a
/// decided board and the half-point sample at a leaf, and it always lands in
/// the node's reward sum; a leaf expands exactly when its visit count reaches
/// `expand_threshold`; an inner node walks into the UCB1-selected child and
/// absorbs that child's reward flipped, one point minus it.
pub fn evaluate(nodes: &mut Vec<Node>, idx: usize, expand_threshold: u32) -> (value_half: u64)
    requires
        arena_ok(old(nodes)@),
        idx < old(nodes)@.len(),
        forall|j: int|
            0 <= j < old(nodes)@.len() ==> (#[trigger] old(nodes)@[j]).try_count < 0xffffffffu32,
    ensures
        arena_ok(final(nodes)@),
        old(nodes)@.len() <= final(nodes)@.len(),
        forall|j: int|
            0 <= j < old(nodes)@.len() && !desc_of(old(nodes)@, j, idx as int) ==> final(nodes)@[j]
                == old(nodes)@[j],
        forall|j: int|
            0 <= j < old(nodes)@.len() ==> (#[trigger] final(nodes)@[j]).parent == old(nodes)@[j].parent
                && final(nodes)@[j].board == old(nodes)@[j].board && old(nodes)@[j].try_count
                <= final(nodes)@[j].try_count && final(nodes)@[j].try_count <= old(nodes)@[j].try_count + 1,
        forall|j: int|
            old(nodes)@.len() <= j < final(nodes)@.len() ==> (#[trigger] final(nodes)@[j]).try_count == 0,
        final(nodes)@[idx as int].try_count == old(nodes)@[idx as int].try_count + 1,
        value_half <= 2,
        final(nodes)@[idx as int].sum_w_half == old(nodes)@[idx as int].sum_w_half + value_half,
        old(nodes)@[idx as int].child_count > 0 ==> final(nodes)@[idx as int].child_start
            == old(nodes)@[idx as int].child_start && final(nodes)@[idx as int].child_count
            == old(nodes)@[idx as int].child_count,
        (old(nodes)@[idx as int].child_count > 0 && winning_of(old(nodes)@[idx as int].board.state)
            == WinningStatus::NotFinished) ==> final(nodes)@[idx as int].child_start
            == old(nodes)@[idx as int].child_start && final(nodes)@[idx as int].child_count
            == old(nodes)@[idx as int].child_count && children_visits(final(nodes)@, idx as int)
            == children_visits(old(nodes)@, idx as int) + 1,
        winning_of(old(nodes)@[idx as int].board.state) != WinningStatus::NotFinished ==> (
        value_half == reward_of(winning_of(old(nodes)@[idx as int].board.state)) && final(nodes)@.len() == old(nodes)@.len() && (forall|j: int|
            0 <= j < old(nodes)@.len() && j != idx ==> final(nodes)@[j] == old(nodes)@[j])),
        (winning_of(old(nodes)@[idx as int].board.state) == WinningStatus::NotFinished && old(nodes)@[idx as int].child_count == 0) ==> {
            &&& value_half == 1
            &&& (forall|j: int|
                0 <= j < old(nodes)@.len() && j != idx ==> final(nodes)@[j] == old(nodes)@[j])
            &&& (final(nodes)@[idx as int].try_count == expand_threshold ==> {
                let bb = legal_bb(
                    old(nodes)@[idx as int].board.state.player_bit,
                    old(nodes)@[idx as int].board.state.opponent_bit,
                );
                &&& final(nodes)@[idx as int].child_count as int == crate::bitboard::pop(bb)
                &&& final(nodes)@.len() == old(nodes)@.len() + final(nodes)@[idx as int].child_count
                &&& (final(nodes)@[idx as int].child_count > 0 ==> final(nodes)@[idx as int].child_start == old(nodes)@.len())
                &&& (forall|i: int|
                    0 <= i < final(nodes)@[idx as int].child_count ==> (#[trigger] final(nodes)@[old(nodes)@.len() + i]).board == played_board(
                        old(nodes)@[idx as int].board,
                        actions_upto(bb, 64)[i],
                    ) && final(nodes)@[old(nodes)@.len() + i].try_count == 0 && final(nodes)@[old(nodes)@.len() + i].sum_w_half == 0)
            })
            &&& (final(nodes)@[idx as int].try_count != expand_threshold ==> final(nodes)@[idx as int].child_count == 0 && final(nodes)@.len() == old(nodes)@.len())
        },
        (winning_of(old(nodes)@[idx as int].board.state) == WinningStatus::NotFinished && old(nodes)@[idx as int].child_count > 0) ==> (exists|c: int|
            #[trigger] selected_child(old(nodes)@, idx as int, c) && final(nodes)@[c].try_count
                == old(nodes)@[c].try_count + 1 && final(nodes)@[c].sum_w_half as int == old(nodes)@[c].sum_w_half + 2 - value_half && (forall|d: int|
                old(nodes)@[idx as int].child_start <= d < old(nodes)@[idx as int].child_start
                    + old(nodes)@[idx as int].child_count && d != c ==> final(nodes)@[d] == old(nodes)@[d])),
    decreases nodes@.len() - idx,
{
    proof {
        assert(node_ok(nodes@, idx as int));
    }
    let node = nodes[idx];
    let winning_status = node.board.winning_status();
    if winning_status != WinningStatus::NotFinished {
        let value = reward_half(winning_status);
        let mut updated = node;
        updated.sum_w_half = updated.sum_w_half + value;
        updated.try_count = updated.try_count + 1;
        nodes.set(idx, updated);
        proof {
            let s = nodes@;
            assert forall|z: int| 0 <= z < s.len() implies #[trigger] node_ok(s, z) by {
                assert(node_ok(old(nodes)@, z));
            }
        }
        value
    } else if node.child_count == 0 {
        let value: u64 = 1;
        let mut updated = node;
        updated.sum_w_half = updated.sum_w_half + value;
        updated.try_count = updated.try_count + 1;
        nodes.set(idx, updated);
        proof {
            let s = nodes@;
            assert forall|z: int| 0 <= z < s.len() implies #[trigger] node_ok(s, z) by {
                assert(node_ok(old(nodes)@, z));
            }
        }
        if updated.try_count == expand_threshold {
            expand(nodes, idx);
        }
        proof {
            assert forall|j: int|
                0 <= j < old(nodes)@.len() && !desc_of(old(nodes)@, j, idx as int) implies nodes@[j]
                == old(nodes)@[j] by {}
        }
        value
    } else {
        let index = next_child_node_index(nodes, idx);
        proof {
            assert(idx < index && index < nodes@.len());
        }
        let ghost pre = nodes@;
        let sub = evaluate(nodes, index, expand_threshold);
        let value = 2 - sub;
        proof {
            assert(!desc_of(pre, idx as int, index as int)) by {
                if desc_of(pre, idx as int, index as int) {
                    lemma_desc_ge(pre, idx as int, index as int);
                }
            }
            assert(nodes@[idx as int] == pre[idx as int]);
        }
        let node_now = nodes[idx];
        let mut updated = node_now;
        updated.sum_w_half = updated.sum_w_half + value;
        updated.try_count = updated.try_count + 1;
        let ghost mid = nodes@;
        nodes.set(idx, updated);
        proof {
            let s = nodes@;
            let start = pre[idx as int].child_start as int;
            let cnt = pre[idx as int].child_count as int;
            // Structural soundness survives: only counts and reward sums on
            // the walked path moved, and expansion kept every rule.
            assert forall|z: int| 0 <= z < s.len() implies #[trigger] node_ok(s, z) by {
                assert(node_ok(mid, z));
                assert(s[z].child_start == mid[z].child_start && s[z].child_count
                    == mid[z].child_count && s[z].parent == mid[z].parent);
                if z != idx {
                    assert(s[z] == mid[z]);
                }
            }
            // Siblings of the walked child are outside its subtree, so their
            // counts kept still and the children total rose by exactly one.
            assert(node_ok(pre, idx as int));
            assert(pre[index as int].parent == idx);
            assert forall|d: int|
                start <= d < start + cnt && d != index implies #[trigger] s[d] == pre[d] by {
                lemma_sibling_not_desc(pre, idx as int, index as int, d);
                lemma_desc_stable(pre, mid, d, index as int);
                assert(mid[d] == pre[d]);
                assert(s[d] == mid[d]);
            }
            lemma_count_sum_bump(pre, s, start, cnt, index as int);
            // The walked child is the contract's witness: selected by the
            // UCB1 rule, visited once more, its flipped reward absorbed here.
            assert(selected_child(pre, idx as int, index as int) && s[index as int].try_count
                == pre[index as int].try_count + 1 && s[index as int].sum_w_half as int
                == pre[index as int].sum_w_half + 2 - value && (forall|d: int|
                pre[idx as int].child_start <= d < pre[idx as int].child_start + pre[idx
                    as int].child_count && d != index ==> s[d] == pre[d]));
            // Frame: whatever is outside this node's subtree is outside the
            // child's subtree too.
            assert forall|j: int|
                0 <= j < pre.len() && !desc_of(pre, j, idx as int) implies s[j] == pre[j] by {
                if desc_of(pre, j, index as int) {
                    assert(desc_of(pre, idx as int, idx as int));
                    assert(desc_of(pre, index as int, idx as int));
                    lemma_desc_trans(pre, j, index as int, idx as int);
                }
                assert(mid[j] == pre[j]);
                assert(j != idx);
                assert(s[j] == mid[j]);
            }
        }
        value
    }
}

/// A time- and depth-free Monte Carlo tree searcher: a fresh tree per
/// decision, simulations until the soft deadline, and the most visited root
/// child as the answer.
pub struct MCTS {
    pub expand_threshold: u32,
    pub rest_time: u128,
}

impl MCTS {
    /// Run simulations from the root until the deadline (or the visit-count
    /// fuse) fires. The root's visit count, and — while the game is open and
    /// the root has children — the visit total of the root's children, both
    /// grow by exactly the number of simulations executed.
    pub fn run_simulations(&self, nodes: &mut Vec<Node>, now: &Instant) -> (sims: u32)
        requires
            arena_ok(old(nodes)@),
            forall|j: int| 0 <= j < old(nodes)@.len() ==> (#[trigger] old(nodes)@[j]).try_count == 0,
        ensures
            arena_ok(final(nodes)@),
            old(nodes)@.len() <= final(nodes)@.len(),
            forall|j: int|
                0 <= j < old(nodes)@.len() ==> (#[trigger] final(nodes)@[j]).board == old(nodes)@[j].board,
            final(nodes)@[0].board == old(nodes)@[0].board,
            old(nodes)@[0].child_count > 0 ==> final(nodes)@[0].child_start == old(nodes)@[0].child_start && final(nodes)@[0].child_count == old(nodes)@[0].child_count,
            final(nodes)@[0].try_count == sims,
            (old(nodes)@[0].child_count > 0 && winning_of(old(nodes)@[0].board.state)
                == WinningStatus::NotFinished) ==> children_visits(final(nodes)@, 0)
                == sims,
    {
        let ghost orig = old(nodes)@;
        let mut sims: u32 = 0;
        proof {
            assert(node_ok(orig, 0));
            if orig[0].child_count > 0 {
                lemma_count_sum_zero(orig, orig[0].child_start as int, orig[0].child_count as int);
            }
        }
        while sims < 0xf0000000 && !time_reached(now, self.rest_time)
            invariant
                arena_ok(nodes@),
                orig.len() <= nodes@.len(),
                forall|j: int|
                    0 <= j < orig.len() ==> (#[trigger] nodes@[j]).board == orig[j].board,
                nodes@[0].board == orig[0].board,
                orig[0].child_count > 0 ==> nodes@[0].child_start == orig[0].child_start
                    && nodes@[0].child_count == orig[0].child_count,
                nodes@[0].try_count == sims,
                sims <= 0xf0000000,
                forall|j: int|
                    0 <= j < nodes@.len() ==> (#[trigger] nodes@[j]).try_count <= sims,
                (orig[0].child_count > 0 && winning_of(orig[0].board.state)
                    == WinningStatus::NotFinished) ==> children_visits(nodes@, 0) == sims,
            decreases 0xf0000000 - sims,
        {
            evaluate(nodes, 0, self.expand_threshold);
            sims = sims + 1;
        }
        sims
    }
}

impl Agent for MCTS {
    /// The searcher promises nothing beyond legality: a budget exhausted
    /// before the first simulation is a valid "no action" outcome the caller
    /// must handle, even on boards with legal placements.
    open spec fn completes(&self, board: Board) -> bool {
        false
    }

    /// Build a root from the board, expand its children eagerly, simulate
    /// until the deadline, and hand back the legal action whose root child
    /// was visited strictly most often; none if no child was ever visited.
    fn next_action_option(&self, board: &Board) -> (r: Option<Action>)
        ensures
            (match r {
                Some(a) => legal_action_on(*board, a),
                None => true,
            }),
            self.completes(*board) ==> r is Some,
    {
        let now = instant_now();
        let mut nodes: Vec<Node> = Vec::new();
        let root = Node {
            board: *board,
            parent: 0,
            child_start: 0,
            child_count: 0,
            try_count: 0,
            sum_w_half: 0,
        };
        nodes.push(root);
        expand(&mut nodes, 0);
        let ghost after_expand = nodes@;
        self.run_simulations(&mut nodes, &now);

        let actions = board.legal_actions();
        proof {
            assert(node_ok(nodes@, 0));
            assert(nodes@[0].board == *board);
            assert(actions@.len() > 0 ==> actions@.len() == nodes@[0].child_count);
            // The root's children were built one to one, in order, from the
            // board's legal actions, and simulations moved no board: child
            // `i` still holds the one-step result of action `i`.
            let bb = legal_bb(board.state.player_bit, board.state.opponent_bit);
            if actions@.len() > 0 {
                assert forall|i: int|
                    0 <= i < actions@.len() implies (#[trigger] nodes@[nodes@[0].child_start
                    + i]).board == played_board(*board, actions@[i].bitboard) by {
                    assert(action_bits(actions@)[i] == actions@[i].bitboard);
                    assert(actions_upto(bb, 64)[i] == action_bits(actions@)[i]);
                    assert(after_expand[1 + i].board == played_board(
                        *board,
                        actions_upto(bb, 64)[i],
                    ));
                    assert(nodes@[1 + i].board == after_expand[1 + i].board);
                    assert(nodes@[0].child_start == 1);
                }
            }
        }
        if actions.len() == 0 {
            return None;
        }
        let child_start = nodes[0].child_start;
        let res_action = select_most_visited(&nodes, child_start, &actions);
        proof {
            if res_action is Some {
                let z = choose|z: int|
                    0 <= z < actions@.len() && res_action == Some(actions@[z]) && nodes@[(
                    child_start + z) as int].try_count > 0;
                assert(legal_action_on(*board, actions@[z]));
            }
        }
        res_action
    }
}

/// The decision rule at the root: the action whose child was visited strictly
/// more often than every earlier one and at least as often as every later
/// one — so a child that strictly dominates all others in visit count is
/// always the one selected. No visited child at all is a valid "no action"
/// outcome.
pub fn select_most_visited(nodes: &Vec<Node>, child_start: usize, actions: &Vec<Action>) -> (r:
    Option<Action>)
    requires
        child_start + actions@.len() <= nodes@.len(),
    ensures
        (match r {
            None => forall|z: int|
                0 <= z < actions@.len() ==> (#[trigger] nodes@[child_start + z]).try_count == 0,
            Some(a) => exists|z: int|
                0 <= z < actions@.len() && r == Some(actions@[z]) && nodes@[(child_start
                    + z) as int].try_count > 0 && (forall|y: int|
                    0 <= y < z ==> (#[trigger] nodes@[child_start + y]).try_count < nodes@[(
                    child_start + z) as int].try_count) && (forall|y: int|
                    0 <= y < actions@.len() ==> (#[trigger] nodes@[child_start + y]).try_count
                        <= nodes@[(child_start + z) as int].try_count),
        }),
{
    let arena_len = nodes.len();
    let mut res_action: Option<Action> = None;
    let mut most_try_count: u32 = 0;
    let ghost mut best_z: int = -1;
    let mut i: usize = 0;
    while i < actions.len()
        invariant
            child_start + actions@.len() <= arena_len,
            arena_len == nodes@.len(),
            i <= actions.len(),
            -1 <= best_z,
            best_z == -1 <==> res_action is None,
            best_z == -1 ==> most_try_count == 0,
            best_z >= 0 ==> 0 <= best_z < i && res_action == Some(actions@[best_z])
                && most_try_count == nodes@[child_start + best_z].try_count && most_try_count > 0
                && (forall|y: int|
                0 <= y < best_z ==> (#[trigger] nodes@[child_start + y]).try_count
                    < most_try_count),
            forall|y: int|
                0 <= y < i ==> (#[trigger] nodes@[child_start + y]).try_count <= most_try_count,
        decreases actions.len() - i,
    {
        let count = nodes[child_start + i].try_count;
        if count > most_try_count {
            most_try_count = count;
            res_action = Some(actions[i]);
            proof {
                best_z = i as int;
            }
        }
        i = i + 1;
    }
    proof {
        if res_action is None {
            assert forall|z: int| 0 <= z < actions@.len() implies (#[trigger] nodes@[child_start
                + z]).try_count == 0 by {
                assert(nodes@[child_start + z].try_count <= most_try_count);
            }
        } else {
            assert(0 <= best_z < actions@.len() && res_action == Some(actions@[best_z]) && nodes@[(
            child_start + best_z) as int].try_count > 0 && (forall|y: int|
                0 <= y < best_z ==> (#[trigger] nodes@[child_start + y]).try_count < nodes@[(
                child_start + best_z) as int].try_count) && (forall|y: int|
                0 <= y < actions@.len() ==> (#[trigger] nodes@[child_start + y]).try_count
                    <= nodes@[(child_start + best_z) as int].try_count));
        }
    }
    res_action
}

} // verus!
