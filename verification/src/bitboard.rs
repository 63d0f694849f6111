use vstd::prelude::*;

use crate::constants::TOP_BIT;

verus! {

/// A 64-bit mask over the 8x8 grid. Cell `i` (row-major, counted from the
/// most significant bit) is flagged iff bit position `63 - i` is set.
pub type BitBoard = u64;

/// Whether bit position `j` (counted from the least significant bit) is set.
pub open spec fn bit_set(b: u64, j: u64) -> bool {
    (b >> j) & 1 == 1
}

/// Number of set bits among the `n` lowest bit positions.
pub open spec fn pop_below(b: u64, n: int) -> nat
    decreases n,
{
    if n <= 0 {
        0
    } else {
        pop_below(b, n - 1) + if bit_set(b, (n - 1) as u64) {
            1nat
        } else {
            0nat
        }
    }
}

/// Number of set bits of the whole word.
pub open spec fn pop(b: u64) -> nat {
    pop_below(b, 64)
}

/// The word that flags bit position `i` alone.
pub open spec fn one_bit(i: u64) -> u64 {
    1u64 << i
}

/// The word that flags cell `i` alone: cell 0 is the most significant bit.
pub open spec fn top_shr(i: u64) -> u64 {
    0x8000000000000000u64 >> i
}

/// Mask of cell `i` (row-major, counted from the most significant bit).
pub open spec fn cell_mask(i: int) -> u64 {
    top_shr(i as u64)
}

/// Whether exactly one bit of the word is set.
pub open spec fn single_bit(b: u64) -> bool {
    exists|j: u64| j < 64 && b == one_bit(j)
}

/// Whether bit position `u` is set, for a position given as a mathematical
/// integer; positions off the word are never set.
pub open spec fn bit_at(b: u64, u: int) -> bool {
    0 <= u < 64 && bit_set(b, u as u64)
}

/// Mask algebra used throughout the board code: how union, intersection and
/// single-bit masks interact.
pub proof fn lemma_mask_algebra()
    by (bit_vector)
    ensures
        forall|x: u64| #[trigger] (x | 0u64) == x,
        forall|x: u64| #[trigger] (0u64 | x) == x,
        forall|x: u64, y: u64, m: u64|
            x & m == x && y & m == y ==> #[trigger] ((x | y) & m) == (x | y),
        forall|x: u64, y: u64| x & y == 0 ==> #[trigger] (x ^ y) == (x | y),
        forall|x: u64, y: u64, z: u64|
            (#[trigger] (y & x)) == y && (#[trigger] (x & z)) == 0 ==> y & z == 0,
        forall|x: u64, y: u64, z: u64|
            (#[trigger] (y & x)) == y && (#[trigger] (z & x)) == 0 ==> y & z == 0 && z & y == 0,
        forall|b: u64, u: u64| u < 64 ==> (#[trigger] bit_set(b, u) <==> (one_bit(u) & b)
            == one_bit(u)),
        forall|b: u64, u: u64| u < 64 ==> (bit_set(b, u) <==> (#[trigger] (one_bit(u) & b))
            != 0),
        forall|x: u64| #[trigger] (0u64 & x) == 0,
        forall|x: u64| #[trigger] (x & 0u64) == 0,
        forall|x: u64, y: u64| (#[trigger] (x | y)) == 0 ==> x == 0 && y == 0,
{
}

pub proof fn lemma_top_shr_zero()
    by (bit_vector)
    ensures
        top_shr(0) == 0x8000000000000000u64,
{
}

/// Shifting the scan mask moves it one cell along, and off the board after
/// the last cell.
pub proof fn lemma_top_shr_step(i: u64)
    requires
        i < 64,
    ensures
        top_shr(i) >> 1 == if i + 1 < 64 {
            top_shr((i + 1) as u64)
        } else {
            0u64
        },
{
    assert(top_shr(i) >> 1 == if i + 1 < 64 {
        top_shr((i + 1) as u64)
    } else {
        0u64
    }) by (bit_vector)
        requires
            i < 64,
    ;
}

/// A hit of the scan mask pins one whole cell inside the board.
pub proof fn lemma_cell_hit(bb: u64, i: u64)
    requires
        i < 64,
        bb & top_shr(i) != 0,
    ensures
        top_shr(i) & bb == top_shr(i),
        single_bit(top_shr(i)),
{
    assert(bb & top_shr(i) != 0 ==> top_shr(i) & bb == top_shr(i)) by (bit_vector);
    lemma_cell_mask_single(i);
}

/// A mask other than zero flags at least one whole cell.
pub proof fn lemma_nonzero_has_cell(bb: u64)
    requires
        bb != 0,
    ensures
        exists|i: int| 0 <= i < 64 && bb & #[trigger] cell_mask(i) != 0,
{
    lemma_nonzero_has_bit(bb);
    let j = choose|j: u64| j < 64 && #[trigger] bit_set(bb, j);
    let i = (63 - j) as u64;
    assert(bb & top_shr(i) != 0) by (bit_vector)
        requires
            j < 64,
            i == 63 - j,
            bit_set(bb, j),
    ;
    assert(bb & cell_mask(i as int) != 0);
}

/// A cell mask flags exactly one bit.
pub proof fn lemma_cell_mask_single(i: u64)
    requires
        i < 64,
    ensures
        single_bit(top_shr(i)),
{
    let j = (63 - i) as u64;
    assert(top_shr(i) == one_bit(j)) by (bit_vector)
        requires
            i < 64 && j == 63 - i,
    ;
}

/// The meaning of the bitwise operators, one bit position at a time.
pub proof fn lemma_bit_ops()
    by (bit_vector)
    ensures
        forall|x: u64, y: u64, j: u64|
            j < 64 ==> #[trigger] bit_set(x | y, j) == (bit_set(x, j) || bit_set(y, j)),
        forall|x: u64, y: u64, j: u64|
            j < 64 ==> #[trigger] bit_set(x & y, j) == (bit_set(x, j) && bit_set(y, j)),
        forall|x: u64, y: u64, j: u64|
            j < 64 ==> #[trigger] bit_set(x ^ y, j) == (bit_set(x, j) != bit_set(y, j)),
        forall|x: u64, j: u64| j < 64 ==> #[trigger] bit_set(!x, j) == !bit_set(x, j),
        forall|i: u64, j: u64| i < 64 && j < 64 ==> #[trigger] bit_set(1u64 << i, j) == (i == j),
{
}

/// A word other than zero has a set bit.
pub proof fn lemma_nonzero_has_bit(b: u64)
    requires
        b != 0,
    ensures
        exists|j: u64| j < 64 && #[trigger] bit_set(b, j),
    decreases b,
{
    if b & 1 == 1 {
        assert(bit_set(b, 0)) by (bit_vector)
            requires
                b & 1 == 1,
        ;
    } else {
        assert(b >> 1 != 0 && b >> 1 < b) by (bit_vector)
            requires
                b != 0 && b & 1 != 1,
        ;
        lemma_nonzero_has_bit(b >> 1);
        let j = choose|j: u64| j < 64 && #[trigger] bit_set(b >> 1, j);
        assert(bit_set(b >> 1, j) ==> j < 63) by (bit_vector);
        let j1 = (j + 1) as u64;
        assert(bit_set(b, j1)) by (bit_vector)
            requires
                j < 63,
                j1 == j + 1,
                bit_set(b >> 1, j),
        ;
    }
}

/// Two words with the same bits are the same word.
pub proof fn lemma_bit_ext(x: u64, y: u64)
    requires
        forall|j: u64| j < 64 ==> #[trigger] bit_set(x, j) == bit_set(y, j),
    ensures
        x == y,
{
    if x ^ y != 0 {
        lemma_nonzero_has_bit(x ^ y);
        let j = choose|j: u64| j < 64 && #[trigger] bit_set(x ^ y, j);
        lemma_bit_ops();
        assert(false);
    }
    assert(x ^ y == 0 ==> x == y) by (bit_vector);
}

pub proof fn lemma_pop_below_bound(b: u64, n: int)
    requires
        0 <= n,
    ensures
        pop_below(b, n) <= n,
    decreases n,
{
    if n > 0 {
        lemma_pop_below_bound(b, n - 1);
    }
}

pub proof fn lemma_pop_below_mono(b: u64, m: int, n: int)
    requires
        0 <= m <= n,
    ensures
        pop_below(b, m) <= pop_below(b, n),
    decreases n,
{
    if m < n {
        lemma_pop_below_mono(b, m, n - 1);
    }
}

/// A word with a set bit has a positive population count.
pub proof fn lemma_pop_of_set_bit(b: u64, j: u64)
    requires
        j < 64,
        bit_set(b, j),
    ensures
        pop(b) >= 1,
{
    assert(pop_below(b, j + 1) >= 1);
    lemma_pop_below_mono(b, j + 1, 64);
}

proof fn lemma_pop_below_zero(n: int)
    requires
        0 <= n <= 64,
    ensures
        pop_below(0u64, n) == 0,
    decreases n,
{
    if n > 0 {
        lemma_pop_below_zero(n - 1);
        let j = (n - 1) as u64;
        lemma_mask_algebra();
        assert(one_bit(j) & 0u64 == 0);
        assert(!bit_set(0u64, j));
    }
}

/// The population count is zero exactly on the zero word.
pub proof fn lemma_pop_zero_iff(b: u64)
    ensures
        pop(b) == 0 <==> b == 0,
{
    if b == 0 {
        lemma_pop_below_zero(64);
    } else {
        lemma_nonzero_has_bit(b);
        let j = choose|j: u64| j < 64 && #[trigger] bit_set(b, j);
        lemma_pop_of_set_bit(b, j);
    }
}

proof fn lemma_pop_xor_subset_below(x: u64, y: u64, n: int)
    requires
        x & y == y,
        0 <= n <= 64,
    ensures
        pop_below(y, n) <= pop_below(x, n),
        pop_below(x ^ y, n) + pop_below(y, n) == pop_below(x, n),
    decreases n,
{
    if n > 0 {
        lemma_pop_xor_subset_below(x, y, n - 1);
        let j = (n - 1) as u64;
        assert((bit_set(y, j) ==> bit_set(x, j)) && bit_set(x ^ y, j) == (bit_set(x, j)
            != bit_set(y, j))) by (bit_vector)
            requires
                x & y == y,
                j < 64,
        ;
    }
}

/// Flipping a subset of the set bits removes exactly that many bits.
pub proof fn lemma_pop_xor_subset(x: u64, y: u64)
    requires
        x & y == y,
    ensures
        pop(y) <= pop(x),
        pop(x ^ y) + pop(y) == pop(x),
{
    lemma_pop_xor_subset_below(x, y, 64);
}

proof fn lemma_pop_or_disjoint_below(x: u64, y: u64, n: int)
    requires
        x & y == 0,
        0 <= n <= 64,
    ensures
        pop_below(x | y, n) == pop_below(x, n) + pop_below(y, n),
    decreases n,
{
    if n > 0 {
        lemma_pop_or_disjoint_below(x, y, n - 1);
        let j = (n - 1) as u64;
        assert(!(bit_set(x, j) && bit_set(y, j)) && bit_set(x | y, j) == (bit_set(x, j)
            || bit_set(y, j))) by (bit_vector)
            requires
                x & y == 0,
                j < 64,
        ;
    }
}

/// The bits of disjoint words add up.
pub proof fn lemma_pop_or_disjoint(x: u64, y: u64)
    requires
        x & y == 0,
    ensures
        pop(x | y) == pop(x) + pop(y),
{
    lemma_pop_or_disjoint_below(x, y, 64);
}

proof fn lemma_pop_single_below(j: u64, n: int)
    requires
        j < 64,
        0 <= n <= 64,
    ensures
        pop_below(1u64 << j, n) == if j < n {
            1nat
        } else {
            0nat
        },
    decreases n,
{
    if n > 0 {
        lemma_pop_single_below(j, n - 1);
        let i = (n - 1) as u64;
        assert(bit_set(1u64 << j, i) == (i == j)) by (bit_vector)
            requires
                j < 64 && i < 64,
        ;
    }
}

/// A word with one set bit has population count one.
pub proof fn lemma_pop_single(j: u64)
    requires
        j < 64,
    ensures
        pop(1u64 << j) == 1,
{
    lemma_pop_single_below(j, 64);
}

/// Population counting, as the board code uses it.
pub trait BitBoardTrait {
    /// The number of disks flagged on this mask.
    fn count(&self) -> i32;
}

impl BitBoardTrait for BitBoard {
    fn count(&self) -> (r: i32)
        ensures
            r == pop(*self),
    {
        let b: u64 = *self;
        let mut mask: BitBoard = TOP_BIT;
        let mut count: i32 = 0;
        let mut i: u64 = 0;
        proof {
            assert(0x8000000000000000u64 >> 0u64 == 0x8000000000000000u64) by (bit_vector);
        }
        while i < 64
            invariant
                i <= 64,
                mask == if i < 64 {
                    TOP_BIT >> i
                } else {
                    0u64
                },
                count + pop_below(b, 64 - i) == pop(b),
                0 <= count <= i,
            decreases 64 - i,
        {
            proof {
                assert(((0x8000000000000000u64 >> i) & b != 0) == bit_set(b, (63 - i) as u64))
                    by (bit_vector)
                    requires
                        i < 64,
                ;
                assert((0x8000000000000000u64 >> i) >> 1 == if i + 1 < 64 {
                    0x8000000000000000u64 >> (i + 1) as u64
                } else {
                    0u64
                }) by (bit_vector)
                    requires
                        i < 64,
                ;
            }
            if mask & b != 0 {
                count = count + 1;
            }
            mask = mask >> 1;
            i = i + 1;
        }
        count
    }
}

} // verus!
