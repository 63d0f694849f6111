use vstd::prelude::*;
use vstd::string::StrSliceExecFns;

use crate::bitboard::{cell_mask, one_bit, single_bit, top_shr, BitBoard};
use crate::constants::TOP_BIT;

verus! {

/// A placement: a bitboard that flags the chosen cell alone.
#[derive(Debug, Clone, Copy)]
pub struct Action {
    pub bitboard: BitBoard,
}

/// Column letter of cell `i`: 'a' (97) for the leftmost column.
pub open spec fn col_char(i: int) -> char {
    (97 + i % 8) as u8 as char
}

/// Row digit of cell `i`: '1' (49) for the top row.
pub open spec fn row_char(i: int) -> char {
    (49 + i / 8) as u8 as char
}

/// The cell written by a coordinate pair (column letter, row digit).
pub open spec fn coord_index(cx: char, cy: char) -> int {
    8 * (cy as int - 49) + (cx as int - 97)
}

/// Whether the pair is one of the 64 valid coordinates, 'a1' through 'h8'.
pub open spec fn valid_coord(cx: char, cy: char) -> bool {
    97 <= cx as int <= 104 && 49 <= cy as int <= 56
}

/// Relies on std's String::push: appends one character to the string.
#[verifier::external_body]
fn push_char(s: &mut String, c: char)
    ensures
        final(s)@ == old(s)@.push(c),
{
    s.push(c);
}

impl Action {
    /// Wrap a mask that flags exactly one cell.
    pub fn action_from_bitboard(bitboard: BitBoard) -> (r: Action)
        requires
            single_bit(bitboard),
        ensures
            r.bitboard == bitboard,
    {
        Action { bitboard }
    }

    /// Decode a two-character coordinate. Out-of-range coordinates are a
    /// format error and are ruled out by the precondition.
    pub fn action_from_str(action_str: &str) -> (r: Action)
        requires
            action_str@.len() >= 2,
            valid_coord(action_str@[0], action_str@[1]),
        ensures
            r.bitboard == cell_mask(coord_index(action_str@[0], action_str@[1])),
            single_bit(r.bitboard),
    {
        let ch_x: char = action_str.get_char(0);
        let ch_y: char = action_str.get_char(1);
        let num_x: u32 = ch_x as u32 - 97;
        let num_y: u32 = ch_y as u32 - 49;

        let mask: u64 = (TOP_BIT >> num_x) >> (num_y * 8);

        proof {
            let iu = coord_index(action_str@[0], action_str@[1]) as u64;
            assert((0x8000000000000000u64 >> num_x) >> (num_y * 8) == top_shr(iu)) by (bit_vector)
                requires
                    num_x < 8,
                    num_y < 8,
                    iu == 8 * num_y + num_x,
            ;
            crate::bitboard::lemma_cell_mask_single(iu);
        }
        Action { bitboard: mask }
    }

    /// Encode the flagged cell as a two-character coordinate.
    pub fn to_string(&self) -> (r: String)
        requires
            single_bit(self.bitboard),
        ensures
            forall|i: int|
                0 <= i < 64 && self.bitboard == cell_mask(i) ==> r@ =~= seq![
                    col_char(i),
                    row_char(i),
                ],
    {
        let b = self.bitboard;
        let ghost j = choose|j: u64| j < 64 && b == one_bit(j);
        let ghost i0 = (63 - j) as u64;
        proof {
            assert(b == top_shr(i0) && b != 0) by (bit_vector)
                requires
                    b == one_bit(j) && j < 64 && i0 == 63 - j,
            ;
        }
        let mut i: u64 = 0;
        let mut mask: BitBoard = TOP_BIT;
        proof {
            assert(top_shr(0) == 0x8000000000000000u64) by (bit_vector);
        }
        while b & mask == 0
            invariant
                i <= i0 < 64,
                mask == top_shr(i),
                b == top_shr(i0),
                b != 0,
            decreases i0 - i,
        {
            proof {
                assert(top_shr(i0) & top_shr(i) == 0 ==> i != i0) by (bit_vector)
                    requires
                        i < 64 && i0 < 64,
                ;
                assert(top_shr(i) >> 1 == top_shr((i + 1) as u64)) by (bit_vector)
                    requires
                        i < 63,
                ;
            }
            i = i + 1;
            mask = mask >> 1;
        }
        proof {
            assert(top_shr(i0) & top_shr(i) != 0 ==> i == i0) by (bit_vector)
                requires
                    i < 64 && i0 < 64,
            ;
        }
        let cx: u8 = 97 + (i % 8) as u8;
        let cy: u8 = 49 + (i / 8) as u8;
        let mut res: String = String::new();
        push_char(&mut res, cx as char);
        push_char(&mut res, cy as char);
        proof {
            assert(i == i0);
            assert(cx == 97 + i0 % 8);
            assert(cy == 49 + i0 / 8);
            assert(cx as char == col_char(i0 as int));
            assert(cy as char == row_char(i0 as int));
            assert(res@ =~= seq![col_char(i0 as int), row_char(i0 as int)]);
            assert(forall|k: int|
                0 <= k < 64 && b == cell_mask(k) ==> k == i0) by {
                assert forall|k: int| 0 <= k < 64 && b == cell_mask(k) implies k == i0 by {
                    let ku = k as u64;
                    assert(top_shr(ku) == top_shr(i0) ==> ku == i0) by (bit_vector)
                        requires
                            ku < 64 && i0 < 64,
                    ;
                }
            }
        }
        res
    }

    /// Encode the flagged cell as a two-character coordinate.
    pub fn to_str(&self) -> (r: String)
        requires
            single_bit(self.bitboard),
        ensures
            forall|i: int|
                0 <= i < 64 && self.bitboard == cell_mask(i) ==> r@ =~= seq![
                    col_char(i),
                    row_char(i),
                ],
    {
        self.to_string()
    }
}

/// The coordinate codec round-trips: every one of the 64 valid cells decodes
/// back from its own encoding.
pub proof fn lemma_codec_round_trip(i: int)
    requires
        0 <= i < 64,
    ensures
        valid_coord(col_char(i), row_char(i)),
        coord_index(col_char(i), row_char(i)) == i,
{
    assert(0 <= i % 8 < 8 && 0 <= i / 8 < 8);
    assert(8 * (i / 8) + i % 8 == i) by {
        vstd::arithmetic::div_mod::lemma_fundamental_div_mod(i, 8);
    }
}

} // verus!
