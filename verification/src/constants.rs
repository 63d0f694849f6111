use vstd::prelude::*;

verus! {

/// Mask of the cell in the top-left corner: cell 0 lives in the most
/// significant bit, and cell indices grow towards the least significant bit.
pub const TOP_BIT: u64 = 0x8000000000000000;

/// Width (and height) of the board.
pub const BOARD_LEN: usize = 8;

/// Number of cells on the board.
pub const BOARD_SIZE: usize = 64;

/// Disks of the first mover (black) in the initial position.
pub const FIRST_BLACK_BIT: u64 = 0x0000000810000000;

/// Disks of the second mover (white) in the initial position.
pub const FIRST_WHITE_BIT: u64 = 0x0000001008000000;

/// Upper bound on the number of legal placements of one ply.
pub const MAX_ACTION_NUM: usize = 33;

/// Scores handed around by the search agents.
pub type ScoreType = i32;

/// A score strictly larger than any positional evaluation.
pub const INF: ScoreType = 10000;

/// Soft wall-clock ceiling for one decision, in microseconds.
pub const TIME_LIMT: u128 = 150000;

} // verus!
