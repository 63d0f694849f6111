use vstd::prelude::*;

verus! {

/// What the side about to move can do: place a disk, pass, or nothing —
/// the game is over.
#[derive(PartialEq, Eq, Structural, Debug, Clone, Copy)]
pub enum BoardStatus {
    Usual,
    Pass,
    Finished,
}

/// The outcome of a finished game, seen from the side about to move.
#[derive(PartialEq, Eq, Structural, Debug, Clone, Copy)]
pub enum WinningStatus {
    Win,
    Lose,
    Draw,
    NotFinished,
}

} // verus!
