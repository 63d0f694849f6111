use vstd::prelude::*;

verus! {

/// The two sides. The first mover is black.
#[derive(PartialEq, Eq, Structural, Debug, Clone, Copy)]
pub enum Turn {
    Black,
    White,
}

pub const FIRST_TURN: Turn = Turn::Black;

/// The side that moves after `t`.
pub open spec fn spec_reverse(t: Turn) -> Turn {
    match t {
        Turn::Black => Turn::White,
        Turn::White => Turn::Black,
    }
}

pub trait TurnTrait {
    /// The other side.
    fn reverse(&self) -> Turn;

    /// Replace this side by the other one.
    fn swap(&mut self);
}

impl TurnTrait for Turn {
    fn reverse(&self) -> (r: Turn)
        ensures
            r == spec_reverse(*self),
    {
        if *self == Turn::Black {
            Turn::White
        } else {
            Turn::Black
        }
    }

    fn swap(&mut self)
        ensures
            *final(self) == spec_reverse(*old(self)),
    {
        if *self == Turn::Black {
            *self = Turn::White;
        } else {
            *self = Turn::Black;
        }
    }
}

} // verus!
