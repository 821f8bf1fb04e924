//! The state of an edge during branch and bound.

use vstd::prelude::*;

verus! {

/// Whether an edge may, must not or must be part of the tour.
///
/// As a signed byte, `Available` is 1, `Excluded` is 0 and `Fixed` is -1.
#[derive(Debug, Clone, Copy, PartialEq, Eq, Structural)]
pub enum EdgeState {
    Available,
    Excluded,
    Fixed,
}

impl EdgeState {
    /// The signed byte that stands for this state.
    pub open spec fn spec_to_i8(self) -> i8 {
        match self {
            EdgeState::Available => 1i8,
            EdgeState::Excluded => 0i8,
            EdgeState::Fixed => -1i8,
        }
    }

    /// The state that the signed byte `value` stands for.
    pub fn from_i8(value: i8) -> (res: EdgeState)
        requires
            -1 <= value <= 1,
        ensures
            res.spec_to_i8() == value,
    {
        if value == 1 {
            EdgeState::Available
        } else if value == 0 {
            EdgeState::Excluded
        } else {
            EdgeState::Fixed
        }
    }

    /// The signed byte that stands for this state.
    #[verifier::when_used_as_spec(spec_to_i8)]
    pub fn to_i8(self) -> (res: i8)
        ensures
            res == self.spec_to_i8(),
    {
        match self {
            EdgeState::Available => 1,
            EdgeState::Excluded => 0,
            EdgeState::Fixed => -1,
        }
    }

    /// The state whose byte is the negation of this one's: `Available` and
    /// `Fixed` change places, `Excluded` stays.
    pub fn flip(self) -> (res: EdgeState)
        ensures
            res.spec_to_i8() == -self.spec_to_i8(),
    {
        match self {
            EdgeState::Available => EdgeState::Fixed,
            EdgeState::Excluded => EdgeState::Excluded,
            EdgeState::Fixed => EdgeState::Available,
        }
    }
}

} // verus!
