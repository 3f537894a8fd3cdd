//! The eight subbands of a fixed channel plan.

use vstd::prelude::*;

verus! {

/// A group of eight standard channels, numbered from one to eight.
#[derive(Clone, Copy, Debug, PartialEq, Eq, Structural)]
pub enum Subband {
    _1,
    _2,
    _3,
    _4,
    _5,
    _6,
    _7,
    _8,
}

/// The answer to a number that names no subband.
#[derive(Clone, Copy, Debug, PartialEq, Eq, Structural)]
pub struct InvalidSubband;

impl Subband {
    /// The number of the subband, from one to eight.
    pub open spec fn spec_number(self) -> int {
        match self {
            Subband::_1 => 1,
            Subband::_2 => 2,
            Subband::_3 => 3,
            Subband::_4 => 4,
            Subband::_5 => 5,
            Subband::_6 => 6,
            Subband::_7 => 7,
            Subband::_8 => 8,
        }
    }

    /// The lowest of the eight standard channels of the subband.
    pub open spec fn spec_first_channel(self) -> int {
        (self.spec_number() - 1) * 8
    }

    /// The number of the subband, from one to eight.
    pub fn number(self) -> (n: usize)
        ensures
            n == self.spec_number(),
            1 <= n <= 8,
    {
        match self {
            Subband::_1 => 1,
            Subband::_2 => 2,
            Subband::_3 => 3,
            Subband::_4 => 4,
            Subband::_5 => 5,
            Subband::_6 => 6,
            Subband::_7 => 7,
            Subband::_8 => 8,
        }
    }

    /// The lowest of the eight standard channels of the subband.
    pub fn first_channel(self) -> (channel: usize)
        ensures
            channel == self.spec_first_channel(),
            channel % 8 == 0,
            channel <= 56,
    {
        (self.number() - 1) * 8
    }

    /// The subband with the given number; numbers outside one to eight are
    /// rejected.
    pub fn from_number(n: usize) -> (subband: Result<Subband, InvalidSubband>)
        ensures
            (1 <= n <= 8) == subband.is_ok(),
            subband matches Ok(sb) ==> sb.spec_number() == n,
    {
        match n {
            1 => Ok(Subband::_1),
            2 => Ok(Subband::_2),
            3 => Ok(Subband::_3),
            4 => Ok(Subband::_4),
            5 => Ok(Subband::_5),
            6 => Ok(Subband::_6),
            7 => Ok(Subband::_7),
            8 => Ok(Subband::_8),
            _ => Err(InvalidSubband),
        }
    }
}

} // verus!
