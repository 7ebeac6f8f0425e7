//! The sign of a number, and the little algebra it obeys.

use vstd::prelude::*;

verus! {

/// Sign of a big integer.  Zero always carries `Positive`.
#[derive(Clone, Copy, PartialEq, Eq, Debug, Structural)]
pub enum Sign {
    Positive,
    Negative,
}

impl Sign {
    /// `+1` or `-1` as a mathematical integer.
    pub open spec fn unit(self) -> int {
        match self {
            Sign::Positive => 1,
            Sign::Negative => -1,
        }
    }

    /// Apply the sign to a magnitude.
    pub open spec fn apply(self, mag: nat) -> int {
        self.unit() * mag
    }

    /// The opposite sign.
    pub fn neg(self) -> (r: Sign)
        ensures
            r.unit() == -self.unit(),
    {
        match self {
            Sign::Positive => Sign::Negative,
            Sign::Negative => Sign::Positive,
        }
    }

    /// Product of two signs.
    pub fn mul(self, other: Sign) -> (r: Sign)
        ensures
            r.unit() == self.unit() * other.unit(),
    {
        match (self, other) {
            (Sign::Positive, s) => s,
            (Sign::Negative, Sign::Positive) => Sign::Negative,
            (Sign::Negative, Sign::Negative) => Sign::Positive,
        }
    }
}

} // verus!
