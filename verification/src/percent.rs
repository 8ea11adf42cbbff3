//! Percentages in whole percent, as `sp_arithmetic::Percent` holds them.
use vstd::prelude::*;

verus! {

/// A percentage between 0 and 100, held by its number of whole percent.
#[derive(Clone, Copy, Debug, PartialEq, Eq, Structural)]
pub struct Percent {
    pub parts: u8,
}

impl Percent {
    /// The percentage `parts`, capped at 100 (`Percent::from_parts`).
    pub fn from_parts(parts: u8) -> (r: Percent)
        ensures
            r.parts == if parts > 100 { 100 } else { parts },
    {
        Percent { parts: if parts > 100 { 100 } else { parts } }
    }

    /// `floor(b * self)` (`Percent::mul_floor` on a `u64`).
    #[verifier::external_body]
    pub(crate) fn mul_floor(self, b: u64) -> (r: u64)
        requires
            self.parts <= 100,
        ensures
            r == (b * self.parts) / 100,
    {
        sp_arithmetic::Percent::from_parts(self.parts).mul_floor(b)
    }
}

} // verus!
