//! Exact angles in degrees, held as a fraction of two integers.
use vstd::prelude::*;

verus! {

/// An angle of `num / den` degrees.
#[derive(Debug, Clone, Copy, PartialEq, Eq, Structural)]
pub struct Angle {
    pub num: i64,
    pub den: u64,
}

impl Angle {
    /// The denominator is positive.
    pub open spec fn wf(self) -> bool {
        self.den > 0
    }

    /// `lo <= self < hi` degrees.
    pub open spec fn in_range(self, lo: int, hi: int) -> bool {
        lo * self.den <= self.num && self.num < hi * self.den
    }

    /// A well-formed angle of at most `max` degrees either way.
    pub open spec fn within(self, max: int) -> bool {
        self.wf() && -max * self.den <= self.num <= max * self.den
    }

    /// `self` lies below `o` by at most `step / 2^20` degrees, or equals it.
    pub open spec fn just_below(self, o: Angle, step: int) -> bool {
        0 <= o.num * self.den - self.num * o.den
            && (o.num * self.den - self.num * o.den) * 0x100000 <= step * o.den * self.den
    }

    /// The angle of a whole number of degrees.
    pub fn from_degrees(d: i64) -> (r: Angle)
        ensures
            r.wf(),
            r.num == d,
            r.den == 1,
    {
        Angle { num: d, den: 1 }
    }
}

} // verus!
