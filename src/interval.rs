//! Closed ranges of ordered keys, used for valid ray-parameter ranges and for
//! the extent of a box along one axis.
use vstd::prelude::*;

verus! {

/// The closed range `[min, max]` of ordered keys.
#[derive(Clone, Copy, Debug, PartialEq, Eq, Structural)]
pub struct Interval {
    pub min: i32,
    pub max: i32,
}

impl Interval {
    /// The interval is not empty.
    pub open spec fn wf(self) -> bool {
        self.min <= self.max
    }

    /// Whether `x` lies in the closed range.
    pub open spec fn contains_spec(self, x: int) -> bool {
        self.min <= x <= self.max
    }

    pub fn new(min: i32, max: i32) -> (r: Interval)
        ensures
            r.min == min,
            r.max == max,
    {
        Interval { min, max }
    }

    /// Whether `x` lies in the closed range; both ends are included.
    pub fn contains(&self, x: i32) -> (r: bool)
        ensures
            r == self.contains_spec(x as int),
    {
        self.min <= x && x <= self.max
    }
}

} // verus!
