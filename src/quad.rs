//! The part of the quad's intersection test that decides whether a point of
//! its plane, given by its coordinates `(alpha, beta)` along the two edges,
//! lies on the quad.
use vstd::prelude::*;
use crate::interval::Interval;
use crate::order::key_spec;

verus! {

/// The key of `0.0`.
pub const ZERO_KEY: i32 = 0;

/// The key of `1.0`, whose bits are `0x3f80_0000`.
pub const ONE_KEY: i32 = 0x3f80_0000;

/// The two constants are the keys of `0.0` and `1.0`.
pub proof fn lemma_unit_keys()
    ensures
        key_spec(0x0000_0000u32) == ZERO_KEY,
        key_spec(0x3f80_0000u32) == ONE_KEY,
        key_spec(0x8000_0000u32) == ZERO_KEY,
{
}

/// The closed range `[0.0, 1.0]`.
pub open spec fn unit_interval() -> Interval {
    Interval { min: ZERO_KEY, max: ONE_KEY }
}

/// Whether the plane point with edge coordinates `alpha` and `beta` (keys)
/// lies on the quad: both lie in `[0.0, 1.0]`, ends included. They are then
/// the texture coordinates of the hit.
pub fn is_interior(alpha: i32, beta: i32) -> (r: bool)
    ensures
        r == (unit_interval().contains_spec(alpha as int) && unit_interval().contains_spec(beta as int)),
{
    let unit = Interval::new(ZERO_KEY, ONE_KEY);
    unit.contains(alpha) && unit.contains(beta)
}

} // verus!
