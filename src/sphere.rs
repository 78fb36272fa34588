//! The choice among the two roots of the sphere's intersection quadratic.
use vstd::prelude::*;

verus! {

/// Whether `t` lies strictly inside `(t_min, t_max)`.
pub open spec fn strictly_inside(t: int, t_min: int, t_max: int) -> bool {
    t_min < t && t < t_max
}

/// The root to report, given the nearer root `near` and the farther root
/// `far` (keys): the nearer one if it lies strictly inside
/// `(t_min, t_max)`, else the farther one if it does, else none.
pub fn nearest_root(near: i32, far: i32, t_min: i32, t_max: i32) -> (r: Option<i32>)
    ensures
        strictly_inside(near as int, t_min as int, t_max as int) ==> r == Some(near),
        !strictly_inside(near as int, t_min as int, t_max as int) && strictly_inside(
            far as int,
            t_min as int,
            t_max as int,
        ) ==> r == Some(far),
        !strictly_inside(near as int, t_min as int, t_max as int) && !strictly_inside(
            far as int,
            t_min as int,
            t_max as int,
        ) ==> r is None,
{
    if t_min < near && near < t_max {
        Some(near)
    } else if t_min < far && far < t_max {
        Some(far)
    } else {
        None
    }
}

} // verus!
