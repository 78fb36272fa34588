//! The checker pattern's choice between its two textures.
use vstd::prelude::*;

verus! {

/// Whether the unit cell `(ix, iy, iz)` takes the checker's even texture:
/// the sum of its coordinates is even.
pub fn checker_is_even(ix: i32, iy: i32, iz: i32) -> (r: bool)
    ensures
        r == ((ix as int + iy as int + iz as int) % 2 == 0),
{
    let s: i64 = ix as i64 + iy as i64 + iz as i64;
    s % 2 == 0
}

} // verus!
