//! Stratified pixel sampling: the side of the square grid of cells, one
//! jittered sample per cell.
use vstd::prelude::*;

verus! {

/// The side of the grid for `samples` samples per pixel: the largest `c`
/// with `c * c <= samples`, and at least 1.
pub fn strata_per_side(samples: u32) -> (c: u32)
    ensures
        c >= 1,
        samples >= 1 ==> c * c <= samples,
        samples < (c + 1) * (c + 1),
{
    let n = samples as u64;
    let mut c: u64 = 1;
    loop
        invariant
            1 <= c <= 65535,
            c * c <= n || c == 1,
            n <= u32::MAX,
        ensures
            1 <= c <= 65535,
            c * c <= n || c == 1,
            n < (c + 1) * (c + 1),
        decreases n - c,
    {
        let next: u64 = c + 1;
        assert(next * next <= 65536 * 65536) by (nonlinear_arith)
            requires
                next <= 65536,
        ;
        let sq: u64 = next * next;
        if sq > n {
            break;
        }
        assert(next <= 65535 && next <= n) by (nonlinear_arith)
            requires
                next * next <= n,
                n <= u32::MAX,
                2 <= next,
        ;
        c = next;
    }
    assert(n >= 1 ==> c * c <= n) by (nonlinear_arith)
        requires
            c * c <= n || c == 1,
    ;
    c as u32
}

} // verus!
