use vstd::prelude::*;
use crate::scene::clamp_div;

verus! {

/// Benchmark repetitions for `n` elements: `2_000_000_000 / n`, clamped to
/// `[20, 200_000]`.
pub fn iters_for(n: usize) -> (r: u64)
    requires
        n > 0,
    ensures
        r == clamp_div(2_000_000_000, n as int, 20, 200_000),
{
    let q = 2_000_000_000u64 / n as u64;
    if q < 20 {
        20
    } else if q > 200_000 {
        200_000
    } else {
        q
    }
}

} // verus!
