//! Small helpers on numbers.

use vstd::prelude::*;
use crate::types::ZInt;

verus! {

/// `n` limited to the range from `min` to `max`.
pub open spec fn clamp_spec(n: int, min: int, max: int) -> int {
    if n < min {
        min
    } else if n > max {
        max
    } else {
        n
    }
}

/// `n` limited to the range from `min` to `max`: `min` below it, `max`
/// above it.
pub fn clamp(n: ZInt, min: ZInt, max: ZInt) -> (r: ZInt)
    ensures
        r == clamp_spec(n as int, min as int, max as int),
{
    if n < min {
        min
    } else if n > max {
        max
    } else {
        n
    }
}

/// Law: where `min <= max`, the clamped value lies between them and is
/// `n` itself where `n` does.
pub proof fn lemma_clamp_in_range(n: int, min: int, max: int)
    requires
        min <= max,
    ensures
        min <= clamp_spec(n, min, max) <= max,
        min <= n <= max ==> clamp_spec(n, min, max) == n,
{
}

} // verus!
