use vstd::prelude::*;

verus! {

/// `x` limited to the closed range `[min, max]`.
pub open spec fn clamp_spec(x: int, min: int, max: int) -> int {
    if x < min {
        min
    } else if x > max {
        max
    } else {
        x
    }
}

/// Limits `x` to `[min, max]`: below `min` gives `min`, above `max` gives `max`.
pub fn clamp_u32(x: u32, min: u32, max: u32) -> (r: u32)
    ensures
        r == clamp_spec(x as int, min as int, max as int),
        min <= max ==> min <= r <= max,
{
    if x < min {
        min
    } else if x > max {
        max
    } else {
        x
    }
}

} // verus!
