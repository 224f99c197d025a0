use vstd::prelude::*;

use crate::math::clamp_spec;

verus! {

/// Limits a texel coordinate `x` to `[min, max]`.
pub fn clamp(x: u32, min: u32, max: u32) -> (r: u32)
    ensures
        r == clamp_spec(x as int, min as int, max as int),
{
    if x < min {
        min
    } else if x > max {
        max
    } else {
        x
    }
}

/// The texel that nearest-neighbour lookup reads for screen position `(x, y)` of a
/// `width` by `height` image: positions past an edge read the edge.
pub fn nearest_texel(x: u32, y: u32, width: u32, height: u32) -> (r: (u32, u32))
    requires
        width > 0,
        height > 0,
    ensures
        r.0 == clamp_spec(x as int, 0, width - 1),
        r.1 == clamp_spec(y as int, 0, height - 1),
        r.0 < width,
        r.1 < height,
{
    (clamp(x, 0, width - 1), clamp(y, 0, height - 1))
}

} // verus!
