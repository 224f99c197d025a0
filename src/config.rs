use vstd::prelude::*;

verus! {

/// Sub-pixel grid per axis: each pass traces `SUPERSAMPLING * SUPERSAMPLING` paths per pixel.
pub const SUPERSAMPLING: u32 = 2;

/// Most bounces a single path may take.
pub const PATHTRACING_BOUNCE_LIMIT: u32 = 10;

/// Number of bilateral passes over the final image.
pub const BILATERAL_FILTER_ITERATION: u32 = 1;

/// Side of the square bilateral kernel, in pixels (odd).
pub const BILATERAL_FILTER_DIAMETER: u32 = 3;

} // verus!
