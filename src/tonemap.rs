use vstd::prelude::*;

verus! {

/// How linear radiance is brought into displayable range before gamma.
#[derive(Debug, Clone, Copy, PartialEq, Eq, Structural)]
pub enum ToneMappingMode {
    /// Leave each channel as it is.
    Identity,
    /// Reinhard's operator with an exposure and a white point.
    Reinhard,
}

} // verus!
