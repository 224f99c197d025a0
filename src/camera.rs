use vstd::prelude::*;

verus! {

/// Shape of the camera's aperture, from which depth-of-field rays start.
#[derive(Debug, Clone, Copy, PartialEq, Eq, Structural)]
pub enum LensShape {
    Square,
    Circle,
}

} // verus!
