use vstd::prelude::*;
use crate::vector::Vec3;

verus! {

/// Where the viewer stands and looks: a point, two directions, and the
/// viewing angle in degrees.
#[derive(Clone, Copy, Debug, PartialEq, Eq, Structural)]
pub struct Camera {
    pub origin: Vec3,
    pub forward: Vec3,
    pub up: Vec3,
    pub fov: i64,
}

} // verus!
