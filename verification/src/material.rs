use vstd::prelude::*;
use crate::color::Color;
use crate::SCALE;

verus! {

/// How a surface answers light. The two coefficients are fixed-point shares
/// of 1.0; what they leave is the diffuse share.
#[derive(Clone, Copy, Debug)]
pub struct Material {
    pub diffuse_color: Color,
    pub refraction_index: Option<i64>,
    pub specular_cof: i64,
    pub refraction_cof: i64,
}

impl Material {
    /// The shares do not exceed 1.0 together, and a surface that refracts
    /// has an index of refraction above 0.
    pub open spec fn well_formed(self) -> bool {
        &&& 0 <= self.specular_cof
        &&& 0 <= self.refraction_cof
        &&& self.specular_cof + self.refraction_cof <= SCALE
        &&& self.refraction_cof > 0 ==> (self.refraction_index matches Some(index) && index > 0)
    }
}

} // verus!
