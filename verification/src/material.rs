//! Surface materials: a base colour and weights for the diffuse, specular
//! and mirror-reflection contributions.

use vstd::prelude::*;
use crate::vec3::{Vec3, bv};

verus! {

/// How a surface responds to light. `diffuse_colour` is a colour triple,
/// `albedo.x` weights the diffuse term, `albedo.y` the specular highlight and
/// `albedo.z` the recursively traced reflection; the weights need not sum to
/// one. `specular_exponent` is a plain integer sharpness exponent, not a raw
/// fixed-point scalar.
#[derive(Clone, Copy, Debug)]
pub struct Material {
    pub diffuse_colour: Vec3,
    pub specular_exponent: i64,
    pub albedo: Vec3,
}

/// Well-formed material: colour channels within four whole units, albedo
/// weights within sixteen whole units, all nonnegative.
pub open spec fn wf_material(m: Material) -> bool {
    &&& bv(m.diffuse_colour@, 0x40000)
    &&& m.diffuse_colour@.x >= 0
    &&& m.diffuse_colour@.y >= 0
    &&& m.diffuse_colour@.z >= 0
    &&& bv(m.albedo@, 0x100000)
    &&& m.albedo@.x >= 0
    &&& m.albedo@.y >= 0
    &&& m.albedo@.z >= 0
    &&& m.specular_exponent >= 0
}

impl Material {
    pub fn new(diffuse_colour: Vec3, specular_exponent: i64, albedo: Vec3) -> (r: Material)
        ensures
            r.diffuse_colour == diffuse_colour,
            r.specular_exponent == specular_exponent,
            r.albedo == albedo,
    {
        Material { diffuse_colour, specular_exponent, albedo }
    }
}

} // verus!
