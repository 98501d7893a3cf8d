//! Point light sources.

use vstd::prelude::*;
use crate::vec3::{Vec3, bv};

verus! {

/// A point light: a position and a scalar intensity.
#[derive(Clone, Copy, Debug)]
pub struct Light {
    pub position: Vec3,
    pub intensity: i64,
}

/// Well-formed light: position within the scene volume, positive bounded
/// intensity.
pub open spec fn wf_light(l: Light) -> bool {
    &&& bv(l.position@, 0x4000000)
    &&& 0 < l.intensity <= 0x4000000
}

impl Light {
    pub fn new(position: Vec3, intensity: i64) -> (r: Light)
        ensures
            r.position == position,
            r.intensity == intensity,
    {
        Light { position, intensity }
    }
}

} // verus!
