//! What every surface of a scene can do.

use vstd::prelude::*;
use crate::hittable::HitRecord;
use crate::ray::Ray;
use crate::vec3::Color3;

verus! {

/// How a surface sends a ray on: the share of each colour channel that it
/// keeps, and the ray that leaves.
#[derive(Clone, Copy, Debug, PartialEq, Eq, Structural)]
pub struct Scatter {
    pub attenuation: Color3,
    pub scattered: Ray,
}

/// A surface that a ray can bounce off.
pub trait Material: Sized {
    /// How the surface sends on `ray`, which struck it as `rec` says; nothing
    /// where the ray is absorbed.
    fn scatter(&self, ray: &Ray, rec: &HitRecord<Self>) -> Option<Scatter>;
}

/// Whether `s` is what the surface `m` may do with `ray`, which struck it as
/// `rec` says.
pub open spec fn scatters<M: Material>(
    m: &M,
    ray: &Ray,
    rec: &HitRecord<M>,
    s: Option<Scatter>,
) -> bool {
    call_ensures(M::scatter, (m, ray, rec), s)
}

} // verus!
