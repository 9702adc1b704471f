//! The box around a triangle.

use vstd::prelude::*;
use crate::aabb::AABB;
use crate::vec3::{scalar_max, scalar_min, Point3, Vec3};

verus! {

/// The box whose only point is `p`.
pub open spec fn point_box(p: Point3) -> AABB {
    AABB { min: p, max: p }
}

/// The smallest box around three points.
pub open spec fn box_around(v0: Point3, v1: Point3, v2: Point3) -> AABB {
    point_box(v0).join(point_box(v1)).join(point_box(v2))
}

/// The box around the triangle with the corners `v0`, `v1` and `v2`: on every
/// axis, from the smallest of the three coordinates to the largest.
pub fn bounding_box(v0: &Point3, v1: &Point3, v2: &Point3) -> (r: Option<AABB>)
    ensures
        r == Some(box_around(*v0, *v1, *v2)),
{
    let x_min = scalar_min(scalar_min(v0.x, v1.x), v2.x);
    let y_min = scalar_min(scalar_min(v0.y, v1.y), v2.y);
    let z_min = scalar_min(scalar_min(v0.z, v1.z), v2.z);
    let x_max = scalar_max(scalar_max(v0.x, v1.x), v2.x);
    let y_max = scalar_max(scalar_max(v0.y, v1.y), v2.y);
    let z_max = scalar_max(scalar_max(v0.z, v1.z), v2.z);
    Some(AABB::new(Vec3::from_keys(x_min, y_min, z_min), Vec3::from_keys(x_max, y_max, z_max)))
}

/// The box around a triangle has its corners in order, holds the triangle's
/// three corners, and lies inside every box that holds them.
pub proof fn lemma_box_around(v0: Point3, v1: Point3, v2: Point3)
    ensures
        box_around(v0, v1, v2).wf(),
        box_around(v0, v1, v2).contains_point(v0),
        box_around(v0, v1, v2).contains_point(v1),
        box_around(v0, v1, v2).contains_point(v2),
        forall|b: AABB|
            b.contains_point(v0) && b.contains_point(v1) && b.contains_point(v2) ==> b.contains(
                box_around(v0, v1, v2),
            ),
{
}

} // verus!
