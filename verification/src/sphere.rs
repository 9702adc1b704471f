//! Which of a sphere's two crossings counts.

use vstd::prelude::*;
use crate::vec3::Scalar;

verus! {

/// Of the two parameters at which a ray crosses a sphere, the nearer one where
/// it lies between `min` and `max`, else the farther one where that does, else
/// none.
pub open spec fn root_within(near: Scalar, far: Scalar, min: Scalar, max: Scalar) -> Option<
    Scalar,
> {
    if min <= near <= max {
        Some(near)
    } else if min <= far <= max {
        Some(far)
    } else {
        None
    }
}

/// Picks the crossing that counts: the nearer root first, then the farther.
pub fn select_root(near: Scalar, far: Scalar, min: Scalar, max: Scalar) -> (root: Option<Scalar>)
    ensures
        root == root_within(near, far, min, max),
{
    let mut root = near;
    if root < min || root > max {
        root = far;
        if root < min || root > max {
            return None;
        }
    }
    Some(root)
}

/// With the roots in order, the crossing that counts under an upper bound is
/// the one that counts without a bound, as long as it lies within the bound:
/// a sphere reports its nearest hit first.
pub proof fn lemma_nearest_root_first(near: Scalar, far: Scalar, min: Scalar, max: Scalar)
    requires
        near <= far,
    ensures
        root_within(near, far, min, max) == (match root_within(near, far, min, Scalar::MAX) {
            Some(t) => if t <= max {
                Some(t)
            } else {
                None
            },
            None => None,
        }),
{
}

} // verus!
