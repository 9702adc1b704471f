//! Random choices.

use vstd::prelude::*;
use rand::Rng;
use crate::vec3::Axis;

verus! {

/// Draws an integer between `min` and `max`, both included, from the thread's
/// generator: `rand::thread_rng().gen_range(min..=max)`. The generator panics
/// on an empty range, so `min` may not exceed `max`; what it returns lies in the
/// range, and nothing else is known of it.
#[verifier::external_body]
pub(crate) fn random_int(min: i32, max: i32) -> (r: i32)
    requires
        min <= max,
    ensures
        min <= r <= max,
{
    rand::thread_rng().gen_range(min..=max)
}

/// Draws one of the three axes, each as likely as the others.
pub fn random_axis() -> (axis: Axis) {
    let i = random_int(0, 2);
    Axis::from_index(i as usize)
}

} // verus!
