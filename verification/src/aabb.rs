//! Axis-aligned bounding boxes.

use vstd::prelude::*;
use crate::vec3::{max_of, min_of, scalar_max, scalar_min, Scalar, Vec3};

verus! {

/// A box with faces perpendicular to the axes, given by two opposite corners.
#[derive(Clone, Copy, Debug, PartialEq, Eq, Structural)]
pub struct AABB {
    pub min: Vec3,
    pub max: Vec3,
}

impl AABB {
    /// Whether the corners are in order on every axis.
    pub open spec fn wf(self) -> bool {
        self.min.le(self.max)
    }

    /// Whether `other` lies inside `self`.
    pub open spec fn contains(self, other: AABB) -> bool {
        self.min.le(other.min) && other.max.le(self.max)
    }

    /// Whether the point `p` lies inside `self`.
    pub open spec fn contains_point(self, p: Vec3) -> bool {
        self.min.le(p) && p.le(self.max)
    }

    /// The smallest box around two boxes.
    pub open spec fn join(self, other: AABB) -> AABB {
        AABB { min: self.min.lower(other.min), max: self.max.upper(other.max) }
    }

    /// The union of two optional boxes: absent as soon as one of them is.
    pub open spec fn union_spec(box1: Option<AABB>, box2: Option<AABB>) -> Option<AABB> {
        match (box1, box2) {
            (Some(a), Some(b)) => Some(a.join(b)),
            _ => None,
        }
    }

    /// The box with corners `min` and `max`.
    pub fn new(min: Vec3, max: Vec3) -> (b: AABB)
        ensures
            b == (AABB { min, max }),
    {
        AABB { min, max }
    }

    /// The corner with the smallest coordinates.
    pub fn min(&self) -> (v: Vec3)
        ensures
            v == self.min,
    {
        self.min
    }

    /// The corner with the largest coordinates.
    pub fn max(&self) -> (v: Vec3)
        ensures
            v == self.max,
    {
        self.max
    }

    /// Joins two optional boxes.
    pub fn union(box1: Option<AABB>, box2: Option<AABB>) -> (r: Option<AABB>)
        ensures
            r == AABB::union_spec(box1, box2),
    {
        match (box1, box2) {
            (Some(a), Some(b)) => {
                let mins = Vec3::from_keys(
                    scalar_min(a.min.x, b.min.x),
                    scalar_min(a.min.y, b.min.y),
                    scalar_min(a.min.z, b.min.z),
                );
                let maxs = Vec3::from_keys(
                    scalar_max(a.max.x, b.max.x),
                    scalar_max(a.max.y, b.max.y),
                    scalar_max(a.max.z, b.max.z),
                );
                Some(AABB::new(mins, maxs))
            },
            _ => None,
        }
    }
}

/// Where a ray meets the two planes that bound a box along one axis.
#[derive(Clone, Copy, Debug, PartialEq, Eq, Structural)]
pub struct Crossing {
    /// The ray's parameter at the plane through the box's smallest corner.
    pub at_min: Scalar,
    /// The ray's parameter at the plane through the box's largest corner.
    pub at_max: Scalar,
    /// Whether the ray runs against the axis, and so meets the far plane first.
    pub backwards: bool,
}

impl Crossing {
    /// The parameter at which the ray gets between the two planes.
    pub open spec fn enter(self) -> Scalar {
        if self.backwards {
            self.at_max
        } else {
            self.at_min
        }
    }

    /// The parameter at which the ray leaves the two planes behind.
    pub open spec fn leave(self) -> Scalar {
        if self.backwards {
            self.at_min
        } else {
            self.at_max
        }
    }
}

/// The latest of `t_min` and the parameters at which the ray gets between the
/// planes of the first `k` axes.
pub open spec fn entry(crossings: Seq<Crossing>, k: int, t_min: Scalar) -> Scalar
    decreases k,
{
    if k <= 0 {
        t_min
    } else {
        max_of(crossings[k - 1].enter(), entry(crossings, k - 1, t_min))
    }
}

/// The earliest of `t_max` and the parameters at which the ray leaves the
/// planes of the first `k` axes.
pub open spec fn exit(crossings: Seq<Crossing>, k: int, t_max: Scalar) -> Scalar
    decreases k,
{
    if k <= 0 {
        t_max
    } else {
        min_of(crossings[k - 1].leave(), exit(crossings, k - 1, t_max))
    }
}

/// Taking more axes into account makes the entry no earlier and the exit no
/// later.
pub proof fn lemma_interval_narrows(
    crossings: Seq<Crossing>,
    j: int,
    k: int,
    t_min: Scalar,
    t_max: Scalar,
)
    requires
        0 <= j <= k,
    ensures
        entry(crossings, j, t_min) <= entry(crossings, k, t_min),
        exit(crossings, k, t_max) <= exit(crossings, j, t_max),
    decreases k - j,
{
    if j < k {
        lemma_interval_narrows(crossings, j, k - 1, t_min, t_max);
    }
}

/// Whether a ray that meets the planes of the three axes as `crossings` says is
/// inside the box at some parameter between `t_min` and `t_max`: the latest
/// entry comes before the earliest exit.
pub open spec fn passes(crossings: Seq<Crossing>, t_min: Scalar, t_max: Scalar) -> bool {
    entry(crossings, 3, t_min) < exit(crossings, 3, t_max)
}

/// A ray passes exactly when it gets between the planes of each axis, and
/// into the interval, before it leaves the planes of any axis, or the
/// interval: the order of the axes does not matter.
pub proof fn lemma_passes_when_entries_precede_exits(
    crossings: Seq<Crossing>,
    t_min: Scalar,
    t_max: Scalar,
)
    requires
        crossings.len() == 3,
    ensures
        passes(crossings, t_min, t_max) <==> {
            &&& t_min < t_max
            &&& forall|j: int| 0 <= j < 3 ==> t_min < (#[trigger] crossings[j]).leave()
            &&& forall|i: int| 0 <= i < 3 ==> (#[trigger] crossings[i]).enter() < t_max
            &&& forall|i: int, j: int|
                0 <= i < 3 && 0 <= j < 3 ==> (#[trigger] crossings[i]).enter() < (
                #[trigger] crossings[j]).leave()
        },
{
    reveal_with_fuel(entry, 4);
    reveal_with_fuel(exit, 4);
}

/// A ray that passes within an interval passes within every interval around
/// it.
pub proof fn lemma_passes_in_wider_interval(
    crossings: Seq<Crossing>,
    t_min: Scalar,
    t_max: Scalar,
    wider_min: Scalar,
    wider_max: Scalar,
)
    requires
        passes(crossings, t_min, t_max),
        wider_min <= t_min,
        t_max <= wider_max,
    ensures
        passes(crossings, wider_min, wider_max),
{
    reveal_with_fuel(entry, 4);
    reveal_with_fuel(exit, 4);
}

impl AABB {
    /// Whether a ray that meets the planes of the three axes as `crossings`
    /// says is inside the box at some parameter between `t_min` and `t_max`:
    /// the interval is narrowed axis by axis, and the ray misses as soon as
    /// nothing is left of it.
    pub fn hit(crossings: &[Crossing; 3], t_min: Scalar, t_max: Scalar) -> (inside: bool)
        ensures
            inside == passes(crossings@, t_min, t_max),
    {
        let mut lo = t_min;
        let mut hi = t_max;
        let mut axis: usize = 0;
        while axis < 3
            invariant
                axis <= 3,
                lo == entry(crossings@, axis as int, t_min),
                hi == exit(crossings@, axis as int, t_max),
                axis > 0 ==> lo < hi,
            decreases 3 - axis,
        {
            let c = crossings[axis];
            let (t0, t1) = if c.backwards {
                (c.at_max, c.at_min)
            } else {
                (c.at_min, c.at_max)
            };
            lo = scalar_max(t0, lo);
            hi = scalar_min(t1, hi);
            if hi <= lo {
                proof {
                    lemma_interval_narrows(crossings@, axis as int + 1, 3, t_min, t_max);
                }
                return false;
            }
            axis = axis + 1;
        }
        true
    }
}

/// The union of two boxes contains both, and is the smallest box that does.
pub proof fn lemma_union_contains(a: AABB, b: AABB)
    ensures
        AABB::union_spec(Some(a), Some(b)) == Some(a.join(b)),
        a.join(b).contains(a),
        a.join(b).contains(b),
        forall|c: AABB| c.contains(a) && c.contains(b) ==> c.contains(a.join(b)),
{
}

/// A union with an absent box is absent, whichever side the absent box is on.
pub proof fn lemma_union_absent(x: Option<AABB>)
    ensures
        AABB::union_spec(None, x) == None::<AABB>,
        AABB::union_spec(x, None) == None::<AABB>,
{
}

/// The union of two boxes whose corners are in order has its corners in order.
pub proof fn lemma_union_wf(a: AABB, b: AABB)
    requires
        a.wf(),
        b.wf(),
    ensures
        a.join(b).wf(),
{
}

/// Joining is idempotent, commutative and associative.
pub proof fn lemma_join_algebra(a: AABB, b: AABB, c: AABB)
    ensures
        a.join(a) == a,
        a.join(b) == b.join(a),
        a.join(b).join(c) == a.join(b.join(c)),
{
}

/// Containment is reflexive and transitive.
pub proof fn lemma_contains_order(a: AABB, b: AABB, c: AABB)
    ensures
        a.contains(a),
        a.contains(b) && b.contains(c) ==> a.contains(c),
{
}

} // verus!
