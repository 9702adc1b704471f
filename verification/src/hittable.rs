//! What every shape of a scene can do, and what a probe of one reports.

use vstd::prelude::*;
use crate::aabb::AABB;
use crate::ray::Ray;
use crate::vec3::{Point3, Scalar, Vec3};

verus! {

/// Where and how a ray struck a surface.
#[derive(Debug)]
pub struct HitRecord<M> {
    /// The point that was struck.
    pub p: Point3,
    /// The unit normal there, turned against the ray.
    pub normal: Vec3,
    /// The ray's parameter at the point.
    pub t: Scalar,
    /// Whether the ray came from outside the surface.
    pub front_face: bool,
    /// What the surface is made of.
    pub material: M,
}

impl<M: Clone> Clone for HitRecord<M> {
    /// A record of the same hit, with a clone of the material.
    fn clone(&self) -> (r: Self)
        ensures
            r.p == self.p,
            r.normal == self.normal,
            r.t == self.t,
            r.front_face == self.front_face,
            cloned(self.material, r.material),
    {
        HitRecord {
            p: self.p,
            normal: self.normal,
            t: self.t,
            front_face: self.front_face,
            material: self.material.clone(),
        }
    }
}

impl<M: Copy> Copy for HitRecord<M> {}

/// A shape that a ray can strike.
pub trait Hittable {
    /// What the shape's surface is made of.
    type Mat;

    /// Where `ray` strikes the shape with a parameter between `min` and `max`,
    /// if it does.
    fn hit(&self, ray: &Ray, min: Scalar, max: Scalar) -> (r: Option<HitRecord<Self::Mat>>)
        ensures
            r matches Some(h) ==> min <= h.t <= max,
    ;

    /// A box around the shape, if it has one.
    fn bounding_box(&self) -> Option<AABB>;
}

/// Whether `r` is what `h` may report for `ray` between `min` and `max`.
pub open spec fn answers<H: Hittable>(
    h: &H,
    ray: &Ray,
    min: Scalar,
    max: Scalar,
    r: Option<HitRecord<H::Mat>>,
) -> bool {
    call_ensures(H::hit, (h, ray, min, max), r)
}

/// Whether `b` is what `h` may report as its bounding box.
pub open spec fn bounded_by<H: Hittable>(h: &H, b: Option<AABB>) -> bool {
    call_ensures(H::bounding_box, (h,), b)
}

/// How far a probe still has to look once `best` was found: up to `best`, or up
/// to `max` where nothing was found.
pub open spec fn reach<M>(best: Option<HitRecord<M>>, max: Scalar) -> Scalar {
    match best {
        Some(h) => h.t,
        None => max,
    }
}

/// The later of two reports where it holds a hit, else the earlier.
pub open spec fn latest<M>(earlier: Option<HitRecord<M>>, later: Option<HitRecord<M>>) -> Option<
    HitRecord<M>,
> {
    if later is Some {
        later
    } else {
        earlier
    }
}

/// A report cut off at `max`: the report itself where it holds a hit no
/// farther than `max`, else none.
pub open spec fn within<M>(r: Option<HitRecord<M>>, max: Scalar) -> Option<HitRecord<M>> {
    match r {
        Some(h) => if h.t <= max {
            r
        } else {
            None
        },
        None => None,
    }
}

/// Whether two reports agree on whether there is a hit and how far it is.
pub open spec fn same_distance<M>(a: Option<HitRecord<M>>, b: Option<HitRecord<M>>) -> bool {
    match (a, b) {
        (Some(x), Some(y)) => x.t == y.t,
        (None, None) => true,
        _ => false,
    }
}

/// Whether `h` reports `first` first: whatever upper bound it is probed with,
/// it reports `first` where that lies within the bound, and nothing otherwise.
pub open spec fn reports_first<H: Hittable>(
    h: &H,
    ray: &Ray,
    min: Scalar,
    first: Option<HitRecord<H::Mat>>,
) -> bool {
    forall|max: Scalar, r: Option<HitRecord<H::Mat>>| #[trigger]
        answers(h, ray, min, max, r) ==> r == within(first, max)
}

/// Whether `h` reports its nearest hit first: there is one hit, or none, that
/// it reports under every upper bound that admits it.
pub open spec fn closest_first<H: Hittable>(h: &H, ray: &Ray, min: Scalar) -> bool {
    exists|first: Option<HitRecord<H::Mat>>| reports_first(h, ray, min, first)
}

/// What `h`, reporting its nearest hit first, reports for `ray` from `min` on.
pub open spec fn first_hit<H: Hittable>(h: &H, ray: &Ray, min: Scalar) -> Option<
    HitRecord<H::Mat>,
> {
    choose|first: Option<HitRecord<H::Mat>>| reports_first(h, ray, min, first)
}

/// What is kept of `prev` and of `cur`, looked for after it: `cur` where it is
/// no farther than `prev`.
pub open spec fn nearer<M>(prev: Option<HitRecord<M>>, cur: Option<HitRecord<M>>) -> Option<
    HitRecord<M>,
> {
    match (prev, cur) {
        (Some(p), Some(c)) => if c.t <= p.t {
            cur
        } else {
            prev
        },
        (None, _) => cur,
        (_, None) => prev,
    }
}

/// The nearest of the first hits of `prims`, and of equally near ones the one
/// of the object that stands last.
pub open spec fn nearest<H: Hittable>(prims: Seq<H>, ray: &Ray, min: Scalar) -> Option<
    HitRecord<H::Mat>,
>
    decreases prims.len(),
{
    if prims.len() == 0 {
        None
    } else {
        nearer(nearest(prims.drop_last(), ray, min), first_hit(&prims.last(), ray, min))
    }
}

/// Whether `r` is a nearest hit among the objects numbered in `among`: a first
/// hit of one of them that lies within `max`, with none of the others' first
/// hits nearer; or nothing, where no first hit lies within `max`.
pub open spec fn is_closest<H: Hittable>(
    objects: Seq<H>,
    among: Set<int>,
    ray: &Ray,
    min: Scalar,
    max: Scalar,
    r: Option<HitRecord<H::Mat>>,
) -> bool {
    match r {
        Some(h) => {
            &&& h.t <= max
            &&& exists|i: int| among.contains(i) && #[trigger] first_hit(&objects[i], ray, min) == r
            &&& forall|i: int|
                among.contains(i) ==> (#[trigger] within(first_hit(&objects[i], ray, min), max)
                    matches Some(other) ==> h.t <= other.t)
        },
        None => forall|i: int|
            among.contains(i) ==> #[trigger] within(first_hit(&objects[i], ray, min), max) is None,
    }
}

/// Two nearest hits among the same objects are equally far.
pub proof fn lemma_closest_is_unique<H: Hittable>(
    objects: Seq<H>,
    among: Set<int>,
    ray: &Ray,
    min: Scalar,
    max: Scalar,
    a: Option<HitRecord<H::Mat>>,
    b: Option<HitRecord<H::Mat>>,
)
    requires
        is_closest(objects, among, ray, min, max, a),
        is_closest(objects, among, ray, min, max, b),
    ensures
        same_distance(a, b),
{
    if let Some(x) = a {
        let i = choose|i: int| among.contains(i) && #[trigger] first_hit(&objects[i], ray, min) == a;
        assert(within(first_hit(&objects[i], ray, min), max) == a);
    }
    if let Some(y) = b {
        let j = choose|j: int| among.contains(j) && #[trigger] first_hit(&objects[j], ray, min) == b;
        assert(within(first_hit(&objects[j], ray, min), max) == b);
    }
}

/// Whether a scan that had found `prev`, and whose next object `next` then
/// reported `cur`, goes on with `r`.
pub open spec fn scan_step<H: Hittable>(
    next: &H,
    ray: &Ray,
    min: Scalar,
    max: Scalar,
    prev: Option<HitRecord<H::Mat>>,
    cur: Option<HitRecord<H::Mat>>,
    r: Option<HitRecord<H::Mat>>,
) -> bool {
    answers(next, ray, min, reach(prev, max), cur) && r == latest(prev, cur)
}

/// What a scan of `prims` from first to last may report: each object is probed
/// no farther than the nearest hit found before it, and the last hit found is
/// kept.
pub open spec fn scan_outcome<H: Hittable>(
    prims: Seq<H>,
    ray: &Ray,
    min: Scalar,
    max: Scalar,
    r: Option<HitRecord<H::Mat>>,
) -> bool
    decreases prims.len(),
{
    if prims.len() == 0 {
        r is None
    } else {
        exists|prev: Option<HitRecord<H::Mat>>, cur: Option<HitRecord<H::Mat>>|
            scan_outcome(prims.drop_last(), ray, min, max, prev) && #[trigger] scan_step(
                &prims.last(),
                ray,
                min,
                max,
                prev,
                cur,
                r,
            )
    }
}

/// Probes every object of `prims` in turn and keeps the nearest hit.
pub fn closest_hit<H: Hittable>(prims: &Vec<H>, ray: &Ray, min: Scalar, max: Scalar) -> (r: Option<
    HitRecord<H::Mat>,
>)
    ensures
        scan_outcome(prims@, ray, min, max, r),
        r matches Some(h) ==> min <= h.t <= max,
{
    let mut best: Option<HitRecord<H::Mat>> = None;
    let mut closest = max;
    let mut i: usize = 0;
    while i < prims.len()
        invariant
            i <= prims@.len(),
            scan_outcome(prims@.take(i as int), ray, min, max, best),
            closest == reach(best, max),
            best matches Some(h) ==> min <= h.t <= max,
        decreases prims@.len() - i,
    {
        let ghost prev = best;
        let cur = prims[i].hit(ray, min, closest);
        let ghost seen = cur;
        if let Some(h) = cur {
            closest = h.t;
            best = Some(h);
        }
        proof {
            let next = prims@.take(i as int + 1);
            assert(next.drop_last() =~= prims@.take(i as int));
            assert(next.last() == prims@[i as int]);
            assert(scan_step(&next.last(), ray, min, max, prev, seen, best));
        }
        i = i + 1;
    }
    proof {
        assert(prims@.take(i as int) =~= prims@);
    }
    best
}

/// A scan reports a nearest hit among all the objects it went through, as long
/// as each of them reports its nearest hit first.
pub proof fn lemma_scan_finds_closest<H: Hittable>(
    prims: Seq<H>,
    ray: &Ray,
    min: Scalar,
    max: Scalar,
    r: Option<HitRecord<H::Mat>>,
)
    requires
        forall|i: int| 0 <= i < prims.len() ==> closest_first(&#[trigger] prims[i], ray, min),
        scan_outcome(prims, ray, min, max, r),
    ensures
        is_closest(prims, Set::new(|i: int| 0 <= i < prims.len()), ray, min, max, r),
    decreases prims.len(),
{
    let all = Set::new(|i: int| 0 <= i < prims.len());
    if prims.len() > 0 {
        let (prev, cur) = choose|
            prev: Option<HitRecord<H::Mat>>,
            cur: Option<HitRecord<H::Mat>>,
        |
            scan_outcome(prims.drop_last(), ray, min, max, prev) && #[trigger] scan_step(
                &prims.last(),
                ray,
                min,
                max,
                prev,
                cur,
                r,
            );
        let front = prims.drop_last();
        let before = Set::new(|i: int| 0 <= i < front.len());
        let last = prims.len() - 1;
        assert forall|i: int| 0 <= i < front.len() implies closest_first(
            &#[trigger] front[i],
            ray,
            min,
        ) by {
            assert(front[i] == prims[i]);
        }
        lemma_scan_finds_closest(front, ray, min, max, prev);
        assert(closest_first(&prims[last], ray, min));
        assert(prims.last() == prims[last]);
        assert(cur == within(first_hit(&prims[last], ray, min), reach(prev, max)));
        assert(forall|i: int| before.contains(i) ==> front[i] == prims[i]);
        assert(forall|i: int| all.contains(i) <==> before.contains(i) || i == last);
        match r {
            Some(h) => {
                if cur is Some {
                    assert(all.contains(last) && first_hit(&prims[last], ray, min) == r);
                } else {
                    let j = choose|j: int|
                        before.contains(j) && #[trigger] first_hit(&front[j], ray, min) == prev;
                    assert(all.contains(j) && first_hit(&prims[j], ray, min) == r);
                }
                assert forall|i: int| all.contains(i) implies (#[trigger] within(
                    first_hit(&prims[i], ray, min),
                    max,
                ) matches Some(other) ==> h.t <= other.t) by {
                    if i != last {
                        assert(before.contains(i));
                        assert(front[i] == prims[i]);
                    }
                }
            },
            None => {
                assert forall|i: int| all.contains(i) implies #[trigger] within(
                    first_hit(&prims[i], ray, min),
                    max,
                ) is None by {
                    if i != last {
                        assert(before.contains(i));
                        assert(front[i] == prims[i]);
                    }
                }
            },
        }
    }
}

/// A scan of objects that report their nearest hit first reports the nearest
/// of their first hits under every upper bound that admits it, and nothing
/// otherwise: the scan itself reports its nearest hit first.
pub proof fn lemma_scan_reports_first<H: Hittable>(
    prims: Seq<H>,
    ray: &Ray,
    min: Scalar,
    max: Scalar,
    r: Option<HitRecord<H::Mat>>,
)
    requires
        forall|i: int| 0 <= i < prims.len() ==> closest_first(&#[trigger] prims[i], ray, min),
        scan_outcome(prims, ray, min, max, r),
    ensures
        r == within(nearest(prims, ray, min), max),
    decreases prims.len(),
{
    if prims.len() > 0 {
        let (prev, cur) = choose|
            prev: Option<HitRecord<H::Mat>>,
            cur: Option<HitRecord<H::Mat>>,
        |
            scan_outcome(prims.drop_last(), ray, min, max, prev) && #[trigger] scan_step(
                &prims.last(),
                ray,
                min,
                max,
                prev,
                cur,
                r,
            );
        let front = prims.drop_last();
        let last = prims.len() - 1;
        assert forall|i: int| 0 <= i < front.len() implies closest_first(
            &#[trigger] front[i],
            ray,
            min,
        ) by {
            assert(front[i] == prims[i]);
        }
        lemma_scan_reports_first(front, ray, min, max, prev);
        assert(closest_first(&prims[last], ray, min));
        assert(prims.last() == prims[last]);
        assert(cur == within(first_hit(&prims[last], ray, min), reach(prev, max)));
    }
}

} // verus!
