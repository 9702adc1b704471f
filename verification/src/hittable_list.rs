//! A flat collection of shapes.

use vstd::prelude::*;
use crate::aabb::AABB;
use crate::hittable::{
    answers, bounded_by, closest_first, closest_hit, lemma_scan_reports_first, nearest,
    reports_first, scan_outcome, within, HitRecord, Hittable,
};
use crate::ray::Ray;
use crate::vec3::Scalar;

verus! {

/// Shapes in the order they were added.
pub struct HittableList<H> {
    list: Vec<H>,
}

impl<H> View for HittableList<H> {
    type V = Seq<H>;

    closed spec fn view(&self) -> Seq<H> {
        self.list@
    }
}

impl<H> HittableList<H> {
    /// The empty collection.
    pub fn new() -> (l: Self)
        ensures
            l@ == Seq::<H>::empty(),
    {
        HittableList { list: Vec::new() }
    }

    /// Adds `h` at the end.
    pub fn add(&mut self, h: H)
        ensures
            final(self)@ == old(self)@.push(h),
    {
        self.list.push(h);
    }

    /// How many shapes there are.
    pub fn len(&self) -> (n: usize)
        ensures
            n == self@.len(),
    {
        self.list.len()
    }

    /// The shapes, as a vector.
    pub fn into_vec(self) -> (v: Vec<H>)
        ensures
            v@ == self@,
    {
        self.list
    }
}

/// What joining the boxes of `prims` from first to last may give: the union of
/// what each object reports, absent where one reports none or there is no
/// object.
pub open spec fn boxes_outcome<H: Hittable>(prims: Seq<H>, r: Option<AABB>) -> bool
    decreases prims.len(),
{
    if prims.len() == 0 {
        r is None
    } else if prims.len() == 1 {
        bounded_by(&prims[0], r)
    } else {
        exists|front: Option<AABB>, last: Option<AABB>|
            boxes_outcome(prims.drop_last(), front) && bounded_by(&prims.last(), last)
                && #[trigger] AABB::union_spec(front, last) == r
    }
}

/// Joins the boxes of all of `prims`.
pub fn bounding_box_of<H: Hittable>(prims: &Vec<H>) -> (r: Option<AABB>)
    ensures
        boxes_outcome(prims@, r),
{
    if prims.len() == 0 {
        return None;
    }
    let mut joined = prims[0].bounding_box();
    proof {
        assert(prims@.take(1)[0] == prims@[0]);
    }
    let mut i: usize = 1;
    while i < prims.len()
        invariant
            1 <= i <= prims@.len(),
            boxes_outcome(prims@.take(i as int), joined),
        decreases prims@.len() - i,
    {
        let ghost front = joined;
        let next = prims[i].bounding_box();
        joined = AABB::union(joined, next);
        proof {
            let now = prims@.take(i as int + 1);
            assert(now.drop_last() =~= prims@.take(i as int));
            assert(now.last() == prims@[i as int]);
            assert(AABB::union_spec(front, next) == joined);
        }
        i = i + 1;
    }
    proof {
        assert(prims@.take(i as int) =~= prims@);
    }
    joined
}

/// Whether `h` may report a box that lies inside `around`.
pub open spec fn boxed_inside<H: Hittable>(h: &H, around: AABB) -> bool {
    exists|b: AABB| #[trigger] bounded_by(h, Some(b)) && around.contains(b)
}

/// The box that joining the boxes of `prims` gives contains a box that each
/// of them reported.
pub proof fn lemma_joined_box_is_around<H: Hittable>(prims: Seq<H>, joined: AABB)
    requires
        boxes_outcome(prims, Some(joined)),
    ensures
        forall|i: int| 0 <= i < prims.len() ==> boxed_inside(&#[trigger] prims[i], joined),
    decreases prims.len(),
{
    if prims.len() == 1 {
        assert(bounded_by(&prims[0], Some(joined)) && joined.contains(joined));
    } else if prims.len() > 1 {
        let (front, last) = choose|front: Option<AABB>, last: Option<AABB>|
            boxes_outcome(prims.drop_last(), front) && bounded_by(&prims.last(), last)
                && #[trigger] AABB::union_spec(front, last) == Some(joined);
        let rest = prims.drop_last();
        lemma_joined_box_is_around(rest, front.unwrap());
        assert forall|i: int| 0 <= i < prims.len() implies boxed_inside(
            &#[trigger] prims[i],
            joined,
        ) by {
            if i < rest.len() {
                assert(rest[i] == prims[i]);
                assert(boxed_inside(&rest[i], front.unwrap()));
                let b = choose|b: AABB|
                    #[trigger] bounded_by(&rest[i], Some(b)) && front.unwrap().contains(b);
                assert(bounded_by(&prims[i], Some(b)) && joined.contains(b));
            } else {
                assert(prims[i] == prims.last());
                assert(bounded_by(&prims[i], Some(last.unwrap())) && joined.contains(
                    last.unwrap(),
                ));
            }
        }
    }
}

impl<H: Hittable> Hittable for HittableList<H> {
    type Mat = H::Mat;

    /// The nearest hit among the shapes, each probed no farther than the
    /// nearest found before it.
    fn hit(&self, ray: &Ray, min: Scalar, max: Scalar) -> (r: Option<HitRecord<H::Mat>>)
        ensures
            scan_outcome(self@, ray, min, max, r),
    {
        closest_hit(&self.list, ray, min, max)
    }

    /// The union of the boxes of all shapes; none where the collection is
    /// empty or a shape has none.
    fn bounding_box(&self) -> (r: Option<AABB>)
        ensures
            boxes_outcome(self@, r),
    {
        bounding_box_of(&self.list)
    }
}

/// A collection of shapes that report their nearest hit first reports its
/// nearest hit first: the nearest of theirs.
pub proof fn lemma_list_is_closest_first<H: Hittable>(l: &HittableList<H>, ray: &Ray, min: Scalar)
    requires
        forall|i: int| 0 <= i < l@.len() ==> closest_first(&#[trigger] l@[i], ray, min),
    ensures
        reports_first(l, ray, min, nearest(l@, ray, min)),
        closest_first(l, ray, min),
{
    assert forall|max: Scalar, r: Option<HitRecord<H::Mat>>| #[trigger]
        answers(l, ray, min, max, r) implies r == within(nearest(l@, ray, min), max) by {
        lemma_scan_reports_first(l@, ray, min, max, r);
    }
}

} // verus!
