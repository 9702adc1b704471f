//! Sending a ray through the tree of a hierarchy.

use vstd::prelude::*;
use crate::aabb::AABB;
use crate::bvh::tree::{
    count_up, lemma_boxes_are_around, lemma_built_covers, lemma_leaves_are_objects, lists, Tree,
};
use crate::hittable::{
    answers, closest_first, first_hit, is_closest, latest, lemma_closest_is_unique,
    lemma_scan_finds_closest, nearer, reach, same_distance, scan_outcome, within, HitRecord,
    Hittable,
};
use crate::ray::Ray;
use crate::vec3::{Axis, Scalar};

verus! {

/// The question a hierarchy asks on its way down: does the ray pass through
/// this box while its parameter is between `t_min` and `t_max`?
pub trait SlabTest {
    /// Whether `ray` passes through `bb` between `t_min` and `t_max`.
    fn hit(&self, bb: &AABB, ray: &Ray, t_min: Scalar, t_max: Scalar) -> bool;
}

/// Whether `b` is what `slab` may say of `bb` and `ray` between `min` and `max`.
pub open spec fn admits<S: SlabTest>(
    slab: &S,
    bb: &AABB,
    ray: &Ray,
    min: Scalar,
    max: Scalar,
    b: bool,
) -> bool {
    call_ensures(S::hit, (slab, bb, ray, min, max), b)
}

/// What a walk through the tree `t` may report. A leaf reports what its object
/// does. A node whose box the ray misses reports nothing; otherwise the left
/// subtree is walked, then the right one no farther than what the left one
/// found, and the later hit is kept.
pub open spec fn walk_outcome<H: Hittable, S: SlabTest>(
    t: Tree,
    objects: Seq<H>,
    slab: &S,
    ray: &Ray,
    min: Scalar,
    max: Scalar,
    out: Option<HitRecord<H::Mat>>,
) -> bool
    decreases t,
{
    match t {
        Tree::Leaf { index } => answers(&objects[index as int], ray, min, max, out),
        Tree::Node { left, right, bb } => {
            ||| admits(slab, &bb, ray, min, max, false) && out is None
            ||| admits(slab, &bb, ray, min, max, true) && exists|
                l: Option<HitRecord<H::Mat>>,
                r: Option<HitRecord<H::Mat>>,
            |
                walk_outcome(*left, objects, slab, ray, min, max, l) && walk_outcome(
                    *right,
                    objects,
                    slab,
                    ray,
                    min,
                    reach(l, max),
                    r,
                ) && #[trigger] both(l, r, out)
        },
    }
}

/// Whether `out` is what is kept of `l`, found first, and `r`, found after it.
pub open spec fn both<M>(
    l: Option<HitRecord<M>>,
    r: Option<HitRecord<M>>,
    out: Option<HitRecord<M>>,
) -> bool {
    out == latest(l, r)
}

/// Sends `ray` through the tree `t`.
pub(crate) fn walk<H: Hittable, S: SlabTest>(
    t: &Tree,
    objects: &Vec<H>,
    slab: &S,
    ray: &Ray,
    min: Scalar,
    max: Scalar,
) -> (out: Option<HitRecord<H::Mat>>)
    requires
        t.wf(objects.len() as int),
    ensures
        walk_outcome(*t, objects@, slab, ray, min, max, out),
        out matches Some(h) ==> min <= h.t <= max,
    decreases t,
{
    match t {
        Tree::Leaf { index } => objects[*index].hit(ray, min, max),
        Tree::Node { left, right, bb } => {
            if !slab.hit(bb, ray, min, max) {
                return None;
            }
            let hit_left = walk(left, objects, slab, ray, min, max);
            let r_max = match &hit_left {
                Some(h) => h.t,
                None => max,
            };
            let hit_right = walk(right, objects, slab, ray, min, r_max);
            proof {
                assert(both(hit_left, hit_right, latest(hit_left, hit_right)));
            }
            if hit_right.is_some() {
                hit_right
            } else {
                hit_left
            }
        },
    }
}

/// Whether no box of the tree turns away a ray that strikes an object below
/// it: wherever an object's first hit lies within the bound the box is tested
/// with, the test does not say that the box is missed.
pub open spec fn prunes_safely<H: Hittable, S: SlabTest>(
    t: Tree,
    objects: Seq<H>,
    slab: &S,
    ray: &Ray,
    min: Scalar,
) -> bool
    decreases t,
{
    match t {
        Tree::Leaf { index } => true,
        Tree::Node { left, right, bb } => {
            &&& prunes_safely(*left, objects, slab, ray, min)
            &&& prunes_safely(*right, objects, slab, ray, min)
            &&& forall|max: Scalar, i: int|
                t.leaves().contains(i) && (#[trigger] within(
                    first_hit(&objects[i], ray, min),
                    max,
                )) is Some ==> !admits(slab, &bb, ray, min, max, false)
        },
    }
}

/// Whether the test lets a ray into the box of every object that the ray
/// strikes: wherever an object's first hit lies within the bound, the test does
/// not say that the object's own box is missed.
pub open spec fn admits_what_is_struck<H: Hittable, S: SlabTest>(
    objects: Seq<H>,
    boxes: Seq<AABB>,
    slab: &S,
    ray: &Ray,
    min: Scalar,
) -> bool {
    forall|max: Scalar, i: int|
        0 <= i < objects.len() && (#[trigger] within(first_hit(&objects[i], ray, min), max))
            is Some ==> !admits(slab, &boxes[i], ray, min, max, false)
}

/// Whether the test lets a ray into every box around a box that it lets the
/// ray into.
pub open spec fn admits_what_is_around<S: SlabTest>(slab: &S, ray: &Ray, min: Scalar) -> bool {
    forall|inner: AABB, outer: AABB, max: Scalar|
        outer.contains(inner) && !(#[trigger] admits(slab, &inner, ray, min, max, false))
            ==> !(#[trigger] admits(slab, &outer, ray, min, max, false))
}

/// In a hierarchy no box turns away a ray that strikes an object below it, as
/// long as the test lets a ray into the box of every object that it strikes,
/// and into every box around a box that it lets the ray into: every box of a
/// hierarchy is around the boxes of the objects below it.
pub proof fn lemma_built_prunes_safely<H: Hittable, S: SlabTest>(
    t: Tree,
    objects: Seq<H>,
    boxes: Seq<AABB>,
    slab: &S,
    ray: &Ray,
    min: Scalar,
)
    requires
        boxes.len() == objects.len(),
        t.wf(objects.len() as int),
        t.boxed(boxes),
        admits_what_is_struck(objects, boxes, slab, ray, min),
        admits_what_is_around(slab, ray, min),
    ensures
        prunes_safely(t, objects, slab, ray, min),
    decreases t,
{
    match t {
        Tree::Leaf { index } => {},
        Tree::Node { left, right, bb } => {
            lemma_built_prunes_safely(*left, objects, boxes, slab, ray, min);
            lemma_built_prunes_safely(*right, objects, boxes, slab, ray, min);
            lemma_boxes_are_around(t, boxes);
            assert forall|max: Scalar, i: int|
                t.leaves().contains(i) && (#[trigger] within(
                    first_hit(&objects[i], ray, min),
                    max,
                )) is Some implies !admits(slab, &bb, ray, min, max, false) by {
                lemma_leaves_are_objects(t, objects.len() as int);
                assert(bb.contains(boxes[i]));
                assert(!admits(slab, &boxes[i], ray, min, max, false));
            }
        },
    }
}

/// A walk through a tree reports a nearest hit among the objects at its leaves,
/// as long as each of them reports its nearest hit first and no box turns away
/// a ray that strikes an object below it.
pub proof fn lemma_walk_finds_closest<H: Hittable, S: SlabTest>(
    t: Tree,
    objects: Seq<H>,
    slab: &S,
    ray: &Ray,
    min: Scalar,
    max: Scalar,
    out: Option<HitRecord<H::Mat>>,
)
    requires
        t.wf(objects.len() as int),
        forall|i: int| 0 <= i < objects.len() ==> closest_first(&#[trigger] objects[i], ray, min),
        prunes_safely(t, objects, slab, ray, min),
        walk_outcome(t, objects, slab, ray, min, max, out),
    ensures
        is_closest(objects, t.leaves(), ray, min, max, out),
    decreases t,
{
    match t {
        Tree::Leaf { index } => {
            let i = index as int;
            assert(closest_first(&objects[i], ray, min));
            assert(out == within(first_hit(&objects[i], ray, min), max));
            assert(t.leaves().contains(i));
        },
        Tree::Node { left, right, bb } => {
            if admits(slab, &bb, ray, min, max, true) && exists|
                l: Option<HitRecord<H::Mat>>,
                r: Option<HitRecord<H::Mat>>,
            |
                walk_outcome(*left, objects, slab, ray, min, max, l) && walk_outcome(
                    *right,
                    objects,
                    slab,
                    ray,
                    min,
                    reach(l, max),
                    r,
                ) && #[trigger] both(l, r, out) {
                let (l, r) = choose|
                    l: Option<HitRecord<H::Mat>>,
                    r: Option<HitRecord<H::Mat>>,
                |
                    walk_outcome(*left, objects, slab, ray, min, max, l) && walk_outcome(
                        *right,
                        objects,
                        slab,
                        ray,
                        min,
                        reach(l, max),
                        r,
                    ) && #[trigger] both(l, r, out);
                lemma_walk_finds_closest(*left, objects, slab, ray, min, max, l);
                lemma_walk_finds_closest(*right, objects, slab, ray, min, reach(l, max), r);
                lemma_later_is_closest(objects, left.leaves(), right.leaves(), ray, min, max, l, r);
            } else {
                assert(admits(slab, &bb, ray, min, max, false) && out is None);
            }
        },
    }
}

/// Where `l` is a nearest hit among some objects and `r` a nearest hit, no
/// farther than `l`, among others, what is kept of the two is a nearest hit
/// among them all.
pub proof fn lemma_later_is_closest<H: Hittable>(
    objects: Seq<H>,
    first: Set<int>,
    second: Set<int>,
    ray: &Ray,
    min: Scalar,
    max: Scalar,
    l: Option<HitRecord<H::Mat>>,
    r: Option<HitRecord<H::Mat>>,
)
    requires
        is_closest(objects, first, ray, min, max, l),
        is_closest(objects, second, ray, min, reach(l, max), r),
    ensures
        is_closest(objects, first.union(second), ray, min, max, latest(l, r)),
{
    let all = first.union(second);
    let out = latest(l, r);
    match out {
        Some(h) => {
            if r is Some {
                let j = choose|j: int|
                    second.contains(j) && #[trigger] first_hit(&objects[j], ray, min) == r;
                assert(all.contains(j));
            } else {
                let j = choose|j: int|
                    first.contains(j) && #[trigger] first_hit(&objects[j], ray, min) == l;
                assert(all.contains(j));
            }
            assert forall|i: int| all.contains(i) implies (#[trigger] within(
                first_hit(&objects[i], ray, min),
                max,
            ) matches Some(other) ==> h.t <= other.t) by {
                let found = first_hit(&objects[i], ray, min);
                if within(found, max) is Some {
                    if first.contains(i) {
                        assert(within(found, max) is Some);
                    } else {
                        assert(second.contains(i));
                        assert(within(found, reach(l, max)) is Some ==> r is Some);
                    }
                }
            }
        },
        None => {
            assert forall|i: int| all.contains(i) implies #[trigger] within(
                first_hit(&objects[i], ray, min),
                max,
            ) is None by {
                if first.contains(i) {
                } else {
                    assert(second.contains(i));
                    assert(within(first_hit(&objects[i], ray, min), reach(l, max)) is None);
                }
            }
        },
    }
}

/// A walk through a hierarchy and a scan of the objects it was built over find
/// hits that are equally far, or both find none: as long as each object
/// reports its nearest hit first and no box turns away a ray that strikes an
/// object below it.
pub proof fn lemma_walk_agrees_with_scan<H: Hittable, S: SlabTest>(
    t: Tree,
    objects: Seq<H>,
    boxes: Seq<AABB>,
    axes: Seq<Axis>,
    slab: &S,
    ray: &Ray,
    min: Scalar,
    max: Scalar,
    via_tree: Option<HitRecord<H::Mat>>,
    via_scan: Option<HitRecord<H::Mat>>,
)
    requires
        boxes.len() == objects.len() <= usize::MAX,
        t.is_built(boxes, count_up(objects.len()), 0, axes),
        forall|i: int| 0 <= i < objects.len() ==> closest_first(&#[trigger] objects[i], ray, min),
        prunes_safely(t, objects, slab, ray, min),
        walk_outcome(t, objects, slab, ray, min, max, via_tree),
        scan_outcome(objects, ray, min, max, via_scan),
    ensures
        same_distance(via_tree, via_scan),
{
    let items = count_up(objects.len());
    let all = Set::new(|i: int| 0 <= i < objects.len());
    lemma_built_covers(t, boxes, items, 0, axes);
    lemma_walk_finds_closest(t, objects, slab, ray, min, max, via_tree);
    lemma_scan_finds_closest(objects, ray, min, max, via_scan);
    assert forall|i: int| all.contains(i) implies t.leaves().contains(i) by {
        assert(items[i] == i as usize);
        assert(lists(items, i));
    }
    assert forall|i: int| t.leaves().contains(i) implies all.contains(i) by {
        assert(lists(items, i));
        let k = choose|k: int| 0 <= k < items.len() && #[trigger] items[k] == i;
        assert(items[k] == k as usize);
    }
    assert(t.leaves() =~= all);
    lemma_closest_is_unique(objects, all, ray, min, max, via_tree, via_scan);
}

/// The nearest of the first hits of the objects at the leaves of `t`, and of
/// equally near ones the one that a walk comes to last.
pub open spec fn tree_nearest<H: Hittable>(t: Tree, objects: Seq<H>, ray: &Ray, min: Scalar) -> Option<
    HitRecord<H::Mat>,
>
    decreases t,
{
    match t {
        Tree::Leaf { index } => first_hit(&objects[index as int], ray, min),
        Tree::Node { left, right, bb } => nearer(
            tree_nearest(*left, objects, ray, min),
            tree_nearest(*right, objects, ray, min),
        ),
    }
}

/// The nearest first hit below a tree is the first hit of an object at one of
/// its leaves.
pub proof fn lemma_tree_nearest_is_below<H: Hittable>(
    t: Tree,
    objects: Seq<H>,
    ray: &Ray,
    min: Scalar,
)
    ensures
        tree_nearest(t, objects, ray, min) is Some ==> exists|i: int|
            t.leaves().contains(i) && #[trigger] first_hit(&objects[i], ray, min) == tree_nearest(
                t,
                objects,
                ray,
                min,
            ),
    decreases t,
{
    match t {
        Tree::Leaf { index } => {
            assert(t.leaves().contains(index as int));
        },
        Tree::Node { left, right, bb } => {
            let found = tree_nearest(t, objects, ray, min);
            lemma_tree_nearest_is_below(*left, objects, ray, min);
            lemma_tree_nearest_is_below(*right, objects, ray, min);
            if found is Some {
                if found == tree_nearest(*left, objects, ray, min) {
                    let i = choose|i: int|
                        left.leaves().contains(i) && #[trigger] first_hit(&objects[i], ray, min)
                            == found;
                    assert(t.leaves().contains(i));
                } else {
                    let i = choose|i: int|
                        right.leaves().contains(i) && #[trigger] first_hit(&objects[i], ray, min)
                            == found;
                    assert(t.leaves().contains(i));
                }
            }
        },
    }
}

/// A walk through a tree reports the nearest of the first hits below it under
/// every upper bound that admits it, and nothing otherwise: as long as each
/// object reports its nearest hit first and no box turns away a ray that
/// strikes an object below it.
pub proof fn lemma_walk_reports_first<H: Hittable, S: SlabTest>(
    t: Tree,
    objects: Seq<H>,
    slab: &S,
    ray: &Ray,
    min: Scalar,
    max: Scalar,
    out: Option<HitRecord<H::Mat>>,
)
    requires
        t.wf(objects.len() as int),
        forall|i: int| 0 <= i < objects.len() ==> closest_first(&#[trigger] objects[i], ray, min),
        prunes_safely(t, objects, slab, ray, min),
        walk_outcome(t, objects, slab, ray, min, max, out),
    ensures
        out == within(tree_nearest(t, objects, ray, min), max),
    decreases t,
{
    match t {
        Tree::Leaf { index } => {
            assert(closest_first(&objects[index as int], ray, min));
        },
        Tree::Node { left, right, bb } => {
            if admits(slab, &bb, ray, min, max, true) && exists|
                l: Option<HitRecord<H::Mat>>,
                r: Option<HitRecord<H::Mat>>,
            |
                walk_outcome(*left, objects, slab, ray, min, max, l) && walk_outcome(
                    *right,
                    objects,
                    slab,
                    ray,
                    min,
                    reach(l, max),
                    r,
                ) && #[trigger] both(l, r, out) {
                let (l, r) = choose|
                    l: Option<HitRecord<H::Mat>>,
                    r: Option<HitRecord<H::Mat>>,
                |
                    walk_outcome(*left, objects, slab, ray, min, max, l) && walk_outcome(
                        *right,
                        objects,
                        slab,
                        ray,
                        min,
                        reach(l, max),
                        r,
                    ) && #[trigger] both(l, r, out);
                lemma_walk_reports_first(*left, objects, slab, ray, min, max, l);
                lemma_walk_reports_first(*right, objects, slab, ray, min, reach(l, max), r);
            } else {
                let found = tree_nearest(t, objects, ray, min);
                lemma_tree_nearest_is_below(t, objects, ray, min);
                if within(found, max) is Some {
                    let i = choose|i: int|
                        t.leaves().contains(i) && #[trigger] first_hit(&objects[i], ray, min)
                            == found;
                    assert(within(first_hit(&objects[i], ray, min), max) is Some);
                }
            }
        },
    }
}

} // verus!
