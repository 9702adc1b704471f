//! Bounding-volume hierarchies: how one is built over the shapes of a scene,
//! and how a ray is sent through it.

pub mod tree;
pub mod walk;

use vstd::prelude::*;
use crate::aabb::AABB;
use crate::bvh::tree::{
    count_up, lemma_boxes_are_around, lemma_built_covers, lists, Tree,
};
use crate::bvh::walk::{
    admits_what_is_around, admits_what_is_struck, lemma_built_prunes_safely,
    lemma_walk_agrees_with_scan, lemma_walk_reports_first, prunes_safely, tree_nearest, walk,
    walk_outcome, SlabTest,
};
use crate::hittable::{
    answers, bounded_by, closest_first, reports_first, same_distance, scan_outcome, within,
    HitRecord, Hittable,
};
use crate::hittable_list::HittableList;
use crate::ray::Ray;
use crate::util::random_axis;
use crate::vec3::{Axis, Scalar};

verus! {

/// Why a hierarchy could not be built.
#[derive(Clone, Copy, Debug, PartialEq, Eq, Structural)]
pub enum BvhError {
    /// There was no object to build it over.
    Empty,
    /// The object with this number has no bounding box.
    Unbounded { index: usize },
}

/// A bounding-volume hierarchy over the objects of a scene, with the test it
/// puts to a ray at every box.
pub struct BVH<H, S> {
    objects: Vec<H>,
    root: Tree,
    slab: S,
}

impl<H, S> BVH<H, S> {
    #[verifier::type_invariant]
    spec fn inv(self) -> bool {
        &&& self.objects@.len() <= usize::MAX
        &&& self.root.wf(self.objects@.len() as int)
        &&& self.root is Node
    }

    /// The objects, numbered in the order they were given.
    pub closed spec fn objects(self) -> Seq<H> {
        self.objects@
    }

    /// The tree over the objects' numbers.
    pub closed spec fn root(self) -> Tree {
        self.root
    }

    /// The test put to a ray at every box.
    pub closed spec fn slab(self) -> S {
        self.slab
    }

    /// Whether every leaf of the tree names one of the objects, which are no
    /// more than can be numbered.
    pub open spec fn wf(self) -> bool {
        self.objects().len() <= usize::MAX && self.root().wf(self.objects().len() as int)
    }

    /// The tree over the objects' numbers.
    pub fn tree(&self) -> (t: &Tree)
        ensures
            *t == self.root(),
            self.wf(),
            *t is Node,
    {
        proof {
            use_type_invariant(self);
        }
        &self.root
    }
}

/// Whether `boxes` are boxes that the objects report, one for each.
pub open spec fn boxes_of<H: Hittable>(objects: Seq<H>, boxes: Seq<AABB>) -> bool {
    &&& boxes.len() == objects.len()
    &&& forall|i: int| 0 <= i < objects.len() ==> bounded_by(&objects[i], Some(#[trigger] boxes[i]))
}

/// Whether the tree `t` is the hierarchy over `objects`, in their given order,
/// for the boxes `boxes` that they reported and the axes `axes`.
pub open spec fn is_hierarchy<H: Hittable>(
    t: Tree,
    objects: Seq<H>,
    boxes: Seq<AABB>,
    axes: Seq<Axis>,
) -> bool {
    boxes_of(objects, boxes) && t.is_built(boxes, count_up(objects.len()), 0, axes)
}

/// What building a hierarchy over the shapes `shapes` along `axes`, with `slab`
/// as the test at its boxes, may come to.
pub open spec fn build_outcome<H: Hittable, S: SlabTest>(
    shapes: Seq<H>,
    slab: S,
    axes: Seq<Axis>,
    r: Result<BVH<H, S>, BvhError>,
) -> bool {
    match r {
        Ok(bvh) => {
            &&& bvh.wf()
            &&& bvh.objects() == shapes
            &&& bvh.slab() == slab
            &&& exists|boxes: Seq<AABB>| #[trigger] is_hierarchy(bvh.root(), shapes, boxes, axes)
        },
        Err(BvhError::Empty) => shapes.len() == 0,
        Err(BvhError::Unbounded { index }) => {
            &&& index < shapes.len()
            &&& bounded_by(&shapes[index as int], None)
            &&& exists|boxes: Seq<AABB>| #[trigger] boxes_of(shapes.take(index as int), boxes)
        },
    }
}

impl<H: Hittable, S: SlabTest> BVH<H, S> {
    /// Builds the hierarchy over the shapes of `h`, with `slab` as the test at
    /// its boxes. Every shape is asked for its box once, and every node draws
    /// its axis at random. There is no hierarchy over nothing, and none over a
    /// shape without a box: the first such shape is named.
    pub fn new(h: HittableList<H>, slab: S) -> (r: Result<Self, BvhError>)
        ensures
            h@.len() == 0 <==> r == Err::<Self, BvhError>(BvhError::Empty),
            exists|axes: Seq<Axis>| #[trigger] build_outcome(h@, slab, axes, r),
    {
        let n = h.len();
        let mut axes: Vec<Axis> = Vec::new();
        let mut i: usize = 0;
        while i < n
            invariant
                i <= n,
                axes.len() == i,
            decreases n - i,
        {
            axes.push(random_axis());
            i = i + 1;
        }
        let r = Self::with_axes(h, slab, &axes);
        proof {
            assert(build_outcome(h@, slab, axes@, r));
        }
        r
    }

    /// Builds the hierarchy over the shapes of `h` with the axes given: the
    /// node whose right half begins with the shape at place `p`, once the
    /// shapes above it are sorted, takes its keys along `axes[p]`. The same
    /// boxes and the same axes give the same hierarchy.
    pub fn with_axes(h: HittableList<H>, slab: S, axes: &Vec<Axis>) -> (r: Result<Self, BvhError>)
        requires
            h@.len() <= axes.len(),
        ensures
            h@.len() == 0 <==> r == Err::<Self, BvhError>(BvhError::Empty),
            build_outcome(h@, slab, axes@, r),
    {
        let objects = h.into_vec();
        let n = objects.len();
        if n == 0 {
            return Err(BvhError::Empty);
        }
        let mut boxes: Vec<AABB> = Vec::new();
        let mut i: usize = 0;
        while i < n
            invariant
                i <= n,
                0 < n == objects.len(),
                objects@ == h@,
                boxes_of(objects@.take(i as int), boxes@),
            decreases n - i,
        {
            let ghost found = boxes@;
            let reported = objects[i].bounding_box();
            match reported {
                Some(b) => {
                    boxes.push(b);
                },
                None => {
                    proof {
                        assert(bounded_by(&h@[i as int], None));
                        assert(boxes_of(h@.take(i as int), boxes@));
                    }
                    return Err(BvhError::Unbounded { index: i });
                },
            }
            proof {
                let seen = objects@.take(i as int + 1);
                assert forall|k: int| 0 <= k < seen.len() implies bounded_by(
                    &seen[k],
                    Some(#[trigger] boxes@[k]),
                ) by {
                    if k < i {
                        assert(objects@.take(i as int)[k] == seen[k]);
                        assert(boxes@[k] == found[k]);
                    }
                }
            }
            i = i + 1;
        }
        proof {
            assert(objects@.take(n as int) =~= objects@);
        }
        let root = Tree::build(&boxes, axes);
        proof {
            assert(is_hierarchy(root, objects@, boxes@, axes@));
        }
        Ok(BVH { objects, root, slab })
    }
}

impl<H: Hittable, S: SlabTest> Hittable for BVH<H, S> {
    type Mat = H::Mat;

    /// Sends `ray` down the tree.
    fn hit(&self, ray: &Ray, min: Scalar, max: Scalar) -> (r: Option<HitRecord<H::Mat>>)
        ensures
            walk_outcome(self.root(), self.objects(), &self.slab(), ray, min, max, r),
    {
        proof {
            use_type_invariant(self);
        }
        walk(&self.root, &self.objects, &self.slab, ray, min, max)
    }

    /// The box at the root.
    fn bounding_box(&self) -> (r: Option<AABB>)
        ensures
            r matches Some(b) && self.root() matches Tree::Node { bb, .. } && b == bb,
    {
        proof {
            use_type_invariant(self);
        }
        match &self.root {
            Tree::Node { bb, .. } => Some(*bb),
            Tree::Leaf { .. } => None,
        }
    }
}

/// The box of a hierarchy contains the box of every shape it was built over.
pub proof fn lemma_hierarchy_box_is_around<H: Hittable>(
    t: Tree,
    objects: Seq<H>,
    boxes: Seq<AABB>,
    axes: Seq<Axis>,
)
    requires
        objects.len() <= usize::MAX,
        is_hierarchy(t, objects, boxes, axes),
    ensures
        forall|i: int| 0 <= i < objects.len() ==> t.bounds(boxes).contains(#[trigger] boxes[i]),
{
    let items = count_up(objects.len());
    lemma_built_covers(t, boxes, items, 0, axes);
    lemma_boxes_are_around(t, boxes);
    assert forall|i: int| 0 <= i < objects.len() implies t.bounds(boxes).contains(
        #[trigger] boxes[i],
    ) by {
        assert(items[i] == i as usize);
        assert(lists(items, i));
    }
}

/// A hierarchy reports its nearest hit first, as long as each object reports
/// its nearest hit first and no box turns away a ray that strikes an object
/// below it.
pub proof fn lemma_bvh_is_closest_first<H: Hittable, S: SlabTest>(
    bvh: &BVH<H, S>,
    ray: &Ray,
    min: Scalar,
)
    requires
        bvh.wf(),
        forall|i: int|
            0 <= i < bvh.objects().len() ==> closest_first(&#[trigger] bvh.objects()[i], ray, min),
        prunes_safely(bvh.root(), bvh.objects(), &bvh.slab(), ray, min),
    ensures
        reports_first(bvh, ray, min, tree_nearest(bvh.root(), bvh.objects(), ray, min)),
        closest_first(bvh, ray, min),
{
    assert forall|max: Scalar, r: Option<HitRecord<H::Mat>>| #[trigger]
        answers(bvh, ray, min, max, r) implies r == within(
        tree_nearest(bvh.root(), bvh.objects(), ray, min),
        max,
    ) by {
        lemma_walk_reports_first(bvh.root(), bvh.objects(), &bvh.slab(), ray, min, max, r);
    }
}

/// A hierarchy and a scan of the shapes it was built over find hits that are
/// equally far, or both find none: as long as each shape reports its nearest
/// hit first, and the test lets a ray into the box of every shape that it
/// strikes and into every box around a box that it lets the ray into.
pub proof fn lemma_bvh_agrees_with_scan<H: Hittable, S: SlabTest>(
    bvh: &BVH<H, S>,
    boxes: Seq<AABB>,
    axes: Seq<Axis>,
    ray: &Ray,
    min: Scalar,
    max: Scalar,
    via_tree: Option<HitRecord<H::Mat>>,
    via_scan: Option<HitRecord<H::Mat>>,
)
    requires
        bvh.wf(),
        is_hierarchy(bvh.root(), bvh.objects(), boxes, axes),
        forall|i: int|
            0 <= i < bvh.objects().len() ==> closest_first(&#[trigger] bvh.objects()[i], ray, min),
        admits_what_is_struck(bvh.objects(), boxes, &bvh.slab(), ray, min),
        admits_what_is_around(&bvh.slab(), ray, min),
        answers(bvh, ray, min, max, via_tree),
        scan_outcome(bvh.objects(), ray, min, max, via_scan),
    ensures
        same_distance(via_tree, via_scan),
{
    lemma_built_covers(bvh.root(), boxes, count_up(bvh.objects().len()), 0, axes);
    lemma_built_prunes_safely(bvh.root(), bvh.objects(), boxes, &bvh.slab(), ray, min);
    lemma_walk_agrees_with_scan(
        bvh.root(),
        bvh.objects(),
        boxes,
        axes,
        &bvh.slab(),
        ray,
        min,
        max,
        via_tree,
        via_scan,
    );
}

} // verus!
