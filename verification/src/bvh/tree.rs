//! The tree of a hierarchy: how it is built over the boxes of numbered objects.

use vstd::prelude::*;
use crate::aabb::AABB;
use crate::sort::{
    all_keyed, is_stable_sort, lemma_sort_keeps_items, lemma_stable_sort_is_unique, sort_range,
};
use crate::vec3::{Axis, Scalar};

verus! {

/// A binary tree over numbered objects. A leaf names one object; a node has
/// two subtrees and a box around everything below it.
#[derive(Debug, PartialEq, Eq)]
pub enum Tree {
    Leaf { index: usize },
    Node { left: Box<Tree>, right: Box<Tree>, bb: AABB },
}

/// The numbers from `0` up to `n`, in order.
pub open spec fn count_up(n: nat) -> Seq<usize> {
    Seq::new(n, |i: int| i as usize)
}

/// The key by which boxes are ordered along `axis`: the coordinate of the
/// smallest corner on that axis.
pub open spec fn axis_keys(boxes: Seq<AABB>, axis: Axis) -> Seq<Scalar> {
    Seq::new(boxes.len(), |i: int| boxes[i].min.at(axis))
}

impl Tree {
    /// The numbers of the objects at the leaves.
    pub open spec fn leaves(self) -> Set<int>
        decreases self,
    {
        match self {
            Tree::Leaf { index } => set![index as int],
            Tree::Node { left, right, bb } => left.leaves().union(right.leaves()),
        }
    }

    /// Whether every leaf names one of `n` objects.
    pub open spec fn wf(self, n: int) -> bool
        decreases self,
    {
        match self {
            Tree::Leaf { index } => index < n,
            Tree::Node { left, right, bb } => left.wf(n) && right.wf(n),
        }
    }

    /// The box around the tree: the object's own box at a leaf, the stored box
    /// at a node.
    pub open spec fn bounds(self, boxes: Seq<AABB>) -> AABB {
        match self {
            Tree::Leaf { index } => boxes[index as int],
            Tree::Node { left, right, bb } => bb,
        }
    }

    /// Whether every node's box is the union of the boxes of its two subtrees.
    pub open spec fn boxed(self, boxes: Seq<AABB>) -> bool
        decreases self,
    {
        match self {
            Tree::Leaf { index } => true,
            Tree::Node { left, right, bb } => {
                &&& left.boxed(boxes)
                &&& right.boxed(boxes)
                &&& bb == left.bounds(boxes).join(right.bounds(boxes))
            },
        }
    }

    /// Whether the tree is the hierarchy over the objects `items`, which stand
    /// at the places from `offset` on among all objects. A single object hangs
    /// twice under one node. Two objects hang under one node, the one with the
    /// smaller key on the left, in their given order where the keys are equal.
    /// More are sorted by key, stably, and split in the middle into two
    /// hierarchies. The node whose right half begins at place `p` takes its keys
    /// along `axes[p]`.
    pub open spec fn is_built(
        self,
        boxes: Seq<AABB>,
        items: Seq<usize>,
        offset: int,
        axes: Seq<Axis>,
    ) -> bool
        decreases self,
    {
        match self {
            Tree::Leaf { index } => false,
            Tree::Node { left, right, bb } => {
                let mid = items.len() as int / 2;
                let keys = axis_keys(boxes, axes[offset + mid]);
                &&& items.len() >= 1
                &&& bb == left.bounds(boxes).join(right.bounds(boxes))
                &&& if items.len() == 1 {
                    *left == (Tree::Leaf { index: items[0] }) && *right == (Tree::Leaf {
                        index: items[0],
                    })
                } else if items.len() == 2 {
                    if keys[items[1] as int] < keys[items[0] as int] {
                        *left == (Tree::Leaf { index: items[1] }) && *right == (Tree::Leaf {
                            index: items[0],
                        })
                    } else {
                        *left == (Tree::Leaf { index: items[0] }) && *right == (Tree::Leaf {
                            index: items[1],
                        })
                    }
                } else {
                    exists|sorted: Seq<usize>|
                        {
                            &&& #[trigger] is_stable_sort(sorted, items, keys)
                            &&& left.is_built(boxes, sorted.subrange(0, mid), offset, axes)
                            &&& right.is_built(
                                boxes,
                                sorted.subrange(mid, items.len() as int),
                                offset + mid,
                                axes,
                            )
                        }
                }
            },
        }
    }
}

/// The keys of all boxes along each axis.
struct AxisKeys {
    x: Vec<Scalar>,
    y: Vec<Scalar>,
    z: Vec<Scalar>,
}

impl AxisKeys {
    /// Whether these are the keys of `boxes`.
    spec fn of(self, boxes: Seq<AABB>) -> bool {
        &&& self.x@ == axis_keys(boxes, Axis::X)
        &&& self.y@ == axis_keys(boxes, Axis::Y)
        &&& self.z@ == axis_keys(boxes, Axis::Z)
    }

    /// Reads the keys of `boxes` on all three axes.
    fn new(boxes: &Vec<AABB>) -> (keys: AxisKeys)
        ensures
            keys.of(boxes@),
    {
        let mut x: Vec<Scalar> = Vec::new();
        let mut y: Vec<Scalar> = Vec::new();
        let mut z: Vec<Scalar> = Vec::new();
        let mut i: usize = 0;
        while i < boxes.len()
            invariant
                i <= boxes.len(),
                x@ == axis_keys(boxes@.take(i as int), Axis::X),
                y@ == axis_keys(boxes@.take(i as int), Axis::Y),
                z@ == axis_keys(boxes@.take(i as int), Axis::Z),
            decreases boxes.len() - i,
        {
            let corner = boxes[i].min();
            x.push(corner.get(Axis::X));
            y.push(corner.get(Axis::Y));
            z.push(corner.get(Axis::Z));
            proof {
                let next = boxes@.take(i as int + 1);
                assert(x@ =~= axis_keys(next, Axis::X));
                assert(y@ =~= axis_keys(next, Axis::Y));
                assert(z@ =~= axis_keys(next, Axis::Z));
            }
            i = i + 1;
        }
        proof {
            assert(boxes@.take(i as int) =~= boxes@);
        }
        AxisKeys { x, y, z }
    }

    /// The keys along `axis`.
    fn along(&self, axis: Axis) -> (keys: &Vec<Scalar>)
        ensures
            keys@ == (match axis {
                Axis::X => self.x@,
                Axis::Y => self.y@,
                Axis::Z => self.z@,
            }),
    {
        match axis {
            Axis::X => &self.x,
            Axis::Y => &self.y,
            Axis::Z => &self.z,
        }
    }
}

/// The box around the tree `t` over `boxes`.
fn bounds_of(t: &Tree, boxes: &Vec<AABB>) -> (bb: AABB)
    requires
        t.wf(boxes.len() as int),
    ensures
        bb == t.bounds(boxes@),
{
    match t {
        Tree::Leaf { index } => boxes[*index],
        Tree::Node { left, right, bb } => *bb,
    }
}

/// The node over two subtrees, with the union of their boxes.
fn node_over(left: Tree, right: Tree, boxes: &Vec<AABB>) -> (t: Tree)
    requires
        left.wf(boxes.len() as int),
        right.wf(boxes.len() as int),
    ensures
        t == (Tree::Node {
            left: Box::new(left),
            right: Box::new(right),
            bb: left.bounds(boxes@).join(right.bounds(boxes@)),
        }),
        t.wf(boxes.len() as int),
{
    let box_l = bounds_of(&left, boxes);
    let box_r = bounds_of(&right, boxes);
    let bb = AABB::union(Some(box_l), Some(box_r)).unwrap();
    Tree::Node { left: Box::new(left), right: Box::new(right), bb }
}

/// Builds the hierarchy over the objects at the places `start..end` of
/// `order`, reordering those places as it sorts.
fn build_range(
    order: &mut Vec<usize>,
    boxes: &Vec<AABB>,
    keys: &AxisKeys,
    axes: &Vec<Axis>,
    start: usize,
    end: usize,
) -> (t: Tree)
    requires
        start < end <= old(order).len(),
        old(order).len() <= axes.len(),
        keys.of(boxes@),
        forall|i: int| start <= i < end ==> #[trigger] old(order)[i] < boxes.len(),
    ensures
        final(order).len() == old(order).len(),
        forall|i: int|
            0 <= i < start || end <= i < old(order).len() ==> final(order)[i] == old(order)[i],
        forall|i: int| start <= i < end ==> #[trigger] final(order)[i] < boxes.len(),
        t.is_built(boxes@, old(order)@.subrange(start as int, end as int), start as int, axes@),
        t.wf(boxes.len() as int),
    decreases end - start,
{
    let span = end - start;
    let ghost items = order@.subrange(start as int, end as int);
    let mid = start + span / 2;
    let axis = axes[mid];
    if span == 1 {
        let only = order[start];
        assert(items[0] == only);
        let t = node_over(Tree::Leaf { index: only }, Tree::Leaf { index: only }, boxes);
        assert(t.is_built(boxes@, items, start as int, axes@));
        t
    } else if span == 2 {
        let first = order[start];
        let second = order[start + 1];
        assert(items[0] == first && items[1] == second);
        let along = keys.along(axis);
        assert(along@ == axis_keys(boxes@, axes@[start + items.len() as int / 2]));
        let t = if along[second] < along[first] {
            node_over(Tree::Leaf { index: second }, Tree::Leaf { index: first }, boxes)
        } else {
            node_over(Tree::Leaf { index: first }, Tree::Leaf { index: second }, boxes)
        };
        assert(t.is_built(boxes@, items, start as int, axes@));
        t
    } else {
        let along = keys.along(axis);
        proof {
            assert(all_keyed(items, along@)) by {
                assert forall|i: int| 0 <= i < items.len() implies #[trigger] items[i]
                    < along@.len() by {
                    assert(items[i] == order[start + i]);
                }
            }
        }
        sort_range(order, along, start, end);
        let ghost sorted = order@.subrange(start as int, end as int);
        proof {
            lemma_sort_keeps_items(sorted, items, along@);
            assert forall|i: int| start <= i < end implies #[trigger] order[i] < boxes.len() by {
                assert(sorted[i - start] == order[i]);
                assert(items.contains(sorted[i - start]));
                let j = choose|j: int| 0 <= j < items.len() && items[j] == sorted[i - start];
                assert(items[j] == old(order)[start + j]);
            }
        }
        let ghost after_sort = order@;
        let left = build_range(order, boxes, keys, axes, start, mid);
        let ghost after_left = order@;
        let right = build_range(order, boxes, keys, axes, mid, end);
        let t = node_over(left, right, boxes);
        proof {
            let half = (mid - start) as int;
            assert(half == items.len() as int / 2);
            assert(axes@[start + half] == axis);
            assert(after_sort.subrange(start as int, mid as int) =~= sorted.subrange(0, half));
            assert(after_left.subrange(mid as int, end as int) =~= sorted.subrange(
                half,
                items.len() as int,
            ));
            assert(is_stable_sort(sorted, items, axis_keys(boxes@, axis)));
            assert(left.is_built(boxes@, sorted.subrange(0, half), start as int, axes@));
            assert(right.is_built(
                boxes@,
                sorted.subrange(half, items.len() as int),
                start + half,
                axes@,
            ));
        }
        t
    }
}

impl Tree {
    /// Builds the hierarchy over all of `boxes`, taken in their given order.
    pub fn build(boxes: &Vec<AABB>, axes: &Vec<Axis>) -> (t: Tree)
        requires
            0 < boxes.len() <= axes.len(),
        ensures
            t.is_built(boxes@, count_up(boxes@.len()), 0, axes@),
            t.wf(boxes.len() as int),
    {
        let keys = AxisKeys::new(boxes);
        let mut order: Vec<usize> = Vec::new();
        let mut i: usize = 0;
        while i < boxes.len()
            invariant
                i <= boxes.len(),
                order@ == count_up(i as nat),
            decreases boxes.len() - i,
        {
            order.push(i);
            proof {
                assert(order@ =~= count_up((i + 1) as nat));
            }
            i = i + 1;
        }
        let n = boxes.len();
        let t = build_range(&mut order, boxes, &keys, axes, 0, n);
        proof {
            assert(count_up(n as nat).subrange(0, n as int) =~= count_up(n as nat));
        }
        t
    }
}

/// Whether the number `i` occurs in `items`.
pub open spec fn lists(items: Seq<usize>, i: int) -> bool {
    exists|k: int| 0 <= k < items.len() && #[trigger] items[k] == i
}

/// A hierarchy built over some objects has exactly those objects at its
/// leaves, and the union of its subtrees' boxes at every node.
pub proof fn lemma_built_covers(
    t: Tree,
    boxes: Seq<AABB>,
    items: Seq<usize>,
    offset: int,
    axes: Seq<Axis>,
)
    requires
        t.is_built(boxes, items, offset, axes),
        forall|k: int| 0 <= k < items.len() ==> #[trigger] items[k] < boxes.len(),
    ensures
        t.wf(boxes.len() as int),
        t.boxed(boxes),
        forall|i: int| t.leaves().contains(i) <==> lists(items, i),
    decreases t,
{
    match t {
        Tree::Leaf { index } => {},
        Tree::Node { left, right, bb } => {
            let mid = items.len() as int / 2;
            let keys = axis_keys(boxes, axes[offset + mid]);
            let n = boxes.len() as int;
            if items.len() <= 2 {
                let last = items.len() - 1;
                assert(lists(items, items[0] as int));
                assert(lists(items, items[last] as int));
                assert(left.wf(n) && right.wf(n));
                assert(left.boxed(boxes) && right.boxed(boxes));
                assert(left.leaves() =~= set![items[0] as int] || left.leaves() =~= set![
                    items[last] as int,
                ]);
                assert(right.leaves() =~= set![items[0] as int] || right.leaves() =~= set![
                    items[last] as int,
                ]);
                assert(t.leaves().contains(items[0] as int));
                assert(t.leaves().contains(items[last] as int));
                assert forall|i: int| lists(items, i) implies t.leaves().contains(i) by {
                    let k = choose|k: int| 0 <= k < items.len() && #[trigger] items[k] == i;
                    assert(k == 0 || k == last);
                }
            } else {
                let sorted = choose|sorted: Seq<usize>|
                    {
                        &&& #[trigger] is_stable_sort(sorted, items, keys)
                        &&& left.is_built(boxes, sorted.subrange(0, mid), offset, axes)
                        &&& right.is_built(
                            boxes,
                            sorted.subrange(mid, items.len() as int),
                            offset + mid,
                            axes,
                        )
                    };
                let lo = sorted.subrange(0, mid);
                let hi = sorted.subrange(mid, items.len() as int);
                lemma_sort_keeps_items(sorted, items, keys);
                assert forall|k: int| 0 <= k < sorted.len() implies #[trigger] sorted[k]
                    < boxes.len() by {
                    assert(items.contains(sorted[k]));
                }
                assert forall|k: int| 0 <= k < lo.len() implies #[trigger] lo[k] < boxes.len() by {
                    assert(lo[k] == sorted[k]);
                }
                assert forall|k: int| 0 <= k < hi.len() implies #[trigger] hi[k] < boxes.len() by {
                    assert(hi[k] == sorted[mid + k]);
                }
                lemma_built_covers(*left, boxes, lo, offset, axes);
                lemma_built_covers(*right, boxes, hi, offset + mid, axes);
                assert forall|i: int| t.leaves().contains(i) implies lists(items, i) by {
                    if left.leaves().contains(i) {
                        assert(lists(lo, i));
                        let k = choose|k: int| 0 <= k < lo.len() && #[trigger] lo[k] == i;
                        assert(items.contains(sorted[k]));
                    } else {
                        assert(right.leaves().contains(i));
                        assert(lists(hi, i));
                        let k = choose|k: int| 0 <= k < hi.len() && #[trigger] hi[k] == i;
                        assert(items.contains(sorted[mid + k]));
                    }
                }
                assert forall|i: int| lists(items, i) implies t.leaves().contains(i) by {
                    let k = choose|k: int| 0 <= k < items.len() && #[trigger] items[k] == i;
                    assert(sorted.contains(items[k]));
                    let a = choose|a: int| 0 <= a < sorted.len() && sorted[a] == items[k];
                    if a < mid {
                        assert(lo[a] == i);
                        assert(lists(lo, i));
                    } else {
                        assert(hi[a - mid] == i);
                        assert(lists(hi, i));
                    }
                }
            }
        },
    }
}

/// There is one hierarchy over given objects, boxes and axes: two trees that
/// are both that hierarchy are the same tree.
pub proof fn lemma_built_is_unique(
    t: Tree,
    u: Tree,
    boxes: Seq<AABB>,
    items: Seq<usize>,
    offset: int,
    axes: Seq<Axis>,
)
    requires
        t.is_built(boxes, items, offset, axes),
        u.is_built(boxes, items, offset, axes),
    ensures
        t == u,
    decreases t,
{
    match (t, u) {
        (
            Tree::Node { left: tl, right: tr, bb: tb },
            Tree::Node { left: ul, right: ur, bb: ub },
        ) => {
            let mid = items.len() as int / 2;
            let keys = axis_keys(boxes, axes[offset + mid]);
            if items.len() > 2 {
                let ts = choose|sorted: Seq<usize>|
                    {
                        &&& #[trigger] is_stable_sort(sorted, items, keys)
                        &&& tl.is_built(boxes, sorted.subrange(0, mid), offset, axes)
                        &&& tr.is_built(
                            boxes,
                            sorted.subrange(mid, items.len() as int),
                            offset + mid,
                            axes,
                        )
                    };
                let us = choose|sorted: Seq<usize>|
                    {
                        &&& #[trigger] is_stable_sort(sorted, items, keys)
                        &&& ul.is_built(boxes, sorted.subrange(0, mid), offset, axes)
                        &&& ur.is_built(
                            boxes,
                            sorted.subrange(mid, items.len() as int),
                            offset + mid,
                            axes,
                        )
                    };
                lemma_stable_sort_is_unique(ts, us, items, keys);
                lemma_built_is_unique(*tl, *ul, boxes, ts.subrange(0, mid), offset, axes);
                lemma_built_is_unique(
                    *tr,
                    *ur,
                    boxes,
                    ts.subrange(mid, items.len() as int),
                    offset + mid,
                    axes,
                );
            }
            assert(*tl == *ul && *tr == *ur);
            assert(tl == ul && tr == ur);
        },
        _ => {},
    }
}

/// The leaves of a tree over `n` objects name objects.
pub proof fn lemma_leaves_are_objects(t: Tree, n: int)
    requires
        t.wf(n),
    ensures
        forall|i: int| t.leaves().contains(i) ==> 0 <= i < n,
    decreases t,
{
    match t {
        Tree::Leaf { index } => {},
        Tree::Node { left, right, bb } => {
            lemma_leaves_are_objects(*left, n);
            lemma_leaves_are_objects(*right, n);
            assert forall|i: int| t.leaves().contains(i) implies 0 <= i < n by {
                assert(left.leaves().contains(i) || right.leaves().contains(i));
            }
        },
    }
}

/// Where every node's box is the union of the boxes of its subtrees, the box
/// around a tree contains the box of every object at its leaves.
pub proof fn lemma_boxes_are_around(t: Tree, boxes: Seq<AABB>)
    requires
        t.boxed(boxes),
    ensures
        forall|i: int| t.leaves().contains(i) ==> t.bounds(boxes).contains(#[trigger] boxes[i]),
    decreases t,
{
    match t {
        Tree::Leaf { index } => {},
        Tree::Node { left, right, bb } => {
            lemma_boxes_are_around(*left, boxes);
            lemma_boxes_are_around(*right, boxes);
            assert forall|i: int| t.leaves().contains(i) implies bb.contains(
                #[trigger] boxes[i],
            ) by {
                if left.leaves().contains(i) {
                    assert(left.bounds(boxes).contains(boxes[i]));
                } else {
                    assert(right.bounds(boxes).contains(boxes[i]));
                }
            }
        },
    }
}

} // verus!
