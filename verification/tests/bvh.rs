use pathtracer::aabb::Crossing;
use pathtracer::sphere::select_root;
use pathtracer::util::random_axis;
use pathtracer::{Axis, BvhError, HitRecord, Hittable, HittableList, Ray, SlabTest, Tree, Vec3, AABB, BVH};

fn key(x: f64) -> i64 {
    let b = (x + 0.0).to_bits() as i64;
    if b < 0 {
        b ^ i64::MAX
    } else {
        b
    }
}

fn val(k: i64) -> f64 {
    f64::from_bits((if k < 0 { k ^ i64::MAX } else { k }) as u64)
}

fn point(v: [f64; 3]) -> Vec3 {
    Vec3::from_keys(key(v[0]), key(v[1]), key(v[2]))
}

fn coords(v: Vec3) -> [f64; 3] {
    [val(v.x()), val(v.y()), val(v.z())]
}

fn dot(a: [f64; 3], b: [f64; 3]) -> f64 {
    a[0] * b[0] + a[1] * b[1] + a[2] * b[2]
}

fn cube(min: [f64; 3], side: f64) -> AABB {
    AABB::new(point(min), point([min[0] + side, min[1] + side, min[2] + side]))
}

/// A sphere that reports its own number as its material.
#[derive(Clone, Copy)]
struct Ball {
    center: [f64; 3],
    radius: f64,
    id: usize,
    boxed: bool,
}

impl Hittable for Ball {
    type Mat = usize;

    fn hit(&self, ray: &Ray, min: i64, max: i64) -> Option<HitRecord<usize>> {
        let (o, d) = (coords(ray.origin()), coords(ray.direction()));
        let oc = [o[0] - self.center[0], o[1] - self.center[1], o[2] - self.center[2]];
        let a = dot(d, d);
        let b = 2.0 * dot(d, oc);
        let c = dot(oc, oc) - self.radius * self.radius;
        let disc = b * b - 4.0 * a * c;
        if disc < 0.0 {
            return None;
        }
        let s = disc.sqrt();
        let near = (-b - s) / (2.0 * a);
        let far = (-b + s) / (2.0 * a);
        let t = val(select_root(key(near), key(far), min, max)?);
        let p = [o[0] + t * d[0], o[1] + t * d[1], o[2] + t * d[2]];
        let n = [
            (p[0] - self.center[0]) / self.radius,
            (p[1] - self.center[1]) / self.radius,
            (p[2] - self.center[2]) / self.radius,
        ];
        let front_face = dot(d, n) < 0.0;
        let normal = if front_face { n } else { [-n[0], -n[1], -n[2]] };
        Some(HitRecord { p: point(p), normal: point(normal), t: key(t), front_face, material: self.id })
    }

    fn bounding_box(&self) -> Option<AABB> {
        if !self.boxed {
            return None;
        }
        let (c, r) = (self.center, self.radius);
        Some(AABB::new(point([c[0] - r, c[1] - r, c[2] - r]), point([c[0] + r, c[1] + r, c[2] + r])))
    }
}

struct Slabs;

impl SlabTest for Slabs {
    fn hit(&self, bb: &AABB, ray: &Ray, t_min: i64, t_max: i64) -> bool {
        let (lo, hi) = (coords(bb.min()), coords(bb.max()));
        let (o, dir) = (coords(ray.origin()), coords(ray.direction()));
        let mut out = [Crossing { at_min: 0, at_max: 0, backwards: false }; 3];
        for axis in 0..3 {
            let d = 1.0 / dir[axis];
            let t0 = (lo[axis] - o[axis]) * d;
            let t1 = (hi[axis] - o[axis]) * d;
            let backwards = d < 0.0;
            let enters = |t: f64| if t.is_nan() { i64::MIN } else { key(t) };
            let leaves = |t: f64| if t.is_nan() { i64::MAX } else { key(t) };
            out[axis] = if backwards {
                Crossing { at_min: leaves(t0), at_max: enters(t1), backwards }
            } else {
                Crossing { at_min: enters(t0), at_max: leaves(t1), backwards }
            };
        }
        AABB::hit(&out, t_min, t_max)
    }
}

/// A test that lets every ray into every box.
struct Open;

impl SlabTest for Open {
    fn hit(&self, _bb: &AABB, _ray: &Ray, _t_min: i64, _t_max: i64) -> bool {
        true
    }
}

/// A test that lets no ray into any box.
struct Shut;

impl SlabTest for Shut {
    fn hit(&self, _bb: &AABB, _ray: &Ray, _t_min: i64, _t_max: i64) -> bool {
        false
    }
}

struct Lcg(u64);

impl Lcg {
    fn next(&mut self) -> f64 {
        self.0 = self.0.wrapping_mul(6364136223846793005).wrapping_add(1442695040888963407);
        ((self.0 >> 11) as f64) / ((1u64 << 53) as f64)
    }

    fn between(&mut self, lo: f64, hi: f64) -> f64 {
        lo + (hi - lo) * self.next()
    }
}

fn list_of(balls: &[Ball]) -> HittableList<Ball> {
    let mut l = HittableList::new();
    for b in balls {
        l.add(*b);
    }
    l
}

fn leaf(t: &Tree) -> usize {
    match t {
        Tree::Leaf { index } => *index,
        Tree::Node { .. } => panic!("a node where a leaf was expected"),
    }
}

fn children(t: &Tree) -> (&Tree, &Tree, AABB) {
    match t {
        Tree::Node { left, right, bb } => (left, right, *bb),
        Tree::Leaf { .. } => panic!("a leaf where a node was expected"),
    }
}

fn leaves_in_order(t: &Tree, out: &mut Vec<usize>) {
    match t {
        Tree::Leaf { index } => out.push(*index),
        Tree::Node { left, right, .. } => {
            leaves_in_order(left, out);
            leaves_in_order(right, out);
        }
    }
}

#[test]
fn one_object_hangs_twice() {
    let boxes = vec![cube([1.0, 2.0, 3.0], 1.0)];
    let t = Tree::build(&boxes, &vec![Axis::X]);
    let (l, r, bb) = children(&t);
    assert_eq!(leaf(l), 0);
    assert_eq!(leaf(r), 0);
    assert_eq!(bb, boxes[0]);
}

#[test]
fn two_objects_are_ordered_along_the_axis() {
    // along x the second box comes first, along y the first one does
    let boxes = vec![cube([5.0, 0.0, 0.0], 1.0), cube([1.0, 3.0, 0.0], 2.0)];
    let by_x = Tree::build(&boxes, &vec![Axis::Z, Axis::X]);
    let (l, r, bb) = children(&by_x);
    assert_eq!((leaf(l), leaf(r)), (1, 0));
    assert_eq!(coords(bb.min()), [1.0, 0.0, 0.0]);
    assert_eq!(coords(bb.max()), [6.0, 5.0, 2.0]);
    let by_y = Tree::build(&boxes, &vec![Axis::Z, Axis::Y]);
    let (l, r, _) = children(&by_y);
    assert_eq!((leaf(l), leaf(r)), (0, 1));
}

#[test]
fn two_objects_with_equal_keys_keep_their_order() {
    let boxes = vec![cube([5.0, 0.0, 0.0], 1.0), cube([1.0, 3.0, 0.0], 2.0)];
    let by_z = Tree::build(&boxes, &vec![Axis::X, Axis::Z]);
    let (l, r, _) = children(&by_z);
    assert_eq!((leaf(l), leaf(r)), (0, 1));
}

#[test]
fn more_objects_are_sorted_and_split_in_the_middle() {
    // x keys: 4, 0, 3, 1, 2; y keys: 0, 1, 2, 3, 4 reversed within the halves
    let boxes = vec![
        cube([4.0, 9.0, 0.0], 1.0),
        cube([0.0, 5.0, 0.0], 1.0),
        cube([3.0, 8.0, 0.0], 1.0),
        cube([1.0, 2.0, 0.0], 1.0),
        cube([2.0, 7.0, 0.0], 1.0),
    ];
    // The root splits before place 2 and sorts along x: [1, 3 | 4, 2, 0].
    // The left half, at places 0 and 1, takes the axis of place 1: y puts 3 first.
    // The right half, at places 2 to 4, splits before place 3 along y: [4 | 2, 0],
    // and its right half takes the axis of place 4: x puts 2 first.
    let axes = vec![Axis::Z, Axis::Y, Axis::X, Axis::Y, Axis::X];
    let t = Tree::build(&boxes, &axes);
    let mut order = Vec::new();
    leaves_in_order(&t, &mut order);
    assert_eq!(order, vec![3, 1, 4, 4, 2, 0]);
    let (l, r, bb) = children(&t);
    assert_eq!(coords(bb.min()), [0.0, 2.0, 0.0]);
    assert_eq!(coords(bb.max()), [5.0, 10.0, 1.0]);
    let (_, _, lb) = children(l);
    assert_eq!(coords(lb.min()), [0.0, 2.0, 0.0]);
    assert_eq!(coords(lb.max()), [2.0, 6.0, 1.0]);
    let (rl, rr, rb) = children(r);
    assert_eq!(coords(rb.min()), [2.0, 7.0, 0.0]);
    assert_eq!(coords(rb.max()), [5.0, 10.0, 1.0]);
    let (single_l, single_r, sb) = children(rl);
    assert_eq!((leaf(single_l), leaf(single_r)), (4, 4));
    assert_eq!(sb, boxes[4]);
    let (pl, pr, _) = children(rr);
    assert_eq!((leaf(pl), leaf(pr)), (2, 0));
}

#[test]
fn sorting_a_node_is_stable() {
    // all keys equal along z: the order of the objects is kept
    let boxes: Vec<AABB> = (0..7).map(|i| cube([7.0 - i as f64, i as f64, 0.0], 1.0)).collect();
    let t = Tree::build(&boxes, &vec![Axis::Z; 7]);
    let mut order = Vec::new();
    leaves_in_order(&t, &mut order);
    assert_eq!(order, vec![0, 0, 1, 2, 3, 4, 5, 6]);
    let t = Tree::build(&boxes, &vec![Axis::X; 7]);
    let mut order = Vec::new();
    leaves_in_order(&t, &mut order);
    assert_eq!(order, vec![6, 6, 5, 4, 3, 2, 1, 0]);
}

#[test]
fn no_hierarchy_over_nothing() {
    let r = BVH::new(list_of(&[]), Slabs);
    assert!(matches!(r, Err(BvhError::Empty)));
}

#[test]
fn no_hierarchy_over_an_object_without_a_box() {
    let mut balls = Vec::new();
    for i in 0..5 {
        balls.push(Ball { center: [i as f64, 0.0, 0.0], radius: 0.25, id: i, boxed: i != 3 });
    }
    let r = BVH::new(list_of(&balls), Slabs);
    assert!(matches!(r, Err(BvhError::Unbounded { index: 3 })));
    balls[1].boxed = false;
    let r = BVH::new(list_of(&balls), Slabs);
    assert!(matches!(r, Err(BvhError::Unbounded { index: 1 })));
}

#[test]
fn the_root_box_is_the_union_of_all_boxes() {
    let balls = [
        Ball { center: [0.0, 0.0, -1.0], radius: 0.5, id: 0, boxed: true },
        Ball { center: [3.0, 1.0, -2.0], radius: 1.0, id: 1, boxed: true },
        Ball { center: [-2.0, -1.0, 4.0], radius: 0.25, id: 2, boxed: true },
    ];
    let bvh = BVH::new(list_of(&balls), Slabs).unwrap();
    let bb = bvh.bounding_box().unwrap();
    assert_eq!(coords(bb.min()), [-2.25, -1.25, -3.0]);
    assert_eq!(coords(bb.max()), [4.0, 2.0, 4.25]);
    let mut order = Vec::new();
    leaves_in_order(bvh.tree(), &mut order);
    // the half that holds a single object hangs it twice
    assert_eq!(order.len(), 4);
    order.sort();
    order.dedup();
    assert_eq!(order, vec![0, 1, 2]);
    assert_eq!(list_of(&balls).bounding_box(), Some(bb));
}

#[test]
fn a_list_without_objects_has_no_box() {
    assert_eq!(list_of(&[]).bounding_box(), None);
    let unboxed = Ball { center: [0.0, 0.0, 0.0], radius: 1.0, id: 0, boxed: false };
    let boxed = Ball { center: [0.0, 0.0, 0.0], radius: 1.0, id: 1, boxed: true };
    assert_eq!(list_of(&[boxed, unboxed]).bounding_box(), None);
    assert_eq!(list_of(&[unboxed, boxed]).bounding_box(), None);
    assert_eq!(list_of(&[boxed]).bounding_box(), boxed.bounding_box());
}

#[test]
fn a_scan_keeps_the_nearest_hit() {
    let balls = [
        Ball { center: [0.0, 0.0, -5.0], radius: 1.0, id: 0, boxed: true },
        Ball { center: [0.0, 0.0, -2.0], radius: 0.5, id: 1, boxed: true },
        Ball { center: [0.0, 0.0, -9.0], radius: 1.0, id: 2, boxed: true },
        Ball { center: [0.0, 9.0, -2.0], radius: 1.0, id: 3, boxed: true },
    ];
    let ray = Ray::new(&point([0.0, 0.0, 0.0]), &point([0.0, 0.0, -1.0]));
    let l = list_of(&balls);
    let h = l.hit(&ray, key(0.001), key(f64::INFINITY)).unwrap();
    assert_eq!(h.material, 1);
    assert_eq!(val(h.t), 1.5);
    assert_eq!(coords(h.p), [0.0, 0.0, -1.5]);
    assert_eq!(coords(h.normal), [0.0, 0.0, 1.0]);
    assert!(h.front_face);
    // beyond the first sphere the next one is found, from 2.6 on its far side
    let h = l.hit(&ray, key(2.6), key(f64::INFINITY)).unwrap();
    assert_eq!((h.material, val(h.t)), (0, 4.0));
    let h = l.hit(&ray, key(4.5), key(f64::INFINITY)).unwrap();
    assert_eq!((h.material, val(h.t)), (0, 6.0));
    assert!(!h.front_face);
    assert!(l.hit(&ray, key(0.001), key(1.25)).is_none());
    assert!(l.hit(&ray, key(10.5), key(f64::INFINITY)).is_none());
    let up = Ray::new(&point([0.0, 0.0, 0.0]), &point([1.0, 0.0, 0.0]));
    assert!(l.hit(&up, key(0.001), key(f64::INFINITY)).is_none());
}

#[test]
fn of_equally_near_hits_a_scan_keeps_the_last() {
    let balls = [
        Ball { center: [0.0, 0.0, -2.0], radius: 0.5, id: 0, boxed: true },
        Ball { center: [0.0, 0.0, -2.0], radius: 0.5, id: 1, boxed: true },
        Ball { center: [0.0, 0.0, -3.0], radius: 0.5, id: 2, boxed: true },
    ];
    let ray = Ray::new(&point([0.0, 0.0, 0.0]), &point([0.0, 0.0, -1.0]));
    let h = list_of(&balls).hit(&ray, key(0.001), key(f64::INFINITY)).unwrap();
    assert_eq!((h.material, val(h.t)), (1, 1.5));
}

#[test]
fn a_walk_goes_left_then_right_no_farther() {
    // one object: both leaves are the same ball, and the right one is probed
    // no farther than the hit found on the left
    let ball = Ball { center: [0.0, 0.0, -2.0], radius: 0.5, id: 7, boxed: true };
    let bvh = BVH::new(list_of(&[ball]), Slabs).unwrap();
    let ray = Ray::new(&point([0.0, 0.0, 0.0]), &point([0.0, 0.0, -1.0]));
    let h = bvh.hit(&ray, key(0.001), key(f64::INFINITY)).unwrap();
    assert_eq!((h.material, val(h.t)), (7, 1.5));
    assert!(bvh.hit(&ray, key(0.001), key(1.0)).is_none());
    let away = Ray::new(&point([0.0, 0.0, 0.0]), &point([0.0, 0.0, 1.0]));
    assert!(bvh.hit(&away, key(0.001), key(f64::INFINITY)).is_none());
}

#[test]
fn a_box_that_is_missed_hides_what_is_below() {
    let balls = [
        Ball { center: [0.0, 0.0, -2.0], radius: 0.5, id: 0, boxed: true },
        Ball { center: [0.0, 0.0, -5.0], radius: 0.5, id: 1, boxed: true },
    ];
    let ray = Ray::new(&point([0.0, 0.0, 0.0]), &point([0.0, 0.0, -1.0]));
    let shut = BVH::new(list_of(&balls), Shut).unwrap();
    assert!(shut.hit(&ray, key(0.001), key(f64::INFINITY)).is_none());
    let open = BVH::new(list_of(&balls), Open).unwrap();
    let h = open.hit(&ray, key(0.001), key(f64::INFINITY)).unwrap();
    assert_eq!((h.material, val(h.t)), (0, 1.5));
}

#[test]
fn a_walk_and_a_scan_find_equally_near_hits() {
    let mut rng = Lcg(2024);
    for scene in 0..40 {
        let count = 1 + scene % 13;
        let mut balls = Vec::new();
        for id in 0..count {
            balls.push(Ball {
                center: [rng.between(-5.0, 5.0), rng.between(-5.0, 5.0), rng.between(-5.0, 5.0)],
                radius: rng.between(0.2, 1.5),
                id,
                boxed: true,
            });
        }
        let list = list_of(&balls);
        let bvh = BVH::new(list_of(&balls), Slabs).unwrap();
        let open = BVH::new(list_of(&balls), Open).unwrap();
        let mut hits = 0;
        for _ in 0..200 {
            let origin = [rng.between(-8.0, 8.0), rng.between(-8.0, 8.0), rng.between(-8.0, 8.0)];
            let target = [rng.between(-5.0, 5.0), rng.between(-5.0, 5.0), rng.between(-5.0, 5.0)];
            let dir = [target[0] - origin[0], target[1] - origin[1], target[2] - origin[2]];
            let ray = Ray::new(&point(origin), &point(dir));
            let t_max = if rng.next() < 0.5 { f64::INFINITY } else { rng.between(0.1, 2.0) };
            let scanned = list.hit(&ray, key(0.001), key(t_max));
            let walked = bvh.hit(&ray, key(0.001), key(t_max));
            let unpruned = open.hit(&ray, key(0.001), key(t_max));
            assert_eq!(scanned.as_ref().map(|h| h.t), walked.as_ref().map(|h| h.t));
            assert_eq!(scanned.as_ref().map(|h| h.t), unpruned.as_ref().map(|h| h.t));
            if let Some(h) = walked {
                hits += 1;
                assert!(key(0.001) <= h.t && h.t <= key(t_max));
                let again = balls[h.material].hit(&ray, key(0.001), key(f64::INFINITY)).unwrap();
                assert_eq!(again.t, h.t);
            }
        }
        assert!(hits > 0);
    }
}

#[test]
fn hierarchies_and_lists_nest() {
    let mut rng = Lcg(31);
    let mut groups: Vec<Vec<Ball>> = Vec::new();
    let mut all = Vec::new();
    for g in 0..6 {
        let mut group = Vec::new();
        for k in 0..(1 + g) {
            let ball = Ball {
                center: [rng.between(-5.0, 5.0), rng.between(-5.0, 5.0), rng.between(-5.0, 5.0)],
                radius: rng.between(0.2, 1.0),
                id: 10 * g + k,
                boxed: true,
            };
            group.push(ball);
            all.push(ball);
        }
        groups.push(group);
    }
    // a hierarchy over lists, and a list of hierarchies
    let mut lists = HittableList::new();
    let mut trees = HittableList::new();
    for group in &groups {
        lists.add(list_of(group));
        trees.add(BVH::new(list_of(group), Slabs).unwrap());
    }
    let over_lists = BVH::new(lists, Slabs).unwrap();
    let over_trees = BVH::new(trees, Slabs).unwrap();
    let flat = list_of(&all);
    assert_eq!(over_lists.bounding_box(), flat.bounding_box());
    assert_eq!(over_trees.bounding_box(), flat.bounding_box());
    let mut hits = 0;
    for _ in 0..300 {
        let origin = [rng.between(-8.0, 8.0), rng.between(-8.0, 8.0), rng.between(-8.0, 8.0)];
        let target = [rng.between(-4.0, 4.0), rng.between(-4.0, 4.0), rng.between(-4.0, 4.0)];
        let dir = [target[0] - origin[0], target[1] - origin[1], target[2] - origin[2]];
        let ray = Ray::new(&point(origin), &point(dir));
        let expected = flat.hit(&ray, key(0.001), key(f64::INFINITY)).map(|h| h.t);
        assert_eq!(over_lists.hit(&ray, key(0.001), key(f64::INFINITY)).map(|h| h.t), expected);
        assert_eq!(over_trees.hit(&ray, key(0.001), key(f64::INFINITY)).map(|h| h.t), expected);
        if expected.is_some() {
            hits += 1;
        }
    }
    assert!(hits > 0);
}

#[test]
fn the_same_axes_give_the_same_hierarchy() {
    let mut rng = Lcg(7);
    let mut balls = Vec::new();
    for id in 0..23 {
        balls.push(Ball {
            center: [rng.between(-5.0, 5.0), rng.between(-5.0, 5.0), rng.between(-5.0, 5.0)],
            radius: rng.between(0.2, 1.5),
            id,
            boxed: true,
        });
    }
    let axes: Vec<Axis> = (0..23).map(|i| [Axis::Y, Axis::X, Axis::Z, Axis::X][i % 4]).collect();
    let first = BVH::with_axes(list_of(&balls), Slabs, &axes).unwrap();
    let second = BVH::with_axes(list_of(&balls), Slabs, &axes).unwrap();
    assert_eq!(first.tree(), second.tree());
    let boxes: Vec<AABB> = balls.iter().map(|b| b.bounding_box().unwrap()).collect();
    assert_eq!(first.tree(), &Tree::build(&boxes, &axes));
    let mut order = Vec::new();
    leaves_in_order(first.tree(), &mut order);
    order.sort();
    order.dedup();
    assert_eq!(order, (0..23).collect::<Vec<usize>>());
    for _ in 0..50 {
        let origin = [rng.between(-8.0, 8.0), rng.between(-8.0, 8.0), rng.between(-8.0, 8.0)];
        let ray = Ray::new(&point(origin), &point([-origin[0], -origin[1], -origin[2]]));
        let a = first.hit(&ray, key(0.001), key(f64::INFINITY));
        let b = second.hit(&ray, key(0.001), key(f64::INFINITY));
        assert_eq!(a.as_ref().map(|h| (h.t, h.material, h.p)), b.as_ref().map(|h| (h.t, h.material, h.p)));
    }
}

#[test]
fn with_axes_given_nothing_is_built_over_nothing() {
    assert!(matches!(BVH::with_axes(list_of(&[]), Slabs, &vec![]), Err(BvhError::Empty)));
    assert!(matches!(BVH::with_axes(list_of(&[]), Slabs, &vec![Axis::X]), Err(BvhError::Empty)));
    let unboxed = Ball { center: [0.0, 0.0, 0.0], radius: 1.0, id: 0, boxed: false };
    assert!(matches!(
        BVH::with_axes(list_of(&[unboxed]), Slabs, &vec![Axis::X]),
        Err(BvhError::Unbounded { index: 0 })
    ));
}

#[test]
fn every_axis_is_drawn() {
    let mut seen = [0usize; 3];
    for _ in 0..600 {
        match random_axis() {
            Axis::X => seen[0] += 1,
            Axis::Y => seen[1] += 1,
            Axis::Z => seen[2] += 1,
        }
    }
    assert!(seen[0] > 0 && seen[1] > 0 && seen[2] > 0);
    assert_eq!(seen[0] + seen[1] + seen[2], 600);
}
