//! Following a light path from bounce to bounce.

use vstd::prelude::*;
use crate::hittable::{answers, HitRecord, Hittable};
use crate::material::{scatters, Material, Scatter};
use crate::ray::Ray;
use crate::vec3::{Color3, Scalar};

verus! {

/// Why a path ended.
#[derive(Clone, Copy, Debug, PartialEq, Eq, Structural)]
pub enum PathEnd {
    /// The bounces allowed were used up: the path carries no light.
    Exhausted,
    /// A surface absorbed the ray: the path carries no light.
    Absorbed,
    /// The ray left the scene: the path carries the light of the sky.
    Escaped,
}

/// A light path: what each bounce kept of the light, from the last bounce back
/// to the first, the ray that was under way when the path ended, and why it
/// ended.
#[derive(Debug)]
pub struct Path {
    pub attenuation: Vec<Color3>,
    pub last: Ray,
    pub end: PathEnd,
}

/// A light path as a value.
pub struct PathView {
    pub attenuation: Seq<Color3>,
    pub last: Ray,
    pub end: PathEnd,
}

impl View for Path {
    type V = PathView;

    open spec fn view(&self) -> PathView {
        PathView { attenuation: self.attenuation@, last: self.last, end: self.end }
    }
}

/// The path without a bounce that ends with `ray` under way.
pub open spec fn ends_at(ray: Ray, end: PathEnd) -> PathView {
    PathView { attenuation: Seq::empty(), last: ray, end }
}

/// Whether `path` is `rest` after one more bounce, at its start, that kept
/// `kept` of the light.
pub open spec fn extends(rest: PathView, kept: Color3, path: PathView) -> bool {
    path == (PathView { attenuation: rest.attenuation.push(kept), last: rest.last, end: rest.end })
}

/// Whether `path` is what becomes of `ray` at a surface that it struck as
/// `rec` says and that sent it on as `sent` says: absorbed, the path ends
/// there; scattered, the path is `rest`, the path of the scattered ray, after
/// this one bounce.
pub open spec fn bounce<M: Material>(
    ray: Ray,
    rec: HitRecord<M>,
    sent: Option<Scatter>,
    rest: PathView,
    path: PathView,
) -> bool {
    scatters(&rec.material, &ray, &rec, sent) && match sent {
        None => path == ends_at(ray, PathEnd::Absorbed),
        Some(s) => extends(rest, s.attenuation, path),
    }
}

/// Whether `path` may be the path of `ray` through `world` with `depth`
/// bounces allowed. With none allowed the path is exhausted. A ray that strikes
/// nothing between `t_min` and `t_max` escapes. One that strikes a surface is
/// absorbed there, or scattered, and the scattered ray goes on with one bounce
/// fewer.
pub open spec fn path_outcome<W: Hittable>(
    world: &W,
    ray: Ray,
    depth: nat,
    t_min: Scalar,
    t_max: Scalar,
    path: PathView,
) -> bool where W::Mat: Material
    decreases depth,
{
    if depth == 0 {
        path == ends_at(ray, PathEnd::Exhausted)
    } else {
        ||| answers(world, &ray, t_min, t_max, None) && path == ends_at(ray, PathEnd::Escaped)
        ||| exists|rec: HitRecord<W::Mat>, sent: Option<Scatter>, rest: PathView|
            {
                &&& answers(world, &ray, t_min, t_max, Some(rec))
                &&& #[trigger] bounce(ray, rec, sent, rest, path)
                &&& sent matches Some(s) ==> path_outcome(
                    world,
                    s.scattered,
                    (depth - 1) as nat,
                    t_min,
                    t_max,
                    rest,
                )
            }
    }
}

/// A path has no more bounces than were allowed, and is exhausted exactly when
/// it has that many.
pub proof fn lemma_path_is_bounded<W: Hittable>(
    world: &W,
    ray: Ray,
    depth: nat,
    t_min: Scalar,
    t_max: Scalar,
    path: PathView,
) where W::Mat: Material
    requires
        path_outcome(world, ray, depth, t_min, t_max, path),
    ensures
        path.attenuation.len() <= depth,
        path.end == PathEnd::Exhausted <==> path.attenuation.len() == depth,
    decreases depth,
{
    if depth > 0 && !(answers(world, &ray, t_min, t_max, None) && path == ends_at(
        ray,
        PathEnd::Escaped,
    )) {
        let (rec, sent, rest) = choose|
            rec: HitRecord<W::Mat>,
            sent: Option<Scatter>,
            rest: PathView,
        |
            {
                &&& answers(world, &ray, t_min, t_max, Some(rec))
                &&& #[trigger] bounce(ray, rec, sent, rest, path)
                &&& sent matches Some(s) ==> path_outcome(
                    world,
                    s.scattered,
                    (depth - 1) as nat,
                    t_min,
                    t_max,
                    rest,
                )
            };
        if let Some(s) = sent {
            lemma_path_is_bounded(world, s.scattered, (depth - 1) as nat, t_min, t_max, rest);
        }
    }
}

/// Follows `r` through `world` for at most `depth` bounces, looking for
/// surfaces between `t_min` and `t_max` along each ray.
pub fn ray_path<W: Hittable>(r: &Ray, world: &W, depth: u32, t_min: Scalar, t_max: Scalar) -> (path:
    Path) where W::Mat: Material
    ensures
        path_outcome(world, *r, depth as nat, t_min, t_max, path@),
        path@.attenuation.len() <= depth,
        path@.end == PathEnd::Exhausted <==> path@.attenuation.len() == depth,
    decreases depth,
{
    if depth == 0 {
        let path = Path { attenuation: Vec::new(), last: *r, end: PathEnd::Exhausted };
        assert(path@ =~= ends_at(*r, PathEnd::Exhausted));
        return path;
    }
    let found = world.hit(r, t_min, t_max);
    match found {
        None => {
            let path = Path { attenuation: Vec::new(), last: *r, end: PathEnd::Escaped };
            assert(path@ =~= ends_at(*r, PathEnd::Escaped));
            path
        },
        Some(rec) => {
            let sent = rec.material.scatter(r, &rec);
            match sent {
                None => {
                    let path = Path { attenuation: Vec::new(), last: *r, end: PathEnd::Absorbed };
                    proof {
                        assert(path@ =~= ends_at(*r, PathEnd::Absorbed));
                        assert(bounce(*r, rec, sent, path@, path@));
                    }
                    path
                },
                Some(s) => {
                    let mut path = ray_path(&s.scattered, world, depth - 1, t_min, t_max);
                    let ghost rest = path@;
                    path.attenuation.push(s.attenuation);
                    proof {
                        assert(bounce(*r, rec, sent, rest, path@));
                    }
                    path
                },
            }
        },
    }
}

} // verus!
