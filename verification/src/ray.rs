//! Rays.

use vstd::prelude::*;
use crate::vec3::{Point3, Vec3};

verus! {

/// A half-line: the points `origin + t * direction`.
#[derive(Clone, Copy, Debug, PartialEq, Eq, Structural)]
pub struct Ray {
    pub dir: Vec3,
    pub origin: Point3,
}

impl Ray {
    /// The ray from `origin` along `dir`.
    pub fn new(origin: &Point3, dir: &Vec3) -> (r: Ray)
        ensures
            r.origin == *origin,
            r.dir == *dir,
    {
        Ray { dir: *dir, origin: *origin }
    }

    /// Where the ray starts.
    pub fn origin(&self) -> (p: Point3)
        ensures
            p == self.origin,
    {
        self.origin
    }

    /// Where the ray heads.
    pub fn direction(&self) -> (d: Vec3)
        ensures
            d == self.dir,
    {
        self.dir
    }
}

} // verus!
