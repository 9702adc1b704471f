//! Scalars as ordered keys, and triples of them.

use vstd::prelude::*;

verus! {

/// A real number of the scene, held as a key: `a < b` as keys exactly when the
/// number behind `a` is below the number behind `b`.
pub type Scalar = i64;

/// A colour, one key per channel.
pub type Color3 = Vec3;

/// A position.
pub type Point3 = Vec3;

/// One of the three coordinate axes.
#[derive(Clone, Copy, Debug, PartialEq, Eq, Structural)]
pub enum Axis {
    X,
    Y,
    Z,
}

/// Three scalars: a point, a direction or a colour.
#[derive(Clone, Copy, Debug, PartialEq, Eq, Structural)]
pub struct Vec3 {
    pub x: Scalar,
    pub y: Scalar,
    pub z: Scalar,
}

/// The smaller of two scalars.
pub open spec fn min_of(a: Scalar, b: Scalar) -> Scalar {
    if a <= b {
        a
    } else {
        b
    }
}

/// The larger of two scalars.
pub open spec fn max_of(a: Scalar, b: Scalar) -> Scalar {
    if a >= b {
        a
    } else {
        b
    }
}

/// Computes the smaller of two scalars.
pub fn scalar_min(a: Scalar, b: Scalar) -> (m: Scalar)
    ensures
        m == min_of(a, b),
{
    if a <= b {
        a
    } else {
        b
    }
}

/// Computes the larger of two scalars.
pub fn scalar_max(a: Scalar, b: Scalar) -> (m: Scalar)
    ensures
        m == max_of(a, b),
{
    if a >= b {
        a
    } else {
        b
    }
}

impl Axis {
    /// The axis numbered `i`, counting X, Y, Z from zero; any larger number
    /// names Z.
    pub open spec fn of_index(i: int) -> Axis {
        if i == 0 {
            Axis::X
        } else if i == 1 {
            Axis::Y
        } else {
            Axis::Z
        }
    }

    /// The axis numbered `i`.
    pub fn from_index(i: usize) -> (axis: Axis)
        ensures
            axis == Axis::of_index(i as int),
    {
        if i == 0 {
            Axis::X
        } else if i == 1 {
            Axis::Y
        } else {
            Axis::Z
        }
    }
}

impl Vec3 {
    /// The triple `(x, y, z)`.
    pub fn from_keys(x: Scalar, y: Scalar, z: Scalar) -> (v: Vec3)
        ensures
            v == (Vec3 { x, y, z }),
    {
        Vec3 { x, y, z }
    }

    /// The first component.
    pub fn x(&self) -> (r: Scalar)
        ensures
            r == self.x,
    {
        self.x
    }

    /// The second component.
    pub fn y(&self) -> (r: Scalar)
        ensures
            r == self.y,
    {
        self.y
    }

    /// The third component.
    pub fn z(&self) -> (r: Scalar)
        ensures
            r == self.z,
    {
        self.z
    }

    /// The component along `axis`.
    pub open spec fn at(self, axis: Axis) -> Scalar {
        match axis {
            Axis::X => self.x,
            Axis::Y => self.y,
            Axis::Z => self.z,
        }
    }

    /// Reads the component along `axis`.
    pub fn get(&self, axis: Axis) -> (r: Scalar)
        ensures
            r == self.at(axis),
    {
        match axis {
            Axis::X => self.x,
            Axis::Y => self.y,
            Axis::Z => self.z,
        }
    }

    /// Whether no component of `self` exceeds that of `other`.
    pub open spec fn le(self, other: Vec3) -> bool {
        self.x <= other.x && self.y <= other.y && self.z <= other.z
    }

    /// The component-wise minimum.
    pub open spec fn lower(self, other: Vec3) -> Vec3 {
        Vec3 { x: min_of(self.x, other.x), y: min_of(self.y, other.y), z: min_of(self.z, other.z) }
    }

    /// The component-wise maximum.
    pub open spec fn upper(self, other: Vec3) -> Vec3 {
        Vec3 { x: max_of(self.x, other.x), y: max_of(self.y, other.y), z: max_of(self.z, other.z) }
    }
}

} // verus!
