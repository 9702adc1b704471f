//! Triangle meshes: how the triangles are read off a mesh's buffers, and the
//! mesh as one shape.

use vstd::prelude::*;
use crate::aabb::AABB;
use crate::hittable::{
    answers, closest_first, closest_hit, lemma_scan_reports_first, nearest, reports_first,
    scan_outcome, within, HitRecord, Hittable,
};
use crate::hittable_list::{bounding_box_of, boxes_outcome};
use crate::ray::Ray;
use crate::vec3::{Point3, Scalar, Vec3};

verus! {

/// Why a mesh's buffers do not describe triangles.
#[derive(Clone, Copy, Debug, PartialEq, Eq, Structural)]
pub enum MeshError {
    /// The coordinates do not come in threes.
    Positions,
    /// The corner numbers do not come in threes.
    NotTriangulated,
    /// The corner number at this place of the index buffer names no vertex.
    NoSuchVertex { at: usize },
}

/// The three corners of a triangle.
#[derive(Clone, Copy, Debug, PartialEq, Eq, Structural)]
pub struct Corners {
    pub v0: Point3,
    pub v1: Point3,
    pub v2: Point3,
}

/// The vertex numbered `j` of a buffer of coordinates.
pub open spec fn vertex(positions: Seq<Scalar>, j: int) -> Point3 {
    Vec3 { x: positions[3 * j], y: positions[3 * j + 1], z: positions[3 * j + 2] }
}

/// The triangle numbered `k` of a mesh.
pub open spec fn triangle(positions: Seq<Scalar>, indices: Seq<u32>, k: int) -> Corners {
    Corners {
        v0: vertex(positions, indices[3 * k] as int),
        v1: vertex(positions, indices[3 * k + 1] as int),
        v2: vertex(positions, indices[3 * k + 2] as int),
    }
}

/// Whether the corner number at place `at` names no vertex.
pub open spec fn dangling(positions: Seq<Scalar>, indices: Seq<u32>, at: int) -> bool {
    0 <= at < indices.len() && indices[at] >= positions.len() / 3
}

/// What becomes of a mesh's buffers: its triangles in the order of the index
/// buffer, or the first thing that is wrong with them.
pub open spec fn assembled(positions: Seq<Scalar>, indices: Seq<u32>) -> Result<
    Seq<Corners>,
    MeshError,
> {
    if positions.len() % 3 != 0 {
        Err(MeshError::Positions)
    } else if indices.len() % 3 != 0 {
        Err(MeshError::NotTriangulated)
    } else if exists|at: int| dangling(positions, indices, at) {
        let first = choose|at: int|
            dangling(positions, indices, at) && forall|b: int|
                0 <= b < at ==> !dangling(positions, indices, b);
        Err(MeshError::NoSuchVertex { at: first as usize })
    } else {
        Ok(Seq::new(indices.len() / 3, |k: int| triangle(positions, indices, k)))
    }
}

/// Reads the triangles off the buffers of a mesh: `positions` holds the
/// coordinates of the vertices, three each, and `indices` the numbers of the
/// corners, three for each triangle.
pub fn triangles(positions: &Vec<Scalar>, indices: &Vec<u32>) -> (r: Result<
    Vec<Corners>,
    MeshError,
>)
    ensures
        match (r, assembled(positions@, indices@)) {
            (Ok(tris), Ok(expected)) => tris@ == expected,
            (Err(e), Err(expected)) => e == expected,
            _ => false,
        },
{
    if positions.len() % 3 != 0 {
        return Err(MeshError::Positions);
    }
    if indices.len() % 3 != 0 {
        return Err(MeshError::NotTriangulated);
    }
    let count = positions.len() / 3;
    let mut tris: Vec<Corners> = Vec::new();
    let mut k: usize = 0;
    while k < indices.len() / 3
        invariant
            positions.len() % 3 == 0,
            indices.len() % 3 == 0,
            count == positions.len() / 3,
            k <= indices.len() / 3,
            tris@ == Seq::new(k as nat, |j: int| triangle(positions@, indices@, j)),
            forall|b: int| 0 <= b < 3 * k ==> !dangling(positions@, indices@, b),
        decreases indices.len() / 3 - k,
    {
        let mut corner: usize = 0;
        let mut found: [Point3; 3] = [Vec3::from_keys(0, 0, 0); 3];
        while corner < 3
            invariant
                positions.len() % 3 == 0,
                indices.len() % 3 == 0,
                count == positions.len() / 3,
                k < indices.len() / 3,
                corner <= 3,
                forall|b: int| 0 <= b < 3 * k + corner ==> !dangling(positions@, indices@, b),
                forall|c: int|
                    0 <= c < corner ==> found@[c] == vertex(
                        positions@,
                        indices@[3 * k + c] as int,
                    ),
            decreases 3 - corner,
        {
            let at = 3 * k + corner;
            let j = indices[at] as usize;
            if j >= count {
                proof {
                    assert(dangling(positions@, indices@, at as int));
                    let first = choose|a: int|
                        dangling(positions@, indices@, a) && forall|b: int|
                            0 <= b < a ==> !dangling(positions@, indices@, b);
                    assert(first == at) by {
                        if first < at {
                            assert(!dangling(positions@, indices@, first));
                        }
                        if at < first {
                            assert(!dangling(positions@, indices@, at as int));
                        }
                    }
                }
                return Err(MeshError::NoSuchVertex { at });
            }
            let v = Vec3::from_keys(positions[3 * j], positions[3 * j + 1], positions[3 * j + 2]);
            found[corner] = v;
            corner = corner + 1;
        }
        tris.push(Corners { v0: found[0], v1: found[1], v2: found[2] });
        proof {
            assert(tris@ =~= Seq::new((k + 1) as nat, |j: int| triangle(positions@, indices@, j)));
        }
        k = k + 1;
    }
    proof {
        assert forall|at: int| !dangling(positions@, indices@, at) by {
            if 0 <= at < indices@.len() {
                assert(at < 3 * k);
            }
        }
    }
    Ok(tris)
}

/// A mesh: triangles that are searched one after the other.
pub struct Model<T> {
    tris: Vec<T>,
}

impl<T> View for Model<T> {
    type V = Seq<T>;

    closed spec fn view(&self) -> Seq<T> {
        self.tris@
    }
}

impl<T> Model<T> {
    /// The mesh of the triangles `tris`, in their order.
    pub fn new(tris: Vec<T>) -> (m: Self)
        ensures
            m@ == tris@,
    {
        Model { tris }
    }

    /// How many triangles the mesh has.
    pub fn len(&self) -> (n: usize)
        ensures
            n == self@.len(),
    {
        self.tris.len()
    }
}

impl<T: Hittable> Hittable for Model<T> {
    type Mat = T::Mat;

    /// The nearest hit among the triangles, each probed no farther than the
    /// nearest found before it.
    fn hit(&self, ray: &Ray, min: Scalar, max: Scalar) -> (r: Option<HitRecord<T::Mat>>)
        ensures
            scan_outcome(self@, ray, min, max, r),
    {
        closest_hit(&self.tris, ray, min, max)
    }

    /// The union of the boxes of all triangles; none where the mesh is empty or
    /// a triangle has none.
    fn bounding_box(&self) -> (r: Option<AABB>)
        ensures
            boxes_outcome(self@, r),
    {
        bounding_box_of(&self.tris)
    }
}

/// A mesh of triangles that report their nearest hit first reports its nearest
/// hit first: the nearest of theirs.
pub proof fn lemma_mesh_is_closest_first<T: Hittable>(m: &Model<T>, ray: &Ray, min: Scalar)
    requires
        forall|i: int| 0 <= i < m@.len() ==> closest_first(&#[trigger] m@[i], ray, min),
    ensures
        reports_first(m, ray, min, nearest(m@, ray, min)),
        closest_first(m, ray, min),
{
    assert forall|max: Scalar, r: Option<HitRecord<T::Mat>>| #[trigger]
        answers(m, ray, min, max, r) implies r == within(nearest(m@, ray, min), max) by {
        lemma_scan_reports_first(m@, ray, min, max, r);
    }
}

} // verus!
