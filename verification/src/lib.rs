//! The combinatorial core of a Monte Carlo path tracer.
//!
//! A scene is made of shapes that answer one question: where along a ray, within
//! an interval of the ray's parameter, is the shape struck first? This crate holds
//! what a renderer decides with those answers: which of many shapes is closest,
//! how a bounding-volume hierarchy is built and walked, how a light path is
//! followed from bounce to bounce, how a slab test narrows its interval, how a
//! triangle mesh is assembled from its index buffer, and where each pixel of the
//! rendering goes.
//!
//! Scalars are carried as [`Scalar`] keys: integers whose order is the order of
//! the real numbers they stand for. Arithmetic that rounds stays with the
//! embedding program, which implements [`Hittable`], [`Material`] and
//! [`SlabTest`] for its own shapes, surfaces and rays, and hands the library keys
//! where the library compares, selects, sorts or searches.
//!
//! What a shape, a surface or a slab test does is not known here. The contracts
//! therefore say what a function may return in terms of what the shapes may
//! report ([`hittable::answers`], [`hittable::scan_outcome`],
//! [`bvh::walk::walk_outcome`], [`integrator::path_outcome`]), and the laws say
//! what follows where the shapes behave: a hierarchy and a scan of the same
//! shapes find equally near hits ([`bvh::lemma_bvh_agrees_with_scan`]), lists,
//! meshes and hierarchies of shapes that report their nearest hit first do so
//! themselves, and the same boxes and axes give the same hierarchy
//! ([`bvh::tree::lemma_built_is_unique`]).

pub mod aabb;
pub mod bvh;
pub mod hittable;
pub mod hittable_list;
pub mod integrator;
pub mod material;
pub mod model;
pub mod ray;
pub mod render;
pub mod sort;
pub mod sphere;
pub mod triangle;
pub mod util;
pub mod vec3;

pub use aabb::AABB;
pub use bvh::tree::Tree;
pub use bvh::walk::SlabTest;
pub use bvh::{BvhError, BVH};
pub use hittable::{HitRecord, Hittable};
pub use hittable_list::HittableList;
pub use integrator::{ray_path, Path, PathEnd};
pub use material::{Material, Scatter};
pub use model::{Corners, MeshError, Model};
pub use ray::Ray;
pub use vec3::{Axis, Color3, Point3, Scalar, Vec3};
