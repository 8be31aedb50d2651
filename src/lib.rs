// A dynamic spatial index over axis-aligned boxes tagged with entity handles:
// insertion, removal, region queries and nearest-hit ray queries, on an octree
// whose root grows to admit boxes outside its bound.
//
// Geometry is exact. Coordinates are integers (a fixed-point unit chosen by the
// caller), box centers round toward negative infinity, and ray parameters are
// fractions with a positive denominator, so every comparison the tree makes is
// decided without rounding.
//
// - `vec3`: lattice points and scaled rational points.
// - `aabb`: boxes, octants, overlap, and the doubling growth of a bound.
// - `ray`: rays, the slab test, and octant stepping along a ray.
// - `octree`: the node arena, the tree and its queries.
// - `func`: a component holding a callable action.

pub mod aabb;
pub mod func;
pub mod octree;
pub mod ray;
pub mod vec3;

use vstd::prelude::*;

verus! {

/// Marks whether an entity takes part in collision queries.
pub struct Collides;

} // verus!
