//! Faces of the meshes that primitives carry.

use vstd::prelude::*;

verus! {

/// A triangle of a mesh, by the indices of its three vertices.
#[derive(Debug, PartialEq, Eq, Structural, Clone, Copy)]
pub struct VpxFace {
    pub i0: i64,
    pub i1: i64,
    pub i2: i64,
}

/// The face with vertex indices `i0`, `i1`, `i2`.
pub open spec fn face(i0: int, i1: int, i2: int) -> VpxFace {
    VpxFace { i0: i0 as i64, i1: i1 as i64, i2: i2 as i64 }
}

/// Every index of `f` is a vertex of a mesh with `vertex_count` vertices.
pub open spec fn face_in_range(f: VpxFace, vertex_count: int) -> bool {
    &&& 0 <= f.i0 < vertex_count
    &&& 0 <= f.i1 < vertex_count
    &&& 0 <= f.i2 < vertex_count
}

impl VpxFace {
    pub fn new(i0: i64, i1: i64, i2: i64) -> (r: Self)
        ensures
            r == (VpxFace { i0, i1, i2 }),
    {
        VpxFace { i0, i1, i2 }
    }
}

} // verus!
