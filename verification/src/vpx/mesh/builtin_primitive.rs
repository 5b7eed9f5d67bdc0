//! The procedural mesh of vpinball primitives that don't load a `.obj` file
//! (`use_3d_mesh = false`), as vpinball's `Primitive::CalculateBuiltinOriginal`
//! builds it from two fields: `sides` (the number of polygon sides of the
//! top and bottom caps) and `draw_textures_inside` (whether back faces are
//! emitted too).
//!
//! Vertex layout (`4 * sides + 2` in all):
//!
//! ```text
//! 0                      : top centre
//! 1 .. sides+1           : top edge ring
//! sides+1                : bottom centre
//! sides+2 .. 2*sides+2   : bottom edge ring
//! 2*sides+2 .. 3*sides+2 : side top ring
//! 3*sides+2 .. 4*sides+2 : side bottom ring
//! ```
//!
//! This module builds that layout and the triangles over it; the positions,
//! normals and texture coordinates of each vertex kind follow from the
//! kind, its ring position and the number of sides.

use vstd::prelude::*;
use crate::vpx::obj::{VpxFace, face, face_in_range};

verus! {

/// Which vertex of the builtin primitive mesh a slot holds, with its
/// position on its ring for the ring vertices.
#[derive(Debug, PartialEq, Eq, Structural, Clone, Copy)]
pub enum BuiltinVertex {
    /// Top centre, at `z = +0.5` with normal `+Z`.
    TopCentre,
    /// Point of the top cap ring, normal `+Z`.
    TopRing(u32),
    /// Bottom centre, at `z = -0.5` with normal `-Z`.
    BottomCentre,
    /// Point of the bottom cap ring, normal `-Z`.
    BottomRing(u32),
    /// Top point of a side, with an outward normal in the XY plane.
    SideTop(u32),
    /// Bottom point of a side, with an outward normal in the XY plane.
    SideBottom(u32),
}

/// The number of vertices of the mesh of a primitive with `n` sides.
pub open spec fn builtin_vertex_count(n: int) -> int {
    4 * n + 2
}

/// The vertex in slot `k` of the mesh of a primitive with `n` sides.
pub open spec fn builtin_vertex_at(n: int, k: int) -> BuiltinVertex {
    if k == 0 {
        BuiltinVertex::TopCentre
    } else if k <= n {
        BuiltinVertex::TopRing((k - 1) as u32)
    } else if k == n + 1 {
        BuiltinVertex::BottomCentre
    } else if k <= 2 * n + 1 {
        BuiltinVertex::BottomRing((k - n - 2) as u32)
    } else if k <= 3 * n + 1 {
        BuiltinVertex::SideTop((k - 2 * n - 2) as u32)
    } else {
        BuiltinVertex::SideBottom((k - 3 * n - 2) as u32)
    }
}

/// The triangles of side `i` of a primitive with `n` sides: the top cap,
/// the bottom cap and the two halves of the side quad, then, when the
/// inside is drawn too, the same four with the opposite winding.
pub open spec fn builtin_side_faces(n: int, inside: bool, i: int) -> Seq<VpxFace> {
    let tmp = if i == n - 1 { 1 } else { i + 2 };
    let tmp2 = tmp + 1;
    let a = 2 * n + tmp2;
    let b = 3 * n + 2 + i;
    let c = 2 * n + 2 + i;
    let d = 3 * n + tmp2;
    let outside = seq![
        face(0, tmp, i + 1),
        face(n + 1, n + 2 + i, n + tmp2),
        face(a, b, c),
        face(a, d, b),
    ];
    if inside {
        outside + seq![
            face(0, i + 1, tmp),
            face(n + 1, n + tmp2, n + 2 + i),
            face(a, c, b),
            face(a, b, d),
        ]
    } else {
        outside
    }
}

/// The triangles of the first `count` sides of a primitive with `n` sides.
pub open spec fn builtin_faces(n: int, inside: bool, count: int) -> Seq<VpxFace>
    decreases count,
{
    if count <= 0 {
        Seq::empty()
    } else {
        builtin_faces(n, inside, count - 1) + builtin_side_faces(n, inside, count - 1)
    }
}

/// The triangles of every side hold 4 faces per side, 8 when the inside
/// is drawn too.
pub proof fn lemma_builtin_faces_len(n: int, inside: bool, count: int)
    requires
        count >= 0,
    ensures
        builtin_faces(n, inside, count).len() == (if inside { 8int } else { 4int }) * count,
    decreases count,
{
    if count > 0 {
        lemma_builtin_faces_len(n, inside, count - 1);
    }
}

/// Every triangle of the mesh of a primitive with at least three sides
/// refers to a vertex of the mesh.
pub proof fn lemma_builtin_faces_in_range(n: int, inside: bool, count: int)
    requires
        n >= 3,
        0 <= count <= n,
        4 * n + 2 <= i64::MAX,
    ensures
        forall|j: int|
            0 <= j < builtin_faces(n, inside, count).len() ==> face_in_range(
                #[trigger] builtin_faces(n, inside, count)[j],
                builtin_vertex_count(n),
            ),
    decreases count,
{
    if count > 0 {
        lemma_builtin_faces_in_range(n, inside, count - 1);
        let prev = builtin_faces(n, inside, count - 1);
        let side = builtin_side_faces(n, inside, count - 1);
        assert forall|j: int| 0 <= j < side.len() implies face_in_range(
            #[trigger] side[j],
            builtin_vertex_count(n),
        ) by {}
        assert forall|j: int|
            0 <= j < builtin_faces(n, inside, count).len() implies face_in_range(
            #[trigger] builtin_faces(n, inside, count)[j],
            builtin_vertex_count(n),
        ) by {
            if j < prev.len() {
                assert(builtin_faces(n, inside, count)[j] == prev[j]);
            } else {
                assert(builtin_faces(n, inside, count)[j] == side[j - prev.len()]);
            }
        }
    }
}

/// Where the vertices of the mesh of a primitive with `n` sides lie: the
/// top centre first, then the top cap ring, the bottom centre, the bottom
/// cap ring, the top points of the sides and their bottom points, each ring
/// in ring order.
pub proof fn lemma_builtin_layout(n: int, i: int)
    requires
        0 <= i < n,
    ensures
        builtin_vertex_count(n) == 4 * n + 2,
        builtin_vertex_at(n, 0) == BuiltinVertex::TopCentre,
        builtin_vertex_at(n, n + 1) == BuiltinVertex::BottomCentre,
        builtin_vertex_at(n, 1 + i) == BuiltinVertex::TopRing(i as u32),
        builtin_vertex_at(n, n + 2 + i) == BuiltinVertex::BottomRing(i as u32),
        builtin_vertex_at(n, 2 * n + 2 + i) == BuiltinVertex::SideTop(i as u32),
        builtin_vertex_at(n, 3 * n + 2 + i) == BuiltinVertex::SideBottom(i as u32),
{
}

/// The faces of side `i` come at `w * i` among the faces of the first
/// `count` sides, `w` being 4, or 8 when the inside is drawn too.
proof fn lemma_builtin_faces_at(n: int, inside: bool, count: int, i: int, k: int)
    requires
        0 <= i < count,
        0 <= k < (if inside { 8int } else { 4int }),
    ensures
        builtin_faces(n, inside, count)[(if inside { 8int } else { 4int }) * i + k]
            == builtin_side_faces(n, inside, i)[k],
    decreases count,
{
    let w: int = if inside { 8 } else { 4 };
    lemma_builtin_faces_len(n, inside, count - 1);
    let prev = builtin_faces(n, inside, count - 1);
    let side = builtin_side_faces(n, inside, count - 1);
    assert(builtin_faces(n, inside, count) == prev + side);
    if i < count - 1 {
        lemma_builtin_faces_at(n, inside, count - 1, i, k);
        assert(w * i + k < prev.len()) by (nonlinear_arith)
            requires
                prev.len() == w * (count - 1),
                0 <= i < count - 1,
                0 <= k < w,
                w >= 4,
        ;
    } else {
        assert(w * i == prev.len()) by (nonlinear_arith)
            requires
                prev.len() == w * (count - 1),
                i == count - 1,
        ;
    }
}

/// The vertex kinds at the three corners of `f`.
pub open spec fn corner_kinds(n: int, f: VpxFace) -> (BuiltinVertex, BuiltinVertex, BuiltinVertex) {
    (builtin_vertex_at(n, f.i0 as int), builtin_vertex_at(n, f.i1 as int), builtin_vertex_at(n, f.i2 as int))
}

/// The front faces of side `i`, whose next side is `j = (i + 1) mod n`,
/// all wound the same way round: the top cap triangle goes from the top
/// centre to ring point `j` then `i`; the bottom cap triangle from the
/// bottom centre to ring point `i` then `j`, the opposite turn, as it faces
/// down; and the side quad is the triangles (top `j`, bottom `i`, top `i`)
/// and (top `j`, bottom `j`, bottom `i`).
pub proof fn lemma_builtin_front_faces(n: int, inside: bool, i: int)
    requires
        n >= 3,
        0 <= i < n,
        4 * n + 2 <= i64::MAX,
    ensures
        ({
            let fs = builtin_faces(n, inside, n);
            let w: int = if inside { 8 } else { 4 };
            let j = (i + 1) % n;
            &&& corner_kinds(n, fs[w * i]) == (
                BuiltinVertex::TopCentre,
                BuiltinVertex::TopRing(j as u32),
                BuiltinVertex::TopRing(i as u32),
            )
            &&& corner_kinds(n, fs[w * i + 1]) == (
                BuiltinVertex::BottomCentre,
                BuiltinVertex::BottomRing(i as u32),
                BuiltinVertex::BottomRing(j as u32),
            )
            &&& corner_kinds(n, fs[w * i + 2]) == (
                BuiltinVertex::SideTop(j as u32),
                BuiltinVertex::SideBottom(i as u32),
                BuiltinVertex::SideTop(i as u32),
            )
            &&& corner_kinds(n, fs[w * i + 3]) == (
                BuiltinVertex::SideTop(j as u32),
                BuiltinVertex::SideBottom(j as u32),
                BuiltinVertex::SideBottom(i as u32),
            )
        }),
{
    let w: int = if inside { 8 } else { 4 };
    let j = (i + 1) % n;
    assert(j == (if i == n - 1 { 0 } else { i + 1 })) by {
        if i == n - 1 {
            assert((n - 1 + 1) % n == 0) by (nonlinear_arith)
                requires
                    n >= 3,
            ;
        } else {
            assert((i + 1) % n == i + 1) by (nonlinear_arith)
                requires
                    0 <= i + 1 < n,
            ;
        }
    }
    lemma_builtin_faces_at(n, inside, n, i, 0);
    lemma_builtin_faces_at(n, inside, n, i, 1);
    lemma_builtin_faces_at(n, inside, n, i, 2);
    lemma_builtin_faces_at(n, inside, n, i, 3);
    lemma_builtin_layout(n, i);
    lemma_builtin_layout(n, j);
}

/// `f` seen from the other side: the same corners with the winding reversed.
pub open spec fn reversed_face(f: VpxFace) -> VpxFace {
    VpxFace { i0: f.i0, i1: f.i2, i2: f.i1 }
}

proof fn lemma_side_back_faces(n: int, i: int, k: int)
    requires
        0 <= k < 4,
    ensures
        builtin_side_faces(n, true, i).len() == 8,
        builtin_side_faces(n, false, i).len() == 4,
        builtin_side_faces(n, true, i)[k] == builtin_side_faces(n, false, i)[k],
        builtin_side_faces(n, true, i)[4 + k] == reversed_face(builtin_side_faces(n, false, i)[k]),
{
    let sb = builtin_side_faces(n, true, i);
    let so = builtin_side_faces(n, false, i);
    if k == 0 {
        assert(sb[0] == so[0] && sb[4] == reversed_face(so[0]));
    } else if k == 1 {
        assert(sb[1] == so[1] && sb[5] == reversed_face(so[1]));
    } else if k == 2 {
        assert(sb[2] == so[2] && sb[6] == reversed_face(so[2]));
    } else {
        assert(sb[3] == so[3] && sb[7] == reversed_face(so[3]));
    }
}

/// Drawing the inside too keeps the front faces of each side, in order,
/// and follows them with the same four faces with the winding reversed:
/// twice as many faces in all.
pub proof fn lemma_builtin_back_faces(n: int, count: int)
    requires
        count >= 0,
    ensures
        builtin_faces(n, true, count).len() == 2 * builtin_faces(n, false, count).len(),
        forall|i: int, k: int|
            0 <= i < count && 0 <= k < 4 ==> {
                &&& #[trigger] builtin_faces(n, true, count)[8 * i + k] == builtin_faces(
                    n,
                    false,
                    count,
                )[4 * i + k]
                &&& builtin_faces(n, true, count)[8 * i + 4 + k] == reversed_face(
                    builtin_faces(n, false, count)[4 * i + k],
                )
            },
    decreases count,
{
    lemma_builtin_faces_len(n, true, count);
    lemma_builtin_faces_len(n, false, count);
    if count > 0 {
        lemma_builtin_back_faces(n, count - 1);
        lemma_builtin_faces_len(n, true, count - 1);
        lemma_builtin_faces_len(n, false, count - 1);
        let both = builtin_faces(n, true, count);
        let out = builtin_faces(n, false, count);
        let both0 = builtin_faces(n, true, count - 1);
        let out0 = builtin_faces(n, false, count - 1);
        let sb = builtin_side_faces(n, true, count - 1);
        let so = builtin_side_faces(n, false, count - 1);
        assert(both == both0 + sb);
        assert(out == out0 + so);
        assert forall|i: int, k: int| 0 <= i < count && 0 <= k < 4 implies {
            &&& #[trigger] builtin_faces(n, true, count)[8 * i + k] == builtin_faces(
                n,
                false,
                count,
            )[4 * i + k]
            &&& builtin_faces(n, true, count)[8 * i + 4 + k] == reversed_face(
                builtin_faces(n, false, count)[4 * i + k],
            )
        } by {
            if i < count - 1 {
                assert(both[8 * i + k] == both0[8 * i + k]);
                assert(both[8 * i + 4 + k] == both0[8 * i + 4 + k]);
                assert(out[4 * i + k] == out0[4 * i + k]);
            } else {
                lemma_side_back_faces(n, count - 1, k);
                assert(both[8 * i + k] == sb[k]);
                assert(both[8 * i + 4 + k] == sb[4 + k]);
                assert(out[4 * i + k] == so[k]);
            }
        }
    }
}

/// Pushes the `count` ring vertices of the given kind, ring positions 0 up.
fn push_ring(verts: &mut Vec<BuiltinVertex>, count: u32, kind: u8)
    requires
        kind < 4,
    ensures
        final(verts)@ == old(verts)@ + Seq::new(
            count as nat,
            |i: int| ring_vertex(kind, i as u32),
        ),
{
    let ghost start = verts@;
    let mut i: u32 = 0;
    while i < count
        invariant
            i <= count,
            kind < 4,
            verts@ == start + Seq::new(i as nat, |j: int| ring_vertex(kind, j as u32)),
        decreases count - i,
    {
        let v = if kind == 0 {
            BuiltinVertex::TopRing(i)
        } else if kind == 1 {
            BuiltinVertex::BottomRing(i)
        } else if kind == 2 {
            BuiltinVertex::SideTop(i)
        } else {
            BuiltinVertex::SideBottom(i)
        };
        verts.push(v);
        i = i + 1;
        assert(verts@ =~= start + Seq::new(i as nat, |j: int| ring_vertex(kind, j as u32)));
    }
}

/// The ring vertex of the given kind (top cap, bottom cap, side top, side
/// bottom) at ring position `i`.
pub open spec fn ring_vertex(kind: u8, i: u32) -> BuiltinVertex {
    if kind == 0 {
        BuiltinVertex::TopRing(i)
    } else if kind == 1 {
        BuiltinVertex::BottomRing(i)
    } else if kind == 2 {
        BuiltinVertex::SideTop(i)
    } else {
        BuiltinVertex::SideBottom(i)
    }
}

/// Build the procedural mesh used when a primitive has `use_3d_mesh =
/// false`: the layout of its `4 * sides + 2` vertices and its triangles.
/// Returns `None` if `sides < 3` (degenerate: vpinball clamps to 3 in the
/// editor, and this declines rather than producing a malformed mesh).
pub fn build_builtin_primitive_mesh(sides: u32, draw_textures_inside: bool) -> (r: Option<
    (Vec<BuiltinVertex>, Vec<VpxFace>),
>)
    ensures
        r is None <==> sides < 3,
        r matches Some((verts, faces)) ==> {
            &&& verts@ == Seq::new(
                builtin_vertex_count(sides as int) as nat,
                |k: int| builtin_vertex_at(sides as int, k),
            )
            &&& faces@ == builtin_faces(sides as int, draw_textures_inside, sides as int)
        },
{
    if sides < 3 {
        return None;
    }
    let n = sides;
    let ghost ni = n as int;
    let mut verts: Vec<BuiltinVertex> = Vec::new();
    verts.push(BuiltinVertex::TopCentre);
    push_ring(&mut verts, n, 0);
    verts.push(BuiltinVertex::BottomCentre);
    push_ring(&mut verts, n, 1);
    push_ring(&mut verts, n, 2);
    push_ring(&mut verts, n, 3);
    assert(verts@ =~= Seq::new(
        builtin_vertex_count(ni) as nat,
        |k: int| builtin_vertex_at(ni, k),
    ));

    let nn = n as i64;
    let mut faces: Vec<VpxFace> = Vec::new();
    let mut i: u32 = 0;
    while i < n
        invariant
            i <= n,
            nn == n,
            n >= 3,
            faces@ == builtin_faces(n as int, draw_textures_inside, i as int),
        decreases n - i,
    {
        let ii = i as i64;
        let tmp: i64 = if i == n - 1 { 1 } else { ii + 2 };
        let tmp2 = tmp + 1;
        let a = 2 * nn + tmp2;
        let b = 3 * nn + 2 + ii;
        let c = 2 * nn + 2 + ii;
        let d = 3 * nn + tmp2;
        let ghost before = faces@;
        faces.push(VpxFace::new(0, tmp, ii + 1));
        faces.push(VpxFace::new(nn + 1, nn + 2 + ii, nn + tmp2));
        faces.push(VpxFace::new(a, b, c));
        faces.push(VpxFace::new(a, d, b));
        if draw_textures_inside {
            faces.push(VpxFace::new(0, ii + 1, tmp));
            faces.push(VpxFace::new(nn + 1, nn + tmp2, nn + 2 + ii));
            faces.push(VpxFace::new(a, c, b));
            faces.push(VpxFace::new(a, b, d));
        }
        assert(faces@ =~= before + builtin_side_faces(n as int, draw_textures_inside, i as int));
        i = i + 1;
    }
    Some((verts, faces))
}

/// Where the mesh of a primitive comes from.
#[derive(Debug, PartialEq, Eq, Structural, Clone, Copy)]
pub enum PrimitiveMeshSource {
    /// The mesh stored with the primitive, read from its compressed data.
    Loaded,
    /// The procedural mesh of [`build_builtin_primitive_mesh`].
    Builtin,
    /// No mesh: a builtin mesh needs at least three sides.
    NoMesh,
}

/// Which mesh a primitive is drawn with: the stored one when `use_3d_mesh`
/// is set (stale stored data is ignored otherwise), else the builtin one,
/// which needs at least three sides.
pub fn primitive_mesh_source(use_3d_mesh: bool, sides: u32) -> (r: PrimitiveMeshSource)
    ensures
        r == (if use_3d_mesh {
            PrimitiveMeshSource::Loaded
        } else if sides >= 3 {
            PrimitiveMeshSource::Builtin
        } else {
            PrimitiveMeshSource::NoMesh
        }),
{
    if use_3d_mesh {
        PrimitiveMeshSource::Loaded
    } else if sides >= 3 {
        PrimitiveMeshSource::Builtin
    } else {
        PrimitiveMeshSource::NoMesh
    }
}

} // verus!
