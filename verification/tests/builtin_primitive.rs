use vpin::vpx::mesh::builtin_primitive::{primitive_mesh_source, PrimitiveMeshSource};
use vpin::vpx::mesh::builtin_primitive::{build_builtin_primitive_mesh, BuiltinVertex};

#[test]
fn rejects_fewer_than_three_sides() {
    assert!(build_builtin_primitive_mesh(0, false).is_none());
    assert!(build_builtin_primitive_mesh(1, false).is_none());
    assert!(build_builtin_primitive_mesh(2, false).is_none());
}

#[test]
fn vertex_and_face_counts_match_vpinball_layout() {
    // Outside-only: 4 triangles per side (top + bottom + 2 side
    // quad halves) = 4 faces * sides.
    let (verts, faces) = build_builtin_primitive_mesh(4, false).unwrap();
    assert_eq!(verts.len(), 4 * 4 + 2);
    assert_eq!(faces.len(), 4 * 4);

    // draw_textures_inside doubles the face count (back-faces too).
    let (verts, faces) = build_builtin_primitive_mesh(4, true).unwrap();
    assert_eq!(verts.len(), 4 * 4 + 2);
    assert_eq!(faces.len(), 8 * 4);

    // 8-sided with no back-faces: 18 verts, 32 faces.
    let (verts, faces) = build_builtin_primitive_mesh(8, false).unwrap();
    assert_eq!(verts.len(), 4 * 8 + 2);
    assert_eq!(faces.len(), 4 * 8);
}

#[test]
fn triangle_indices_reference_valid_vertices() {
    for &(sides, inside) in &[(3u32, false), (4, false), (8, false), (4, true)] {
        let (verts, faces) = build_builtin_primitive_mesh(sides, inside).unwrap();
        let n_verts = verts.len() as i64;
        for (idx, face) in faces.iter().enumerate() {
            for &i in &[face.i0, face.i1, face.i2] {
                assert!(
                    i >= 0 && i < n_verts,
                    "sides={sides} inside={inside} face {idx}: index {i} out of [0,{n_verts})",
                );
            }
        }
    }
}

#[test]
fn layout_puts_centres_and_rings_in_vpinball_order() {
    let (verts, faces) = build_builtin_primitive_mesh(3, false).unwrap();
    assert_eq!(
        verts,
        vec![
            BuiltinVertex::TopCentre,
            BuiltinVertex::TopRing(0),
            BuiltinVertex::TopRing(1),
            BuiltinVertex::TopRing(2),
            BuiltinVertex::BottomCentre,
            BuiltinVertex::BottomRing(0),
            BuiltinVertex::BottomRing(1),
            BuiltinVertex::BottomRing(2),
            BuiltinVertex::SideTop(0),
            BuiltinVertex::SideTop(1),
            BuiltinVertex::SideTop(2),
            BuiltinVertex::SideBottom(0),
            BuiltinVertex::SideBottom(1),
            BuiltinVertex::SideBottom(2),
        ]
    );
    // the last side wraps around to ring vertex 1
    let last = &faces[8..12];
    assert_eq!((last[0].i0, last[0].i1, last[0].i2), (0, 1, 3));
    assert_eq!((last[1].i0, last[1].i1, last[1].i2), (4, 7, 5));
    assert_eq!((last[2].i0, last[2].i1, last[2].i2), (8, 13, 10));
    assert_eq!((last[3].i0, last[3].i1, last[3].i2), (8, 11, 13));
}

#[test]
fn inside_faces_reverse_the_winding() {
    let (_, faces) = build_builtin_primitive_mesh(3, true).unwrap();
    let first = &faces[0..8];
    assert_eq!((first[0].i0, first[0].i1, first[0].i2), (0, 2, 1));
    assert_eq!((first[4].i0, first[4].i1, first[4].i2), (0, 1, 2));
}

#[test]
fn inside_faces_follow_each_front_face_reversed() {
    let (v1, out) = build_builtin_primitive_mesh(5, false).unwrap();
    let (v2, both) = build_builtin_primitive_mesh(5, true).unwrap();
    assert_eq!(v1, v2);
    assert_eq!(both.len(), 2 * out.len());
    for i in 0..5 {
        for k in 0..4 {
            let f = &out[4 * i + k];
            let front = &both[8 * i + k];
            let back = &both[8 * i + 4 + k];
            assert_eq!((front.i0, front.i1, front.i2), (f.i0, f.i1, f.i2));
            assert_eq!((back.i0, back.i1, back.i2), (f.i0, f.i2, f.i1));
        }
    }
}

#[test]
fn primitive_mesh_comes_from_the_stored_data_or_the_builtin_form() {
    assert_eq!(primitive_mesh_source(true, 0), PrimitiveMeshSource::Loaded);
    assert_eq!(primitive_mesh_source(true, 8), PrimitiveMeshSource::Loaded);
    assert_eq!(primitive_mesh_source(false, 8), PrimitiveMeshSource::Builtin);
    assert_eq!(primitive_mesh_source(false, 3), PrimitiveMeshSource::Builtin);
    assert_eq!(primitive_mesh_source(false, 2), PrimitiveMeshSource::NoMesh);
}
