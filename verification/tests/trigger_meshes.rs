use vpin::vpx::gameitem::trigger::TriggerShape;
use vpin::vpx::mesh::triggers::{
    get_mesh_for_shape, uses_radius_scaling, uses_wire_thickness, TriggerMesh,
};

const ALL_SHAPES: [TriggerShape; 9] = [
    TriggerShape::NoShape,
    TriggerShape::WireA,
    TriggerShape::Star,
    TriggerShape::WireB,
    TriggerShape::Button,
    TriggerShape::WireC,
    TriggerShape::WireD,
    TriggerShape::Inder,
    TriggerShape::Other(42),
];

#[test]
fn wire_shapes_a_b_c_share_the_simple_mesh() {
    assert_eq!(get_mesh_for_shape(&TriggerShape::WireA), Some(TriggerMesh::Simple));
    assert_eq!(get_mesh_for_shape(&TriggerShape::WireB), Some(TriggerMesh::Simple));
    assert_eq!(get_mesh_for_shape(&TriggerShape::WireC), Some(TriggerMesh::Simple));
    assert_eq!(get_mesh_for_shape(&TriggerShape::WireD), Some(TriggerMesh::WireD));
    assert_eq!(get_mesh_for_shape(&TriggerShape::Star), Some(TriggerMesh::Star));
    assert_eq!(get_mesh_for_shape(&TriggerShape::Button), Some(TriggerMesh::Button));
    assert_eq!(get_mesh_for_shape(&TriggerShape::Inder), Some(TriggerMesh::Inder));
}

#[test]
fn invisible_and_unknown_shapes_have_no_mesh() {
    assert_eq!(get_mesh_for_shape(&TriggerShape::NoShape), None);
    assert_eq!(get_mesh_for_shape(&TriggerShape::Other(8)), None);
}

#[test]
fn each_mesh_is_fitted_one_way() {
    for shape in ALL_SHAPES.iter() {
        let radius = uses_radius_scaling(shape);
        let wire = uses_wire_thickness(shape);
        assert!(!(radius && wire));
        assert_eq!(get_mesh_for_shape(shape).is_some(), radius || wire);
    }
    assert!(uses_radius_scaling(&TriggerShape::Button));
    assert!(uses_radius_scaling(&TriggerShape::Star));
    assert!(uses_wire_thickness(&TriggerShape::Inder));
    assert!(!uses_wire_thickness(&TriggerShape::Star));
}
