//! Which of the built-in trigger meshes a trigger shape is drawn with, and
//! how the mesh is fitted to the trigger: scaled by its radius, or widened
//! by its wire thickness.

use vstd::prelude::*;
use crate::vpx::gameitem::trigger::TriggerShape;

verus! {

/// The built-in meshes of triggers.
#[derive(Debug, PartialEq, Eq, Structural, Clone, Copy)]
pub enum TriggerMesh {
    /// The simple wire, shared by the wire shapes A, B and C.
    Simple,
    /// The D-shaped wire.
    WireD,
    Star,
    Button,
    Inder,
}

/// The mesh a trigger of `shape` is drawn with; `None` for an invisible
/// trigger or a shape this library does not know.
pub open spec fn mesh_for_shape(shape: TriggerShape) -> Option<TriggerMesh> {
    match shape {
        TriggerShape::WireA | TriggerShape::WireB | TriggerShape::WireC => Some(TriggerMesh::Simple),
        TriggerShape::WireD => Some(TriggerMesh::WireD),
        TriggerShape::Star => Some(TriggerMesh::Star),
        TriggerShape::Button => Some(TriggerMesh::Button),
        TriggerShape::Inder => Some(TriggerMesh::Inder),
        TriggerShape::NoShape | TriggerShape::Other(_) => None,
    }
}

/// The mesh a trigger of `shape` is drawn with.
pub fn get_mesh_for_shape(shape: &TriggerShape) -> (r: Option<TriggerMesh>)
    ensures
        r == mesh_for_shape(*shape),
{
    match shape {
        TriggerShape::NoShape => None,
        TriggerShape::WireA | TriggerShape::WireB | TriggerShape::WireC => Some(TriggerMesh::Simple),
        TriggerShape::WireD => Some(TriggerMesh::WireD),
        TriggerShape::Star => Some(TriggerMesh::Star),
        TriggerShape::Button => Some(TriggerMesh::Button),
        TriggerShape::Inder => Some(TriggerMesh::Inder),
        TriggerShape::Other(_) => None,
    }
}

/// Whether the mesh of `shape` is scaled by the trigger's radius rather
/// than by its x and y scale: the button and the star.
pub fn uses_radius_scaling(shape: &TriggerShape) -> (r: bool)
    ensures
        r == (*shape == TriggerShape::Button || *shape == TriggerShape::Star),
{
    matches!(shape, TriggerShape::Button | TriggerShape::Star)
}

/// Whether the mesh of `shape` is widened by the trigger's wire thickness:
/// the four wires and the Inder trigger.
pub fn uses_wire_thickness(shape: &TriggerShape) -> (r: bool)
    ensures
        r == (*shape == TriggerShape::WireA || *shape == TriggerShape::WireB || *shape
            == TriggerShape::WireC || *shape == TriggerShape::WireD || *shape == TriggerShape::Inder),
{
    matches!(
        shape,
        TriggerShape::WireA | TriggerShape::WireB | TriggerShape::WireC | TriggerShape::WireD
            | TriggerShape::Inder
    )
}

/// Every shape that has a mesh is fitted in exactly one way, by its radius
/// or by its wire thickness, and a shape without a mesh in neither.
pub proof fn lemma_mesh_fitted_one_way(shape: TriggerShape)
    ensures
        ({
            let radius = shape == TriggerShape::Button || shape == TriggerShape::Star;
            let wire = shape == TriggerShape::WireA || shape == TriggerShape::WireB || shape
                == TriggerShape::WireC || shape == TriggerShape::WireD || shape == TriggerShape::Inder;
            &&& mesh_for_shape(shape) is Some <==> (radius || wire)
            &&& !(radius && wire)
        }),
{
}

/// The star, button, Inder and D-wire shapes are drawn with their own
/// meshes, the wires A, B and C share the simple wire, and an invisible
/// trigger or an unknown shape has none.
pub proof fn lemma_trigger_meshes()
    ensures
        mesh_for_shape(TriggerShape::Star) == Some(TriggerMesh::Star),
        mesh_for_shape(TriggerShape::Button) == Some(TriggerMesh::Button),
        mesh_for_shape(TriggerShape::Inder) == Some(TriggerMesh::Inder),
        mesh_for_shape(TriggerShape::WireD) == Some(TriggerMesh::WireD),
        mesh_for_shape(TriggerShape::WireA) == Some(TriggerMesh::Simple),
        mesh_for_shape(TriggerShape::WireB) == Some(TriggerMesh::Simple),
        mesh_for_shape(TriggerShape::WireC) == Some(TriggerMesh::Simple),
        mesh_for_shape(TriggerShape::NoShape) is None,
        forall|v: u32| #[trigger] mesh_for_shape(TriggerShape::Other(v)) is None,
{
}

} // verus!
