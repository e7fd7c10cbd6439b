use vstd::prelude::*;
use crate::mesh::{Mesh, PrintObjects};

verus! {

/// One named base material of the export container.
pub struct BaseMaterial {
    pub name: String,
    pub displaycolor: String,
}

/// One geometry object of the container: a mesh tied to a base material by
/// its position in the material list.
pub struct ExportObject {
    pub id: u32,
    pub material_index: u32,
    pub mesh: Mesh,
}

/// Everything the interchange container holds: the two base materials, the
/// geometry objects, a parent object composed of them, and the single build
/// item that references the parent. Units are millimeters; coordinates here
/// are micrometers and scale by a thousand on write.
pub struct ThreeMfPlan {
    pub materials: Vec<BaseMaterial>,
    pub objects: Vec<ExportObject>,
    pub parent_id: Option<u32>,
    pub component_ids: Vec<u32>,
    pub build_item: Option<u32>,
}

/// The fixed material table: opaque black, then translucent white.
pub fn base_materials() -> (m: Vec<BaseMaterial>)
    ensures
        m@.len() == 2,
        m@[0].name@ == "Black"@,
        m@[0].displaycolor@ == "#000000"@,
        m@[1].name@ == "White"@,
        m@[1].displaycolor@ == "#FFFFFF"@,
{
    let mut m: Vec<BaseMaterial> = Vec::new();
    m.push(BaseMaterial { name: "Black".to_owned(), displaycolor: "#000000".to_owned() });
    m.push(BaseMaterial { name: "White".to_owned(), displaycolor: "#FFFFFF".to_owned() });
    m
}

/// Lay out the interchange container for a mesh pair: an object per
/// non-empty mesh with sequential ids from 1, black before white, a parent
/// composed of exactly those objects, and one build item for the parent.
/// An empty pair yields no object, no parent and no build item.
pub fn build_3mf_plan(objects: &PrintObjects) -> (plan: ThreeMfPlan)
    ensures
        plan.materials@.len() == 2,
        plan.materials@[0].name@ == "Black"@,
        plan.materials@[0].displaycolor@ == "#000000"@,
        plan.materials@[1].name@ == "White"@,
        plan.materials@[1].displaycolor@ == "#FFFFFF"@,
        ({
            let hb = objects.black_mesh.vertices@.len() > 0;
            let hw = objects.white_mesh.vertices@.len() > 0;
            &&& plan.objects@.len() == (if hb { 1int } else { 0 }) + (if hw { 1int } else { 0 })
            &&& hb ==> plan.objects@[0].id == 1 && plan.objects@[0].material_index == 0
                && plan.objects@[0].mesh.vertices@ == objects.black_mesh.vertices@
                && plan.objects@[0].mesh.triangles@ == objects.black_mesh.triangles@
            &&& hw ==> plan.objects@[plan.objects@.len() - 1].id == plan.objects@.len()
                && plan.objects@[plan.objects@.len() - 1].material_index == 1
                && plan.objects@[plan.objects@.len() - 1].mesh.vertices@
                == objects.white_mesh.vertices@ && plan.objects@[plan.objects@.len()
                - 1].mesh.triangles@ == objects.white_mesh.triangles@
            &&& (hb || hw) ==> plan.parent_id == Some((plan.objects@.len() + 1) as u32)
                && plan.build_item == plan.parent_id && plan.component_ids@.len()
                == plan.objects@.len() && (forall|i: int|
                0 <= i < plan.component_ids@.len() ==> plan.component_ids@[i]
                    == #[trigger] plan.objects@[i].id)
            &&& !(hb || hw) ==> plan.parent_id is None && plan.build_item is None
                && plan.component_ids@.len() == 0
        }),
{
    let materials = base_materials();
    let mut plan_objects: Vec<ExportObject> = Vec::new();
    let mut component_ids: Vec<u32> = Vec::new();
    let mut object_id: u32 = 1;

    let has_black = objects.black_mesh.vertices.len() > 0;
    let has_white = objects.white_mesh.vertices.len() > 0;

    if has_black {
        plan_objects.push(
            ExportObject {
                id: object_id,
                material_index: 0,
                mesh: objects.black_mesh.clone_mesh(),
            },
        );
        component_ids.push(object_id);
        object_id = object_id + 1;
    }
    if has_white {
        plan_objects.push(
            ExportObject {
                id: object_id,
                material_index: 1,
                mesh: objects.white_mesh.clone_mesh(),
            },
        );
        component_ids.push(object_id);
        object_id = object_id + 1;
    }

    let (parent_id, build_item): (Option<u32>, Option<u32>) = if has_black || has_white {
        (Some(object_id), Some(object_id))
    } else {
        (None, None)
    };

    ThreeMfPlan { materials, objects: plan_objects, parent_id, component_ids, build_item }
}

} // verus!
