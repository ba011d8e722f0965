use hyge::bindless::{SlotRegistry, MATERIAL_CAPACITY, MESH_CAPACITY, TEXTURE_CAPACITY};
use hyge::extract::{plan_frame_batches, MaterialHandle, MeshHandle, Renderable};

fn legacy(mesh: MeshHandle, material: MaterialHandle) -> Renderable {
    Renderable { mesh_id: mesh.0, material_id: material.0 }
}

fn resolved(mesh_id: u32, material_id: u32) -> Renderable {
    Renderable { mesh_id, material_id }
}

#[test]
fn extract_empty_world_produces_empty_snapshot() {
    let plan = plan_frame_batches(&Vec::new(), &Vec::new());
    assert_eq!(plan.draws.len(), 0);
    assert_eq!(plan.legacy_order.len() + plan.static_order.len(), 0);
}

#[test]
fn extract_single_entity() {
    let plan = plan_frame_batches(&vec![legacy(MeshHandle(1), MaterialHandle(2))], &Vec::new());
    assert_eq!(plan.draws.len(), 1);
    assert_eq!(plan.legacy_order, vec![0]);
    assert_eq!(plan.draws[0].mesh_id, 1);
    assert_eq!(plan.draws[0].material_id, 2);
    assert_eq!(plan.draws[0].first_instance, 0);
    assert_eq!(plan.draws[0].instance_count, 1);
}

#[test]
fn extract_groups_by_mesh_and_material() {
    let mut rs = Vec::new();
    for _ in 0..10 {
        rs.push(legacy(MeshHandle(1), MaterialHandle(1)));
    }
    for _ in 0..5 {
        rs.push(legacy(MeshHandle(1), MaterialHandle(2)));
    }
    for _ in 0..3 {
        rs.push(legacy(MeshHandle(2), MaterialHandle(1)));
    }
    let plan = plan_frame_batches(&rs, &Vec::new());
    assert_eq!(plan.draws.len(), 3);
    assert_eq!(plan.legacy_order.len(), 18);
    let counts: Vec<(u32, u32, u32)> = plan
        .draws
        .iter()
        .map(|dc| (dc.mesh_id, dc.material_id, dc.instance_count))
        .collect();
    assert_eq!(counts, vec![(1, 1, 10), (1, 2, 5), (2, 1, 3)]);
    let total: u32 = plan.draws.iter().map(|dc| dc.instance_count).sum();
    assert_eq!(total, 18);
    for i in &plan.legacy_order {
        let r = rs[*i];
        assert!((r.mesh_id == 1 && (r.material_id == 1 || r.material_id == 2))
            || (r.mesh_id == 2 && r.material_id == 1));
    }
}

#[test]
fn extract_multiple_entities_offsets_first_instance() {
    let plan = plan_frame_batches(
        &vec![legacy(MeshHandle(1), MaterialHandle(2)), legacy(MeshHandle(3), MaterialHandle(4))],
        &Vec::new(),
    );
    assert_eq!(plan.draws.len(), 2);
    let dc_a = plan.draws.iter().find(|dc| dc.mesh_id == 1 && dc.material_id == 2).expect("group A present");
    let dc_b = plan.draws.iter().find(|dc| dc.mesh_id == 3 && dc.material_id == 4).expect("group B present");
    assert_eq!(dc_a.first_instance, 0);
    assert_eq!(dc_a.instance_count, 1);
    assert_eq!(dc_b.first_instance, 1);
    assert_eq!(dc_b.instance_count, 1);
}

#[test]
fn extract_legacy_and_static_paths_coexist() {
    // The resolved-handle entity did not resolve, so its path is empty.
    let plan = plan_frame_batches(&vec![legacy(MeshHandle(1), MaterialHandle(2))], &Vec::new());
    assert_eq!(plan.draws.len(), 1);
    assert_eq!(plan.legacy_order.len(), 1);
    assert_eq!(plan.draws[0].mesh_id, 1);
    assert_eq!(plan.draws[0].material_id, 2);
}

#[test]
fn thousand_entities_collapse_into_one_draw_command() {
    let mut reg = SlotRegistry::new(MESH_CAPACITY, MATERIAL_CAPACITY, TEXTURE_CAPACITY).expect("registry");
    let mesh = reg.register_mesh().expect("mesh slot");
    let material = reg.register_material().expect("material slot");
    let statics: Vec<Renderable> = (0..1000).map(|_| resolved(mesh, material)).collect();
    let plan = plan_frame_batches(&Vec::new(), &statics);
    assert_eq!(plan.draws.len(), 1);
    assert_eq!(plan.static_order.len(), 1000);
    let dc = &plan.draws[0];
    assert_eq!(dc.instance_count, 1000);
    assert_eq!(dc.first_instance, 0);
    assert_eq!(dc.mesh_id, mesh);
    assert_eq!(dc.material_id, material);
    assert_eq!(plan.static_order, (0..1000).collect::<Vec<usize>>());
}

#[test]
fn distinct_groups_sorted_by_material_id() {
    let mut reg = SlotRegistry::new(MESH_CAPACITY, MATERIAL_CAPACITY, TEXTURE_CAPACITY).expect("registry");
    let mesh_a = reg.register_mesh().expect("mesh a");
    let mesh_b = reg.register_mesh().expect("mesh b");
    let mat_x = reg.register_material().expect("mat x");
    let mat_y = reg.register_material().expect("mat y");
    let mut statics = Vec::new();
    for _ in 0..3 {
        statics.push(resolved(mesh_b, mat_y));
    }
    for _ in 0..5 {
        statics.push(resolved(mesh_a, mat_x));
    }
    for _ in 0..2 {
        statics.push(resolved(mesh_b, mat_x));
    }
    for _ in 0..4 {
        statics.push(resolved(mesh_a, mat_y));
    }
    let plan = plan_frame_batches(&Vec::new(), &statics);
    assert_eq!(plan.draws.len(), 4);
    assert_eq!(plan.static_order.len(), 14);
    let material_ids: Vec<u32> = plan.draws.iter().map(|dc| dc.material_id).collect();
    let mut sorted = material_ids.clone();
    sorted.sort_unstable();
    assert_eq!(material_ids, sorted);
    let keys: Vec<(u32, u32, u32, u32)> = plan
        .draws
        .iter()
        .map(|dc| (dc.mesh_id, dc.material_id, dc.first_instance, dc.instance_count))
        .collect();
    assert_eq!(
        keys,
        vec![(mesh_a, mat_x, 0, 5), (mesh_b, mat_x, 5, 2), (mesh_a, mat_y, 7, 4), (mesh_b, mat_y, 11, 3)]
    );
    assert_eq!(&plan.static_order[0..5], &[3, 4, 5, 6, 7]);
}

#[test]
fn legacy_and_static_paths_share_instance_buffer() {
    let legacy_rs: Vec<Renderable> = (0..3).map(|_| legacy(MeshHandle(42), MaterialHandle(99))).collect();
    let statics: Vec<Renderable> = (0..5).map(|_| resolved(0, 0)).collect();
    let plan = plan_frame_batches(&legacy_rs, &statics);
    assert_eq!(plan.draws.len(), 2);
    assert_eq!(plan.legacy_order.len() + plan.static_order.len(), 8);
    assert_eq!(plan.draws[0].first_instance, 0);
    assert_eq!(plan.draws[0].instance_count, 3);
    assert_eq!(plan.draws[1].first_instance, 3);
    assert_eq!(plan.draws[1].instance_count, 5);
}

#[test]
fn grouping_keeps_visit_order_within_a_group() {
    let rs = vec![
        legacy(MeshHandle(2), MaterialHandle(0)),
        legacy(MeshHandle(1), MaterialHandle(5)),
        legacy(MeshHandle(2), MaterialHandle(0)),
        legacy(MeshHandle(1), MaterialHandle(5)),
        legacy(MeshHandle(1), MaterialHandle(4)),
    ];
    let plan = plan_frame_batches(&rs, &Vec::new());
    assert_eq!(plan.legacy_order, vec![4, 1, 3, 0, 2]);
    let firsts: Vec<u32> = plan.draws.iter().map(|d| d.first_instance).collect();
    assert_eq!(firsts, vec![0, 1, 3]);
}
