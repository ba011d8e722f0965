use hyge::bindless::{
    BindlessError, FreeList, LightGrid, SlotKind, SlotPool, SlotRegistry, MATERIAL_CAPACITY,
    MESH_CAPACITY, NULL_SLOT, TEXTURE_CAPACITY,
};

#[test]
fn slot_kind_maps_to_architecture_slot() {
    assert_eq!(SlotKind::Mesh.architecture_slot(), 4);
    assert_eq!(SlotKind::Material.architecture_slot(), 5);
    assert_eq!(SlotKind::Texture.architecture_slot(), 11);
    assert_eq!(SlotKind::Null.architecture_slot(), NULL_SLOT);
}

#[test]
fn free_list_drains_and_recovers() {
    let mut fl = FreeList::new(4);
    assert_eq!(fl.free_count(), 4);
    let a = fl.allocate().expect("first alloc");
    let b = fl.allocate().expect("second alloc");
    let c = fl.allocate().expect("third alloc");
    let d = fl.allocate().expect("fourth alloc");
    assert!(fl.allocate().is_none());
    assert_eq!(fl.free_count(), 0);
    for s in [a, b, c, d] {
        assert!(s < 4);
    }
    fl.release(b);
    fl.release(d);
    assert_eq!(fl.free_count(), 2);
    let e = fl.allocate().expect("recovered alloc");
    assert_eq!(fl.free_count(), 1);
    assert!(e < 4);
}

#[test]
fn light_grid_new_stores_offset_and_count() {
    let entry = LightGrid::new(42, 7);
    assert_eq!(entry.offset, 42);
    assert_eq!(entry.count, 7);
}

#[test]
fn free_list_hands_out_lowest_slots_first() {
    let mut fl = FreeList::new(3);
    assert_eq!(fl.capacity(), 3);
    assert_eq!(fl.allocate(), Some(0));
    assert_eq!(fl.allocate(), Some(1));
    fl.release(0);
    assert_eq!(fl.allocate(), Some(0));
    assert_eq!(fl.allocate(), Some(2));
    assert_eq!(fl.allocate(), None);
}

#[test]
fn slot_kind_names() {
    assert_eq!(SlotKind::Mesh.name(), "mesh");
    assert_eq!(SlotKind::Material.name(), "material");
    assert_eq!(SlotKind::Texture.name(), "texture");
    assert_eq!(SlotKind::Null.name(), "null");
}

#[test]
fn slot_pool_register_then_drop_frees_and_bumps_generation() {
    let mut pool = SlotPool::new(2);
    let s = pool.register().expect("slot");
    assert_eq!(s, 0);
    assert_eq!(pool.refs(s), 1);
    assert_eq!(pool.free_count(), 1);
    let g0 = pool.generation(s);
    pool.retain(s);
    assert_eq!(pool.refs(s), 2);
    assert!(!pool.drop_ref(s));
    assert_eq!(pool.refs(s), 1);
    assert!(pool.drop_ref(s));
    assert_eq!(pool.refs(s), 0);
    assert_eq!(pool.free_count(), 2);
    assert_eq!(pool.generation(s), g0.wrapping_add(1));
    assert_eq!(pool.capacity(), 2);
}

#[test]
fn registry_reports_exhaustion_per_kind() {
    let mut reg = SlotRegistry::new(1, 2, 1).expect("registry");
    assert_eq!(reg.register_mesh(), Ok(0));
    assert_eq!(
        reg.register_mesh(),
        Err(BindlessError::Exhausted(SlotKind::Mesh))
    );
    assert_eq!(reg.register_material(), Ok(0));
    assert_eq!(reg.register_material(), Ok(1));
    assert_eq!(
        reg.register(SlotKind::Material),
        Err(BindlessError::Exhausted(SlotKind::Material))
    );
    assert_eq!(reg.register_texture(), Ok(0));
    assert_eq!(
        reg.register_texture(),
        Err(BindlessError::Exhausted(SlotKind::Texture))
    );
    assert_eq!(reg.register(SlotKind::Null), Err(BindlessError::NullKind));
    assert_eq!(reg.free_mesh_slots(), 0);
    assert_eq!(reg.free_material_slots(), 0);
    assert_eq!(reg.free_texture_slots(), 0);
}

#[test]
fn registry_thousand_meshes_and_materials() {
    let mut reg = SlotRegistry::new(MESH_CAPACITY, MATERIAL_CAPACITY, TEXTURE_CAPACITY).expect("registry");
    let mut meshes = Vec::new();
    let mut materials = Vec::new();
    for _ in 0..1000 {
        meshes.push(reg.register_mesh().expect("mesh slot"));
        materials.push(reg.register_material().expect("material slot"));
    }
    let mut sorted = meshes.clone();
    sorted.sort();
    sorted.dedup();
    assert_eq!(sorted.len(), 1000);
    assert_eq!(reg.free_mesh_slots(), MESH_CAPACITY - 1000);
    assert_eq!(reg.free_material_slots(), MATERIAL_CAPACITY - 1000);
    for (i, s) in meshes.iter().enumerate() {
        assert_eq!(*s as usize, i);
        assert_eq!(reg.refs(SlotKind::Mesh, *s), 1);
    }
    for s in &meshes {
        assert!(reg.drop_ref(SlotKind::Mesh, *s));
    }
    assert_eq!(reg.free_mesh_slots(), MESH_CAPACITY);
    assert_eq!(reg.free_material_slots(), MATERIAL_CAPACITY - 1000);
}

#[test]
fn registry_refcount_bump_and_decrement() {
    let mut reg = SlotRegistry::new(4, 4, 4).expect("registry");
    let s = reg.register(SlotKind::Texture).expect("slot");
    assert_eq!(reg.refs(SlotKind::Texture, s), 1);
    reg.retain(SlotKind::Texture, s);
    assert_eq!(reg.refs(SlotKind::Texture, s), 2);
    assert!(!reg.drop_ref(SlotKind::Texture, s));
    assert_eq!(reg.refs(SlotKind::Texture, s), 1);
    let g = reg.generation(SlotKind::Texture, s);
    assert!(reg.drop_ref(SlotKind::Texture, s));
    assert_eq!(reg.generation(SlotKind::Texture, s), g.wrapping_add(1));
    assert!(!reg.drop_ref(SlotKind::Null, NULL_SLOT));
}

#[test]
fn texture_registration_needs_texture_arrays() {
    let mut reg = SlotRegistry::for_device(4, 4, 4, false).expect("registry");
    assert!(!reg.supports_textures());
    assert_eq!(reg.register_texture(), Err(BindlessError::TexturesUnsupported));
    assert_eq!(reg.register(SlotKind::Texture), Err(BindlessError::TexturesUnsupported));
    assert_eq!(reg.free_texture_slots(), 4);
    assert_eq!(reg.register_mesh(), Ok(0));
    assert!(SlotRegistry::new(1, 1, 1).expect("registry").supports_textures());
}

#[test]
fn zero_texture_capacity_needs_no_texture_arrays() {
    assert_eq!(
        SlotRegistry::new(4, 4, 0).unwrap_err(),
        BindlessError::ZeroTextureCapacity
    );
    assert_eq!(
        SlotRegistry::for_device(4, 4, 0, true).unwrap_err(),
        BindlessError::ZeroTextureCapacity
    );
    let reg = SlotRegistry::for_device(4, 4, 0, false).expect("accepted without texture arrays");
    assert_eq!(reg.free_texture_slots(), 0);
}
