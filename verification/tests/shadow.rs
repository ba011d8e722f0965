use hyge::shadow::{AtlasRect, ShadowAtlasAllocator};

#[test]
fn r051_shadow_atlas_allocates_point_light_faces_contiguously() {
    let mut atlas = ShadowAtlasAllocator::new(4096, 4096);
    let allocation = atlas
        .allocate_point_light(512)
        .expect("point light must fit");
    assert_eq!(allocation.rects.len(), 6);
    assert!(allocation
        .rects
        .iter()
        .all(|r| r.width == 512 && r.height == 512));
    assert!(allocation.rects.windows(2).all(|w| w[0].x <= w[1].x));
}

#[test]
fn spot_tiles_fill_rows_left_to_right() {
    let mut atlas = ShadowAtlasAllocator::new(1024, 1024);
    assert_eq!(
        atlas.allocate_spot(512),
        Some(AtlasRect { x: 0, y: 0, width: 512, height: 512 })
    );
    assert_eq!(
        atlas.allocate_spot(512),
        Some(AtlasRect { x: 512, y: 0, width: 512, height: 512 })
    );
    assert_eq!(
        atlas.allocate_spot(256),
        Some(AtlasRect { x: 0, y: 512, width: 256, height: 256 })
    );
    assert_eq!(
        atlas.allocate_spot(512),
        Some(AtlasRect { x: 256, y: 512, width: 512, height: 512 })
    );
    assert_eq!(atlas.allocate_spot(512), None);
}

#[test]
fn spot_rejects_zero_and_oversized_tiles() {
    let mut atlas = ShadowAtlasAllocator::new(256, 128);
    assert_eq!(atlas.allocate_spot(0), None);
    assert_eq!(atlas.allocate_spot(200), None);
    assert_eq!(
        atlas.allocate_spot(128),
        Some(AtlasRect { x: 0, y: 0, width: 128, height: 128 })
    );
}

#[test]
fn failed_point_light_leaves_atlas_unchanged() {
    let mut atlas = ShadowAtlasAllocator::new(1024, 1024);
    assert!(atlas.allocate_point_light(512).is_none());
    assert_eq!(
        atlas.allocate_spot(512),
        Some(AtlasRect { x: 0, y: 0, width: 512, height: 512 })
    );
}

#[test]
fn point_light_faces_are_disjoint() {
    let mut atlas = ShadowAtlasAllocator::new(1024, 2048);
    let a = atlas.allocate_point_light(512).expect("fits");
    for (i, r) in a.rects.iter().enumerate() {
        assert!(r.x + r.width <= 1024 && r.y + r.height <= 2048);
        for s in a.rects.iter().skip(i + 1) {
            let apart = r.x + r.width <= s.x
                || s.x + s.width <= r.x
                || r.y + r.height <= s.y
                || s.y + s.height <= r.y;
            assert!(apart);
        }
    }
}
