use hyge::bindless::LightGrid;
use hyge::cluster::{assign_lights, batches_for_draws, padded_for_upload, Batch, ClusterConfig};
use hyge::extract::DrawBatch;
use hyge::config::{pick_present_mode, Backends, PowerPreference, PresentMode, RendererConfig};
use hyge::profiler::{pass_query_indices, pass_tick_deltas, resolved_query_count, DEFAULT_MAX_PASSES};
use hyge::viewport::{align_to, readback_frame, unpad_rows, COPY_BYTES_PER_ROW_ALIGNMENT};

fn test_cluster_config() -> ClusterConfig {
    ClusterConfig { tiles_x: 4, tiles_y: 4, depth_slices: 4, max_lights_per_cluster: 8 }
}

#[test]
fn light_grid_construction_is_deterministic() {
    let config = test_cluster_config();
    let a = assign_lights(config, 2);
    let b = assign_lights(config, 2);
    assert_eq!(a.grid.len(), b.grid.len());
    for (ea, eb) in a.grid.iter().zip(b.grid.iter()) {
        assert_eq!(ea.offset, eb.offset);
        assert_eq!(ea.count, eb.count);
    }
    for entry in &a.grid {
        assert_eq!(entry.count, 2);
    }
}

#[test]
fn light_grid_size_matches_cluster_count() {
    let config = test_cluster_config();
    let total = (config.tiles_x * config.tiles_y * config.depth_slices) as usize;
    assert_eq!(total, 64);
    assert_eq!(config.max_lights_per_cluster, 8);
    assert_eq!(assign_lights(config, 3).grid.len(), 64);
}

#[test]
fn light_index_list_repeats_lights_per_cluster() {
    let config = ClusterConfig { tiles_x: 2, tiles_y: 1, depth_slices: 1, max_lights_per_cluster: 2 };
    let a = assign_lights(config, 5);
    assert_eq!(a.grid, vec![LightGrid::new(0, 2), LightGrid::new(2, 2)]);
    assert_eq!(a.index_list, vec![0, 1, 0, 1]);
    let none = assign_lights(config, 0);
    assert_eq!(none.grid, vec![LightGrid::new(0, 0), LightGrid::new(0, 0)]);
    assert_eq!(none.index_list, vec![0]);
}

#[test]
fn clusters_beyond_the_index_list_are_empty() {
    // 65536 / 32768 = 2 clusters fit; the third gets an empty entry.
    let config = ClusterConfig { tiles_x: 3, tiles_y: 1, depth_slices: 1, max_lights_per_cluster: 32768 };
    let a = assign_lights(config, 1);
    assert_eq!(a.grid, vec![LightGrid::new(0, 1), LightGrid::new(1, 1), LightGrid::new(0, 0)]);
    assert_eq!(a.index_list, vec![0, 0]);
    let d = ClusterConfig::default();
    assert_eq!((d.tiles_x, d.tiles_y, d.depth_slices, d.max_lights_per_cluster), (16, 9, 16, 256));
    let full = assign_lights(d, 300);
    assert_eq!(full.grid.len(), 2304);
    assert_eq!(full.grid[255], LightGrid::new(255 * 256, 256));
    assert_eq!(full.grid[256], LightGrid::new(0, 0));
    assert_eq!(full.index_list.len(), 65536);
}

#[test]
fn defaults_are_sensible() {
    let c = RendererConfig::new(true);
    assert!(c.vsync);
    assert_eq!(c.present_mode, PresentMode::Fifo);
    assert_eq!(c.backend, Backends::all());
    assert_eq!(c.power_preference, PowerPreference::HighPerformance);
    assert!(c.validation);
    assert!(!c.instance_label.is_empty());
    assert!(!c.device_label.is_empty());
}

#[test]
fn with_vsync_toggles_present_mode() {
    let on = RendererConfig::new(false).with_vsync(true);
    assert!(on.vsync);
    assert_eq!(on.present_mode, PresentMode::Fifo);
    let off = RendererConfig::new(false).with_vsync(false);
    assert!(!off.vsync);
    assert_eq!(off.present_mode, PresentMode::Mailbox);
}

#[test]
fn with_present_mode_overrides_vsync() {
    let c = RendererConfig::new(false)
        .with_vsync(true)
        .with_present_mode(PresentMode::Immediate);
    assert_eq!(c.present_mode, PresentMode::Immediate);
    assert!(!c.vsync);
    assert!(RendererConfig::new(false).with_vsync(false).with_present_mode(PresentMode::FifoRelaxed).vsync);
}

#[test]
fn with_backend_and_power_preference() {
    let c = RendererConfig::new(false)
        .with_backend(Backends::vulkan_only())
        .with_power_preference(PowerPreference::LowPower);
    assert_eq!(c.backend, Backends::vulkan_only());
    assert_eq!(c.power_preference, PowerPreference::LowPower);
}

#[test]
fn with_validation_toggles() {
    let on = RendererConfig::new(false).with_validation(true);
    assert!(on.validation);
    let off = RendererConfig::new(true).with_validation(false);
    assert!(!off.validation);
}

#[test]
fn config_is_cloneable() {
    let a = RendererConfig::new(true);
    let b = a.clone();
    assert_eq!(a.backend, b.backend);
    assert_eq!(a.vsync, b.vsync);
    assert_eq!(a.present_mode, b.present_mode);
    assert_eq!(a.validation, b.validation);
}

#[test]
fn pick_present_mode_prefers_requested() {
    let supported = vec![PresentMode::Fifo, PresentMode::Mailbox];
    assert_eq!(pick_present_mode(&supported, PresentMode::Mailbox), PresentMode::Mailbox);
}

#[test]
fn pick_present_mode_falls_back_to_fifo() {
    let supported = vec![PresentMode::Fifo];
    assert_eq!(pick_present_mode(&supported, PresentMode::Mailbox), PresentMode::Fifo);
}

#[test]
fn pass_queries_are_paired_and_capped() {
    assert_eq!(DEFAULT_MAX_PASSES, 128);
    assert_eq!(pass_query_indices(0, 128), Some((0, 1)));
    assert_eq!(pass_query_indices(5, 128), Some((10, 11)));
    assert_eq!(pass_query_indices(128, 128), None);
    assert_eq!(resolved_query_count(3, 128), 6);
    assert_eq!(resolved_query_count(500, 128), 256);
    assert_eq!(resolved_query_count(u32::MAX, 128), 256);
    assert_eq!(resolved_query_count(0, 128), 0);
}

#[test]
fn pass_ticks_read_pairs_with_fallbacks() {
    let ts = vec![100u64, 150, 200, 180, 300];
    // Pass 1 ends before it starts: zero. Pass 2 has no end: zero. Pass 3
    // has neither: zero.
    assert_eq!(pass_tick_deltas(&ts, 4), vec![50, 0, 0, 0]);
    assert_eq!(pass_tick_deltas(&Vec::new(), 2), vec![0, 0]);
}

#[test]
fn align_to_rounds_up_to_multiple() {
    assert_eq!(align_to(0, 256), 0);
    assert_eq!(align_to(1, 256), 256);
    assert_eq!(align_to(256, 256), 256);
    assert_eq!(align_to(257, 256), 512);
    assert_eq!(COPY_BYTES_PER_ROW_ALIGNMENT, 256);
}

#[test]
fn readback_strips_row_padding() {
    // 2x2 frame: rows of 8 bytes padded to 256.
    let mut mapped = vec![0u8; 512];
    mapped[0..8].copy_from_slice(&[1, 2, 3, 4, 5, 6, 7, 8]);
    mapped[256..264].copy_from_slice(&[9, 10, 11, 12, 13, 14, 15, 16]);
    let pixels = unpad_rows(&mapped, 2, 2);
    assert_eq!(pixels, (1..=16).collect::<Vec<u8>>());
    let frame = readback_frame(2, 2, 7, &mapped);
    assert_eq!(frame.width, 2);
    assert_eq!(frame.height, 2);
    assert_eq!(frame.revision, 7);
    assert_eq!(frame.pixels, pixels);
    assert_eq!(frame.hash.len(), 64);
    assert_eq!(frame.hash, hyge::content::to_hex(&hyge::content::AssetId::from_content(&pixels).0));
}

#[test]
fn batches_mirror_draw_commands() {
    let draws = vec![
        DrawBatch { mesh_id: 1, material_id: 2, first_instance: 0, instance_count: 3 },
        DrawBatch { mesh_id: 4, material_id: 5, first_instance: 3, instance_count: 7 },
    ];
    let batches = batches_for_draws(&draws);
    assert_eq!(
        batches,
        vec![
            Batch { mesh_id: 1, material_id: 2, first_instance: 0, instance_count: 3, index_count: 3, first_index: 0, base_vertex: 0 },
            Batch { mesh_id: 4, material_id: 5, first_instance: 3, instance_count: 7, index_count: 3, first_index: 0, base_vertex: 0 },
        ]
    );
    assert!(batches_for_draws(&Vec::new()).is_empty());
}

#[test]
fn each_cluster_offset_addresses_its_own_lights() {
    let a = assign_lights(test_cluster_config(), 2);
    assert_eq!(a.index_list.len(), 128);
    assert_eq!(a.grid[63], LightGrid::new(126, 2));
    for g in &a.grid {
        let run = &a.index_list[g.offset as usize..(g.offset + g.count) as usize];
        assert_eq!(run, &[0, 1]);
    }
}

#[test]
fn empty_frame_buffers_are_padded() {
    let empty: Vec<DrawBatch> = Vec::new();
    let filler = DrawBatch { mesh_id: 0, material_id: 0, first_instance: 0, instance_count: 0 };
    assert_eq!(padded_for_upload(&empty, filler), vec![filler]);
    let one = vec![DrawBatch { mesh_id: 1, material_id: 2, first_instance: 0, instance_count: 3 }];
    assert_eq!(padded_for_upload(&one, filler), one);
    assert_eq!(padded_for_upload(&vec![7u32, 8], 0), vec![7, 8]);
}
