use lian_world::base::biome::{BiomeDefinition, BiomeMap};
use lian_world::base::block::BlockDefinition;
use lian_world::base::color::ColorRgba;
use lian_world::base::layer::LayerDefinition;
use lian_world::base::world::World;
use lian_world::generation::optimizer::{
    parallel_threshold_from, FrameLoad, PerfProfiler, TextureUpdateThrottle, ThrottleConfig, FALLBACK_PARALLEL_THRESHOLD,
};
use lian_world::rendering::labels::{label_regions, LabelRegion};
use lian_world::rendering::canvas::{
    biome_overlay_image, build_color_lut, build_color_map, world_rows_to_color_pixels, world_to_color_image,
    world_to_color_image_downsampled,
};
use lian_world::text::str_eq;
use lian_world::ui::app::{parse_seed_input, selection_from_key, world_size_key};
use lian_world::ui::control_panel::{ControlAction, WorldSizeSelection};
use lian_world::ui::layer_config::reset_to_default;
use lian_world::ui::overlay_config::OverlaySettings;
use lian_world::ui::shape_sandbox::SetOp;

#[test]
fn seed_input_formats() {
    assert_eq!(parse_seed_input("12345"), Some(12345));
    assert_eq!(parse_seed_input("  0x1F \n"), Some(31));
    assert_eq!(parse_seed_input("0XfF"), Some(255));
    assert_eq!(parse_seed_input("deadbeef"), Some(0xdead_beef));
    assert_eq!(parse_seed_input("+7"), Some(7));
    assert_eq!(parse_seed_input("18446744073709551615"), Some(u64::MAX));
    assert_eq!(parse_seed_input("0xFFFFFFFFFFFFFFFF"), Some(u64::MAX));
}

#[test]
fn seed_input_digits_only_read_as_decimal() {
    // digits alone are decimal, never hexadecimal
    assert_eq!(parse_seed_input("10"), Some(10));
    // too large for decimal, but fits as hexadecimal
    assert_eq!(parse_seed_input("18446744073709551616"), None);
    assert_eq!(parse_seed_input("99999999999999999999"), None);
    assert_eq!(parse_seed_input("1844674407370955161"), Some(1_844_674_407_370_955_161));
}

#[test]
fn seed_input_rejections() {
    assert_eq!(parse_seed_input(""), None);
    assert_eq!(parse_seed_input("   "), None);
    assert_eq!(parse_seed_input("0x"), None);
    assert_eq!(parse_seed_input("0xzz"), None);
    assert_eq!(parse_seed_input("seed"), None);
    assert_eq!(parse_seed_input("-5"), None);
    assert_eq!(parse_seed_input("+"), None);
    assert_eq!(parse_seed_input("1 2"), None);
}

#[test]
fn seed_round_trips() {
    for v in [0u64, 1, 9, 10, 255, 4096, 123_456_789, u64::MAX] {
        assert_eq!(parse_seed_input(&v.to_string()), Some(v));
        assert_eq!(parse_seed_input(&format!("0x{v:x}")), Some(v));
    }
    for v in [0xau64, 0xff, 0x1a2b, 0xdead_beef_cafe] {
        assert_eq!(parse_seed_input(&format!("{v:x}")), Some(v));
    }
}

#[test]
fn world_size_keys() {
    assert_eq!(world_size_key(WorldSizeSelection::Large), "large");
    assert_eq!(world_size_key(WorldSizeSelection::Custom), "custom");
    assert_eq!(selection_from_key("medium"), WorldSizeSelection::Medium);
    assert_eq!(selection_from_key("large"), WorldSizeSelection::Large);
    assert_eq!(selection_from_key("custom"), WorldSizeSelection::Small);
    assert_eq!(selection_from_key("anything"), WorldSizeSelection::Small);
    assert_eq!(WorldSizeSelection::default_selection(), WorldSizeSelection::Small);
    for s in [WorldSizeSelection::Small, WorldSizeSelection::Medium, WorldSizeSelection::Large] {
        assert_eq!(selection_from_key(world_size_key(s)), s);
    }
}

#[test]
fn panel_defaults() {
    let a = ControlAction::none();
    assert!(!a.run_all && !a.export_png && !a.apply_seed && !a.step_forward_sub && !a.open_perf_panel);
    let o = OverlaySettings::default_settings();
    assert!(!o.show_biome_color && !o.show_biome_labels && o.show_layer_lines && o.show_layer_labels);
    assert_eq!(SetOp::Union.label(), "∪ 并集");
    assert_eq!(SetOp::Subtract.symbol(), "−");
    assert_eq!(SetOp::Intersect.code(), ".intersect");
}

#[test]
fn layer_reset_restores_known_defaults() {
    let mk = |k: &str, s: u8, e: u8| LayerDefinition {
        key: k.to_string(),
        start_percent: s,
        end_percent: e,
        short_name: "x".to_string(),
        description: "d".to_string(),
    };
    let mut layers = vec![mk("surface", 1, 2), mk("hell", 3, 4), mk("mystery", 7, 8)];
    reset_to_default(&mut layers);
    assert_eq!((layers[0].start_percent, layers[0].end_percent), (5, 25));
    assert_eq!((layers[1].start_percent, layers[1].end_percent), (80, 100));
    assert_eq!((layers[2].start_percent, layers[2].end_percent), (7, 8));
    assert_eq!(layers[0].short_name, "x");
}

#[test]
fn profiler_records_and_ranks() {
    let mut p = PerfProfiler::new();
    assert_eq!(p.total_generation_time(), 0);
    p.record_step(2, "B", 30);
    p.record_step(0, "A", 10);
    p.record_step(2, "B", 50);
    p.record_step(1, "C", 40);
    assert_eq!(p.total_generation_time(), 130);
    let all = p.all_steps_sorted();
    let keys: Vec<usize> = all.iter().map(|(k, _)| *k).collect();
    assert_eq!(keys, vec![0, 1, 2]);
    let b = &all[2].1;
    assert_eq!((b.name.as_str(), b.run_count, b.total_duration, b.min_duration, b.max_duration), ("B", 2, 80, 30, 50));
    assert_eq!(b.avg_duration(), 40);
    let slow: Vec<String> = p.slowest_steps(2).iter().map(|s| s.name.clone()).collect();
    // B and C both average 40; the earlier index comes first
    assert_eq!(slow, vec!["C".to_string(), "B".to_string()]);
    assert_eq!(p.slowest_steps(10).len(), 3);
    assert_eq!(p.slowest_steps(0).len(), 0);
    assert!(p.can_record_step(2, 1_000));
    assert!(!p.can_record_step(7, u128::MAX));
    p.reset();
    assert!(p.all_steps_sorted().is_empty());
    assert_eq!(p.total_generation_time(), 0);
}

#[test]
fn profiler_keeps_recent_frames() {
    let mut p = PerfProfiler::new();
    for i in 0..125u128 {
        p.record_frame(i);
    }
    let frames = p.recent_frame_durations();
    assert_eq!(frames.len(), 120);
    assert_eq!(frames[0], 5);
    assert_eq!(frames[119], 124);
    p.start_generation();
    let _ = p.total_generation_time();
}

#[test]
fn throttle_intervals() {
    let cfg = ThrottleConfig { small_threshold: 100, large_threshold: 1000, refresh_small: 1, refresh_medium: 3, refresh_large: 5 };
    let small = TextureUpdateThrottle::from_config(&cfg, 5, 5);
    assert_eq!((small.refresh_interval(), small.world_pixels()), (1, 25));
    let mut t = TextureUpdateThrottle::from_config(&cfg, 20, 20);
    assert_eq!(t.refresh_interval(), 3);
    assert_eq!(TextureUpdateThrottle::from_config(&cfg, 50, 20).refresh_interval(), 5);
    let refreshes: Vec<bool> = (0..7).map(|_| t.tick(false)).collect();
    assert_eq!(refreshes, vec![false, false, true, false, false, true, false]);
    assert!(t.tick(true));
    t.reset();
    assert!(!t.tick(false));
    assert_eq!(t.frame_count(), 1);
    t.adjust_interval(FrameLoad::Slow);
    assert_eq!(t.refresh_interval(), 4);
    t.adjust_interval(FrameLoad::Fast);
    t.adjust_interval(FrameLoad::Fast);
    t.adjust_interval(FrameLoad::Fast);
    assert_eq!(t.refresh_interval(), 2);
    t.adjust_interval(FrameLoad::Normal);
    assert_eq!(t.refresh_interval(), 2);
    for _ in 0..30 {
        t.adjust_interval(FrameLoad::Slow);
    }
    assert_eq!(t.refresh_interval(), 16);
}

fn block(id: u8, color: [u8; 4]) -> BlockDefinition {
    BlockDefinition { id, name: String::new(), color: ColorRgba::from_array(color), description: String::new(), category: String::new() }
}

#[test]
fn color_tables_and_images() {
    let blocks = vec![block(1, [1, 1, 1, 255]), block(2, [2, 2, 2, 255]), block(1, [9, 9, 9, 255])];
    let map = build_color_map(&blocks);
    assert_eq!(map.len(), 256);
    assert_eq!(map[1], Some(ColorRgba::from_array([9, 9, 9, 255])));
    assert_eq!(map[3], None);
    let lut = build_color_lut(&map);
    assert_eq!(lut[2], ColorRgba::from_array([2, 2, 2, 255]));
    assert_eq!(lut[200], ColorRgba::from_array([255, 0, 255, 255]));

    let mut world = World::new_filled(3, 2, 1);
    world.set(2, 1, 2);
    let img = world_to_color_image(&world, &lut);
    assert_eq!((img.width, img.height, img.pixels.len()), (3, 2, 6));
    assert_eq!(img.pixels[5], lut[2]);
    assert_eq!(img.pixels[0], lut[1]);

    let rows = world_rows_to_color_pixels(&world, &lut, 1, 10);
    assert_eq!(rows, vec![lut[1], lut[1], lut[2]]);
    assert!(world_rows_to_color_pixels(&world, &lut, 2, 5).is_empty());

    let mut big = World::new_filled(5, 3, 1);
    big.set(2, 2, 2);
    let small = world_to_color_image_downsampled(&big, &lut, 2);
    assert_eq!((small.width, small.height), (3, 2));
    assert_eq!(small.pixels, vec![lut[1], lut[1], lut[1], lut[1], lut[2], lut[1]]);
    let same = world_to_color_image_downsampled(&big, &lut, 1);
    assert_eq!(same.pixels.len(), 15);
}

#[test]
fn biome_overlay_uses_last_definition_and_transparency() {
    let def = |id: u8, c: [u8; 4]| BiomeDefinition { id, key: String::new(), name: String::new(), overlay_color: c, generation_weight: 1, description: String::new() };
    let defs = vec![def(2, [1, 2, 3, 4]), def(2, [5, 6, 7, 8])];
    let mut bm = BiomeMap::new_filled(2, 1, 0);
    bm.set(1, 0, 2);
    let img = biome_overlay_image(&bm, &defs);
    assert_eq!(img.pixels, vec![ColorRgba::from_array([0, 0, 0, 0]), ColorRgba::from_array([5, 6, 7, 8])]);
}

#[test]
fn text_helpers() {
    assert!(str_eq("地表", "地表"));
    assert!(!str_eq("a", "ab"));
}

#[test]
fn label_regions_split_far_apart_columns() {
    let mut bm = BiomeMap::new_filled(64, 16, 0);
    for y in 0..16u32 {
        for x in 0..64u32 {
            let b = if x < 8 { 1 } else if x < 40 { 2 } else if x >= 48 { 1 } else { 0 };
            bm.set(x, y, b);
        }
    }
    let regions = label_regions(&bm, 8, 24);
    assert_eq!(
        regions,
        vec![
            LabelRegion { biome: 1, x_min: 0, x_max: 0, sum_y: 8, count: 2 },
            LabelRegion { biome: 1, x_min: 48, x_max: 56, sum_y: 16, count: 4 },
            LabelRegion { biome: 2, x_min: 8, x_max: 32, sum_y: 32, count: 8 },
        ]
    );
}

#[test]
fn label_regions_join_columns_within_the_gap() {
    let mut bm = BiomeMap::new_filled(64, 9, 0);
    bm.set(0, 0, 3);
    bm.set(24, 8, 3);
    bm.set(48, 0, 3);
    let regions = label_regions(&bm, 8, 24);
    assert_eq!(regions, vec![LabelRegion { biome: 3, x_min: 0, x_max: 48, sum_y: 8, count: 3 }]);
    assert!(label_regions(&BiomeMap::new_filled(5, 5, 0), 8, 24).is_empty());
}

#[test]
fn defaults_match_constructors() {
    let overlay = lian_world::ui::overlay_config::OverlaySettings::default();
    assert!(!overlay.show_biome_color && !overlay.show_biome_labels);
    assert!(overlay.show_layer_lines && overlay.show_layer_labels);
    assert_eq!(
        lian_world::ui::control_panel::WorldSizeSelection::default(),
        lian_world::ui::control_panel::WorldSizeSelection::Small
    );
    assert!(lian_world::generation::step::GenerationState::default().biome_map.is_none());
    let profiler = lian_world::generation::optimizer::PerfProfiler::default();
    assert_eq!(profiler.total_generation_time(), 0);
    assert!(profiler.all_steps_sorted().is_empty());
}

#[test]
fn seed_upper_case_hex_round_trips() {
    for v in [0u64, 9, 10, 0xABCD, u64::MAX, 0xDEAD_BEEF_0123] {
        assert_eq!(parse_seed_input(&format!("0x{:X}", v)), Some(v));
        assert_eq!(parse_seed_input(&format!("0X{:X}", v)), Some(v));
    }
    // digits only are read as decimal, and overflow gives nothing
    assert_eq!(parse_seed_input("10"), Some(10));
    assert_eq!(parse_seed_input("99999999999999999999"), None);
}

#[test]
fn profile_series_counts_sums_and_bounds() {
    let mut p = PerfProfiler::new();
    for d in [5u128, 9, 1, 7] {
        p.record_step(2, "step", d);
    }
    let steps = p.all_steps_sorted();
    let prof = &steps[0].1;
    assert_eq!((prof.run_count, prof.total_duration, prof.min_duration, prof.max_duration), (4, 22, 1, 9));
    assert!(prof.min_duration <= prof.avg_duration() && prof.avg_duration() <= prof.max_duration);
    assert_eq!(prof.avg_duration(), 5);
    p.record_step(0, "other", 3);
    assert_eq!(p.total_generation_time(), 25);
}

#[test]
fn profiler_reset_twice_is_reset_once() {
    let mut p = PerfProfiler::new();
    p.record_step(1, "a", 5);
    p.record_frame(16);
    p.reset();
    p.reset();
    assert!(p.all_steps_sorted().is_empty());
    assert!(p.recent_frame_durations().is_empty());
    assert_eq!(p.total_generation_time(), 0);
    for i in 0..130u128 {
        p.record_frame(i);
    }
    assert_eq!(p.recent_frame_durations().len(), 120);
}

#[test]
fn throttle_ticks_after_reset_behave_as_fresh() {
    let cfg = ThrottleConfig { small_threshold: 100, large_threshold: 1000, refresh_small: 1, refresh_medium: 3, refresh_large: 5 };
    let mut t = TextureUpdateThrottle::from_config(&cfg, 20, 20);
    let fresh: Vec<bool> = (0..7).map(|_| t.tick(false)).collect();
    assert_eq!(fresh, vec![false, false, true, false, false, true, false]);
    assert_eq!(t.frame_count(), 7);
    t.reset();
    let again: Vec<bool> = (0..7).map(|_| t.tick(false)).collect();
    assert_eq!(again, fresh);
    assert!(t.tick(true));
    assert_eq!(t.refresh_interval(), 3);
}

#[test]
fn adjacent_layers_share_their_boundary_row() {
    let a = LayerDefinition { key: "a".into(), start_percent: 10, end_percent: 33, short_name: "a".into(), description: String::new() };
    let b = LayerDefinition { key: "b".into(), start_percent: 33, end_percent: 70, short_name: "b".into(), description: String::new() };
    for h in [0u32, 1, 7, 100, 1199, 1200] {
        let (s, e) = a.bounds_for_height(h);
        assert!(s <= e && e <= h);
        assert_eq!(e, b.bounds_for_height(h).0);
        assert!(a.bounds_for_height(h).1 <= a.bounds_for_height(h + 1).1);
    }
}

#[test]
fn calibration_picks_first_size_where_parallel_pays() {
    assert_eq!(parallel_threshold_from(&vec![]), FALLBACK_PARALLEL_THRESHOLD);
    assert_eq!(parallel_threshold_from(&vec![(10_000, 5, 9), (25_000, 9, 9)]), 50_000);
    assert_eq!(parallel_threshold_from(&vec![(10_000, 5, 9), (25_000, 9, 8), (50_000, 20, 3)]), 25_000);
}
