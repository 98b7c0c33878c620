use std::collections::BTreeMap;

use lian_world::base::biome::{build_biome_definitions, get_biome_context, get_layer_at, layer_short_name, BiomeContext, BiomeMap};
use lian_world::base::block::build_block_definitions;
use lian_world::base::color::ColorRgba;
use lian_world::base::layer::{build_layers, LayerDefinition};
use lian_world::base::world::WorldProfile;
use lian_world::base::CoreError;
use lian_world::config::biome::BiomeConfig;
use lian_world::config::blocks::BlockConfig;
use lian_world::config::world::{LayerConfig, WorldConfig, WorldSize};
use lian_world::generation::reset::ResetStep;
use lian_world::generation::snapshot::{
    apply_layer_overrides, check_snapshot_version, collect_layer_overrides, LayerOverride, SNAPSHOT_VERSION,
};
use lian_world::generation::step::GenerationState;
use lian_world::base::world::World;

fn layer_cfg(start: u8, end: u8, short: Option<&str>) -> LayerConfig {
    LayerConfig { start_percent: start, end_percent: end, short_name: short.map(|s| s.to_string()), description: format!("{start}-{end}") }
}

fn world_config() -> WorldConfig {
    WorldConfig {
        world_sizes: vec![
            ("custom".to_string(), WorldSize { width: None, height: None, description: "custom".to_string() }),
            ("small".to_string(), WorldSize { width: Some(4200), height: Some(1200), description: "small".to_string() }),
            ("zero".to_string(), WorldSize { width: Some(0), height: Some(10), description: String::new() }),
        ],
        layers: vec![
            ("hell".to_string(), layer_cfg(85, 100, Some("地狱"))),
            ("space".to_string(), layer_cfg(0, 10, Some("太空"))),
            ("surface".to_string(), layer_cfg(10, 30, None)),
        ],
    }
}

fn layer(key: &str, start: u8, end: u8) -> LayerDefinition {
    LayerDefinition { key: key.to_string(), start_percent: start, end_percent: end, short_name: key.to_string(), description: String::new() }
}

#[test]
fn block_definitions_in_id_order() {
    let mut cfg = BTreeMap::new();
    cfg.insert(5u8, BlockConfig { name: "dirt".into(), rgba: [1, 2, 3, 4], description: "d".into(), category: "c".into() });
    cfg.insert(1u8, BlockConfig { name: "air".into(), rgba: [0, 0, 0, 0], description: String::new(), category: String::new() });
    let defs = build_block_definitions(&cfg);
    assert_eq!(defs.len(), 2);
    assert_eq!(defs[0].id, 1);
    assert_eq!(defs[1].id, 5);
    assert_eq!(defs[1].name, "dirt");
    assert_eq!(defs[1].color, ColorRgba { r: 1, g: 2, b: 3, a: 4 });
    assert_eq!(defs[1].color.as_array(), [1, 2, 3, 4]);
    assert_eq!(ColorRgba::from_array([9, 8, 7, 6]).as_array(), [9, 8, 7, 6]);
    assert_eq!(ColorRgba::from([1, 2, 3, 4]), ColorRgba { r: 1, g: 2, b: 3, a: 4 });
}

#[test]
fn biome_definitions_in_id_order() {
    let mut cfg = BTreeMap::new();
    cfg.insert(3u8, BiomeConfig { key: "desert".into(), name: "沙漠".into(), overlay_color: [1, 1, 1, 1], generation_weight: 2, description: String::new() });
    cfg.insert(2u8, BiomeConfig { key: "forest".into(), name: "森林".into(), overlay_color: [2, 2, 2, 2], generation_weight: 5, description: String::new() });
    let defs = build_biome_definitions(&cfg);
    let ids: Vec<u8> = defs.iter().map(|d| d.id).collect();
    assert_eq!(ids, vec![2, 3]);
    assert_eq!(defs[0].key, "forest");
    assert_eq!(defs[1].generation_weight, 2);
}

#[test]
fn build_layers_keeps_order_and_short_names() {
    let layers = build_layers(&world_config()).expect("valid layers");
    assert_eq!(layers.len(), 3);
    assert_eq!(layers[0].short_name, "地狱");
    assert_eq!(layers[1].short_name, "太空");
    assert_eq!(layers[2].short_name, "surface");
    assert_eq!(layers[0].start_percent, 85);
    assert_eq!(layers[2].description, "10-30");
}

#[test]
fn build_layers_reports_first_invalid_layer() {
    let mut cfg = world_config();
    cfg.layers.insert(0, ("bad".to_string(), layer_cfg(50, 50, None)));
    cfg.layers.push(("worse".to_string(), layer_cfg(0, 101, None)));
    assert!(cfg.keys_in_order());
    match build_layers(&cfg) {
        Err(e @ CoreError::InvalidLayerPercent { .. }) => {
            assert_eq!(e.message(), "层级百分比非法: bad (start=50, end=50)，要求 0<=start<end<=100");
        }
        other => panic!("unexpected {other:?}"),
    }
}

#[test]
fn world_config_keys_must_increase() {
    let mut cfg = world_config();
    assert!(cfg.keys_in_order());
    cfg.layers.swap(0, 1);
    assert!(!cfg.keys_in_order());
    let mut cfg = world_config();
    cfg.world_sizes.push(("small".to_string(), WorldSize { width: Some(1), height: Some(1), description: String::new() }));
    assert!(!cfg.keys_in_order());
}

#[test]
fn world_profile_sizes_and_errors() {
    let cfg = world_config();
    let p = WorldProfile::from_config(&cfg, "small", None).expect("small exists");
    assert_eq!((p.size.width, p.size.height), (4200, 1200));
    assert_eq!(p.size.key, "small");
    assert_eq!(p.layers.len(), 3);
    let w = p.create_world();
    assert_eq!(w.tiles.len(), 4200 * 1200);
    let c = WorldProfile::from_config(&cfg, "custom", Some((30, 20))).expect("custom size");
    assert_eq!((c.size.width, c.size.height), (30, 20));
    match WorldProfile::from_config(&cfg, "custom", Some((0, 20))) {
        Err(e @ CoreError::InvalidCustomSize) => assert_eq!(e.message(), "custom 世界尺寸需要传入有效宽高"),
        other => panic!("unexpected {other:?}"),
    }
    assert!(matches!(WorldProfile::from_config(&cfg, "custom", None), Err(CoreError::InvalidCustomSize)));
    assert!(matches!(WorldProfile::from_config(&cfg, "zero", None), Err(CoreError::InvalidCustomSize)));
    match WorldProfile::from_config(&cfg, "huge", None) {
        Err(e @ CoreError::MissingWorldSize(_)) => assert_eq!(e.message(), "未找到世界尺寸配置: huge"),
        other => panic!("unexpected {other:?}"),
    }
}

#[test]
fn layer_bounds_and_lookup() {
    let layers = vec![layer("space", 0, 10), layer("surface", 10, 30), layer("hell", 85, 100)];
    assert_eq!(layers[1].bounds_for_height(1200), (120, 360));
    assert_eq!(layers[0].bounds_for_height(7), (0, 0));
    assert_eq!(get_layer_at(0, &layers, 1200).as_deref(), Some("space"));
    assert_eq!(get_layer_at(119, &layers, 1200).as_deref(), Some("space"));
    assert_eq!(get_layer_at(120, &layers, 1200).as_deref(), Some("surface"));
    assert_eq!(get_layer_at(500, &layers, 1200), None);
    assert_eq!(layer_short_name("underground"), "地下");
    assert_eq!(layer_short_name("sky"), "?");
}

#[test]
fn biome_context_labels() {
    let mut cfg = BTreeMap::new();
    cfg.insert(2u8, BiomeConfig { key: "forest".into(), name: "森林".into(), overlay_color: [0; 4], generation_weight: 1, description: String::new() });
    let defs = build_biome_definitions(&cfg);
    let layers = vec![layer("space", 0, 10), layer("surface", 10, 30)];
    let mut bm = BiomeMap::new_filled(10, 100, 0);
    bm.set(3, 15, 2);
    let ctx = get_biome_context(3, 15, &bm, &layers, 100);
    assert_eq!(ctx.horizontal, Some(2));
    assert_eq!(ctx.vertical.as_deref(), Some("surface"));
    assert_eq!(ctx.label(&defs), "森林+surface");
    assert_eq!(ctx.short_label(&defs), "森林·地表");
    let unknown = BiomeContext { horizontal: Some(9), vertical: None };
    assert_eq!(unknown.label(&defs), "未知环境+未知层级");
    assert_eq!(unknown.short_label(&defs), "未知");
}

#[test]
fn snapshot_version_check() {
    assert_eq!(SNAPSHOT_VERSION, 1);
    assert!(check_snapshot_version(0).is_ok());
    assert!(check_snapshot_version(1).is_ok());
    assert_eq!(check_snapshot_version(3), Err("存档版本 3 高于当前支持的版本 1".to_string()));
    assert_eq!(check_snapshot_version(90210), Err("存档版本 90210 高于当前支持的版本 1".to_string()));
}

#[test]
fn saved_layers_restore_after_edit() {
    let original = vec![layer("space", 0, 10), layer("surface", 10, 30), layer("hell", 85, 100)];
    let saved = collect_layer_overrides(&original);
    assert_eq!(saved.len(), 3);
    let mut edited = original.clone();
    edited[1].start_percent = 12;
    edited[2].end_percent = 99;
    apply_layer_overrides(&mut edited, &saved);
    for (a, b) in edited.iter().zip(original.iter()) {
        assert_eq!((a.key.as_str(), a.start_percent, a.end_percent), (b.key.as_str(), b.start_percent, b.end_percent));
    }
}

#[test]
fn collected_overrides_keep_last_of_repeated_key() {
    let layers = vec![layer("a", 0, 10), layer("b", 10, 20), layer("a", 30, 40)];
    let saved = collect_layer_overrides(&layers);
    assert_eq!(saved.len(), 2);
    let a = saved.iter().find(|(k, _)| k == "a").expect("key a").1;
    assert_eq!(a, LayerOverride { start_percent: 30, end_percent: 40 });
    let mut target = vec![layer("a", 1, 2), layer("c", 5, 6)];
    apply_layer_overrides(&mut target, &saved);
    assert_eq!((target[0].start_percent, target[0].end_percent), (30, 40));
    assert_eq!((target[1].start_percent, target[1].end_percent), (5, 6));
}

#[test]
fn reset_step_clears_world_to_air() {
    let mut w = World::new_filled(3, 2, 9);
    let step = ResetStep;
    assert_eq!(step.name(), "重置");
    assert_eq!(step.description(), "将世界初始化为全空气");
    assert!(step.execute(&mut w).is_ok());
    assert!(w.tiles.iter().all(|&t| t == 1));
    assert!(GenerationState::new().biome_map.is_none());
}
