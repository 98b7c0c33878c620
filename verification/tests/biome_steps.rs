use lian_world::algorithms::biome_division::{
    biome_color, biome_id_by_key, forest_fill, scan_empty_ranges, spacing_ok, stone_fill, true_desert_positions,
};
use lian_world::base::biome::{BiomeDefinition, BiomeMap, BIOME_UNASSIGNED};
use lian_world::generation::biome_division::{BiomeBand, BiomeDivisionStep};
use lian_world::algorithms::biome_division::placement::{draw_slot, judge_slot, nearest_first, SlotDraw};
use rand::SeedableRng;

fn def(id: u8, key: &str, weight: u32) -> BiomeDefinition {
    BiomeDefinition {
        id,
        key: key.to_string(),
        name: format!("{key}-name"),
        overlay_color: [id, id, id, 100],
        generation_weight: weight,
        description: String::new(),
    }
}

fn map_from_rows(rows: &[&[u8]]) -> BiomeMap {
    let h = rows.len() as u32;
    let w = rows[0].len() as u32;
    let mut bm = BiomeMap::new_filled(w, h, BIOME_UNASSIGNED);
    for (y, row) in rows.iter().enumerate() {
        for (x, &b) in row.iter().enumerate() {
            bm.set(x as u32, y as u32, b);
        }
    }
    bm
}

fn rows_of(bm: &BiomeMap) -> Vec<Vec<u8>> {
    (0..bm.height).map(|y| (0..bm.width).map(|x| bm.get(x, y)).collect()).collect()
}

const F: u8 = 2; // forest
const D: u8 = 3; // desert
const C: u8 = 4; // crimson
const S: u8 = 9; // snow (never spreads)

#[test]
fn biome_lookups_by_key_and_color() {
    let defs = vec![def(2, "forest", 3), def(3, "desert", 1), def(3, "desert2", 1)];
    assert_eq!(biome_id_by_key(&defs, "desert"), Some(3));
    assert_eq!(biome_id_by_key(&defs, "ocean"), None);
    assert_eq!(biome_color(&defs, 3), [3, 3, 3, 100]);
    assert_eq!(biome_color(&defs, 77), [128, 128, 128, 120]);
}

#[test]
fn forest_fill_spreads_into_narrow_gaps_then_fills_forest() {
    // the middle row of rows [0, 3) is row 1
    let mut bm = map_from_rows(&[
        &[0, 0, D, D, 0, 0, 0, 0, S, 0],
        &[0, D, D, D, 0, 0, 0, 0, S, 0],
        &[0, 0, D, 0, 0, 0, 0, 0, S, 0],
    ]);
    let before = rows_of(&bm);
    forest_fill::execute(&mut bm, F, D, C, 0, 3, 2, &vec![]);
    // the gap of width 1 left of the desert is narrow: the desert spreads
    // left on every row, from that row's own desert edge; the gap of width 4
    // on its right is not narrow. Everything left unassigned becomes forest.
    assert_eq!(rows_of(&bm), vec![
        vec![D, D, D, D, F, F, F, F, S, F],
        vec![D, D, D, D, F, F, F, F, S, F],
        vec![D, D, D, F, F, F, F, F, S, F],
    ]);
    // assigned cells never change
    for y in 0..3 {
        for x in 0..10 {
            if before[y][x] != BIOME_UNASSIGNED {
                assert_eq!(rows_of(&bm)[y][x], before[y][x]);
            }
        }
    }
}

#[test]
fn forest_fill_true_desert_does_not_spread() {
    let mut bm = map_from_rows(&[&[0, D, D, D, 0, 0, 0, 0]]);
    // the desert segment [1, 4) has midpoint 2, inside [2, 5]
    forest_fill::execute(&mut bm, F, D, C, 0, 1, 3, &vec![(2, 5)]);
    assert_eq!(rows_of(&bm), vec![vec![F, D, D, D, F, F, F, F]]);
    let mut bm = map_from_rows(&[&[0, D, D, D, 0, 0, 0, 0]]);
    forest_fill::execute(&mut bm, F, D, C, 0, 1, 3, &vec![(5, 9)]);
    assert_eq!(rows_of(&bm), vec![vec![D, D, D, D, F, F, F, F]]);
}

#[test]
fn forest_fill_crimson_spreads_right_until_assigned() {
    let mut bm = map_from_rows(&[&[S, C, 0, 0, S, 0]]);
    forest_fill::execute(&mut bm, F, D, C, 0, 1, 3, &vec![]);
    assert_eq!(rows_of(&bm), vec![vec![S, C, C, C, S, F]]);
}

#[test]
fn forest_fill_only_touches_the_band() {
    let mut bm = map_from_rows(&[&[0, 0], &[0, 0], &[0, 0]]);
    forest_fill::execute(&mut bm, F, D, C, 1, 2, 5, &vec![]);
    assert_eq!(rows_of(&bm), vec![vec![0, 0], vec![F, F], vec![0, 0]]);
}

#[test]
fn stone_fill_fills_every_unassigned_cell() {
    let mut bm = map_from_rows(&[&[0, 5], &[6, 0]]);
    stone_fill::execute(&mut bm, 7);
    assert_eq!(rows_of(&bm), vec![vec![7, 5], vec![6, 7]]);
}

#[test]
fn spacing_rounds_half_width_toward_zero() {
    // |20 - 10| = 10 >= (6 + 5) / 2 + 5 = 10
    assert!(spacing_ok(&[(10, 5)], 20, 6, 5));
    assert!(!spacing_ok(&[(10, 5)], 19, 6, 5));
    assert!(spacing_ok(&[], 0, 0, 0));
}

#[test]
fn scan_empty_ranges_lists_maximal_runs() {
    let bm = map_from_rows(&[&[0, 0, 1, 0, 2, 2, 0, 0]]);
    assert_eq!(scan_empty_ranges(&bm, 0, 8), vec![(0, 2), (3, 4), (6, 8)]);
    assert_eq!(scan_empty_ranges(&bm, 0, 5), vec![(0, 2), (3, 4)]);
    // columns past the map count as unassigned
    assert_eq!(scan_empty_ranges(&bm, 0, 10), vec![(0, 2), (3, 4), (6, 10)]);
}

#[test]
fn true_desert_positions_alternate_around_centre() {
    assert_eq!(true_desert_positions(10, 4, 20, 3), vec![10, 7, 13, 4, 16, 19]);
    assert_eq!(true_desert_positions(5, 5, 5, 1), vec![5]);
}

#[test]
fn biome_division_step_weights() {
    let defs = vec![def(1, "ocean", 0), def(2, "forest", 3), def(3, "desert", 1), def(4, "lake", 0)];
    let step = BiomeDivisionStep::new(defs);
    assert_eq!(step.ocean_id(), Some(1));
    assert_eq!(step.pick_weighted(0), 2);
    assert_eq!(step.pick_weighted(2), 2);
    assert_eq!(step.pick_weighted(3), 3);
    assert_eq!(step.pick_weighted(50), 2);
    let mut rng = rand::rngs::StdRng::seed_from_u64(5);
    for _ in 0..50 {
        let id = step.random_biome(&mut rng);
        assert!(id == 2 || id == 3);
    }
    let none = BiomeDivisionStep::new(vec![def(1, "ocean", 0)]);
    assert_eq!(none.ocean_id(), Some(1));
    let mut rng = rand::rngs::StdRng::seed_from_u64(5);
    assert_eq!(none.random_biome(&mut rng), 1);
}

#[test]
fn biome_division_bands_tile_the_world() {
    let step = BiomeDivisionStep::new(vec![def(1, "ocean", 0), def(2, "forest", 3)]);
    assert_eq!(step.name(), "环境划分");
    assert_eq!(step.description(), "水平方向划分世界环境（海洋/森林/沙漠/雪地/丛林/猩红）");
    let mut rng = rand::rngs::StdRng::seed_from_u64(11);
    let bands = step.execute(2000, 100, &mut rng).expect("the table has an ocean");
    assert_eq!(bands[0], BiomeBand { biome: 1, start: 0, end: 100 });
    assert_eq!(*bands.last().unwrap(), BiomeBand { biome: 1, start: 1900, end: 2000 });
    for pair in bands.windows(2) {
        assert_eq!(pair[0].end, pair[1].start);
    }
    for b in &bands[1..bands.len() - 1] {
        let room = 1900 - b.start;
        let w = b.end - b.start;
        assert!(w >= room.min(300) && w <= room.min(800), "band {b:?}");
        assert_eq!(b.biome, 2);
    }
    // a world of oceans only
    let bands = step.execute(200, 100, &mut rng).unwrap();
    assert_eq!(bands, vec![BiomeBand { biome: 1, start: 0, end: 100 }, BiomeBand { biome: 1, start: 100, end: 200 }]);
}

#[test]
fn biome_division_without_ocean_fails() {
    let step = BiomeDivisionStep::new(vec![def(2, "forest", 3)]);
    let mut rng = rand::rngs::StdRng::seed_from_u64(1);
    assert_eq!(step.ocean_id(), None);
    assert_eq!(step.execute(1000, 50, &mut rng), Err("biome.json 中未找到海洋环境（generation_weight=0）".to_string()));
}

#[test]
fn ranges_nearest_the_centre_come_first() {
    let ranges = vec![(0, 10), (20, 30), (40, 50), (60, 70)];
    assert_eq!(nearest_first(&ranges, 25), vec![1, 0, 2, 3]);
    assert_eq!(nearest_first(&ranges, 100), vec![3, 2, 1, 0]);
    assert!(nearest_first(&Vec::new(), 0).is_empty());
}

#[test]
fn slot_draw_outcomes() {
    let mut rng = rand::rngs::StdRng::seed_from_u64(3);
    let mut bm = BiomeMap::new_filled(40, 10, BIOME_UNASSIGNED);
    // no range wide enough
    assert_eq!(draw_slot(&bm, &vec![(0, 5), (10, 14)], &vec![], 6, 0, 10, 0, &mut rng), SlotDraw::NoRoom);
    // one centre only: 5 in [0, 11) for a width of 10
    assert_eq!(draw_slot(&bm, &vec![(0, 11)], &vec![], 10, 0, 10, 0, &mut rng), SlotDraw::Placed(5));
    // exactly as wide as the range: no centre strictly inside
    assert_eq!(draw_slot(&bm, &vec![(0, 10)], &vec![], 10, 0, 10, 0, &mut rng), SlotDraw::Rejected);
    // too close to a placed slot
    assert_eq!(draw_slot(&bm, &vec![(0, 11)], &vec![(8, 4)], 10, 0, 10, 0, &mut rng), SlotDraw::Rejected);
    // the rectangle is no longer free
    bm.set(4, 4, 1);
    assert_eq!(draw_slot(&bm, &vec![(0, 11)], &vec![], 10, 0, 10, 0, &mut rng), SlotDraw::Rejected);
}

#[test]
fn slot_draws_spread_over_ranges_and_centres() {
    let bm = BiomeMap::new_filled(200, 10, BIOME_UNASSIGNED);
    let ranges = vec![(0, 100), (120, 200)];
    let mut rng = rand::rngs::StdRng::seed_from_u64(9);
    let mut centres = Vec::new();
    for _ in 0..40 {
        match draw_slot(&bm, &ranges, &vec![], 10, 0, 10, 0, &mut rng) {
            SlotDraw::Placed(cx) => {
                assert!((5..95).contains(&cx) || (125..195).contains(&cx));
                centres.push(cx);
            }
            other => panic!("unexpected {:?}", other),
        }
    }
    assert!(centres.iter().any(|&c| c < 100));
    assert!(centres.iter().any(|&c| c > 120));
    assert!(centres.iter().any(|&c| c != 5 && c != 125));
}

#[test]
fn judge_slot_checks_the_drawn_centre() {
    let mut bm = BiomeMap::new_filled(40, 10, BIOME_UNASSIGNED);
    // centres of a 10-wide patch in [0, 20) run over [5, 15)
    assert_eq!(judge_slot(&bm, (0, 20), &vec![], 10, 0, 10, 0, 5), SlotDraw::Placed(5));
    assert_eq!(judge_slot(&bm, (0, 20), &vec![], 10, 0, 10, 0, 14), SlotDraw::Placed(14));
    assert_eq!(judge_slot(&bm, (0, 20), &vec![], 10, 0, 10, 0, 4), SlotDraw::Rejected);
    assert_eq!(judge_slot(&bm, (0, 20), &vec![], 10, 0, 10, 0, 15), SlotDraw::Rejected);
    // the range is narrower than the patch
    assert_eq!(judge_slot(&bm, (0, 8), &vec![], 10, 0, 10, 0, 4), SlotDraw::Rejected);
    // spacing: |10 - 30| = 20 >= (10 + 10) / 2 + 10, but not + 11
    assert_eq!(judge_slot(&bm, (0, 20), &vec![(30, 10)], 10, 0, 10, 10, 10), SlotDraw::Placed(10));
    assert_eq!(judge_slot(&bm, (0, 20), &vec![(30, 10)], 10, 0, 10, 11, 10), SlotDraw::Rejected);
    // a negative width: half is -1, centres run over [-1 + 0, 20 + 1)
    assert_eq!(judge_slot(&bm, (0, 20), &vec![], -3, 0, 10, 0, 20), SlotDraw::Placed(20));
    bm.set(11, 2, 3);
    assert_eq!(judge_slot(&bm, (0, 20), &vec![], 10, 0, 10, 0, 10), SlotDraw::Rejected);
    assert_eq!(judge_slot(&bm, (0, 20), &vec![], 10, 0, 10, 0, 5), SlotDraw::Placed(5));
}
