use lian_world::base::biome::{BiomeMap, BIOME_UNASSIGNED};
use lian_world::base::geometry::{
    fill_biome, fill_biome_if, shape_all_match, BoundingBox, CellMask, Column, Rect, Shape, ShapeCombine, ShapeKind,
};
use lian_world::base::world::{World, AIR_BLOCK_ID};

#[test]
fn world_new_air_is_all_air() {
    let w = World::new_air(4, 3);
    assert_eq!(w.tiles.len(), 12);
    assert!(w.tiles.iter().all(|&t| t == AIR_BLOCK_ID));
    assert_eq!(AIR_BLOCK_ID, 1);
}

#[test]
fn world_set_then_get_reads_back() {
    let mut w = World::new_filled(5, 4, 7);
    w.set(2, 3, 9);
    assert_eq!(w.get(2, 3), Some(9));
    assert_eq!(w.get(3, 2), Some(7));
    assert_eq!(w.get(5, 0), None);
    assert_eq!(w.get_or_air(0, 4), AIR_BLOCK_ID);
    // writes outside the grid are ignored
    let before = w.tiles.clone();
    w.set(10, 10, 3);
    assert_eq!(w.tiles, before);
}

#[test]
fn world_fill_rect_clips_to_grid() {
    let mut w = World::new_filled(4, 4, 0);
    w.fill_rect(2, 1, 10, 3, 5);
    for y in 0..4u32 {
        for x in 0..4u32 {
            let expected = if x >= 2 && (1..3).contains(&y) { 5 } else { 0 };
            assert_eq!(w.get(x, y), Some(expected), "cell {x},{y}");
        }
    }
}

#[test]
fn world_fill_column_and_outside_column() {
    let mut w = World::new_filled(3, 5, 0);
    w.fill_column(1, 2, 100, 8);
    assert_eq!(w.get(1, 1), Some(0));
    assert_eq!(w.get(1, 2), Some(8));
    assert_eq!(w.get(1, 4), Some(8));
    assert_eq!(w.get(0, 3), Some(0));
    let before = w.tiles.clone();
    w.fill_column(3, 0, 5, 9);
    assert_eq!(w.tiles, before);
}

#[test]
fn world_for_each_in_rows_rewrites_band() {
    let mut w = World::new_filled(3, 4, 2);
    w.for_each_in_rows(1, 3, |x, y, t| t + (x as u8) + 10 * (y as u8));
    assert_eq!(w.get(0, 0), Some(2));
    assert_eq!(w.get(2, 1), Some(2 + 2 + 10));
    assert_eq!(w.get(1, 2), Some(2 + 1 + 20));
    assert_eq!(w.get(1, 3), Some(2));
    assert!(w.in_bounds(2, 3));
    assert!(!w.in_bounds(3, 0));
}

#[test]
fn biome_map_set_get_and_count() {
    let mut bm = BiomeMap::new_filled(4, 2, BIOME_UNASSIGNED);
    bm.set(1, 0, 3);
    bm.set(2, 1, 3);
    bm.set(9, 9, 3);
    assert_eq!(bm.get(1, 0), 3);
    assert_eq!(bm.get(1, 1), BIOME_UNASSIGNED);
    assert_eq!(bm.get(40, 0), BIOME_UNASSIGNED);
    assert_eq!(bm.count_biome_in_x_range(3, 0, 4), 2);
    assert_eq!(bm.count_biome_in_x_range(3, 2, 100), 1);
    assert_eq!(bm.count_biome_in_x_range(BIOME_UNASSIGNED, 0, 4), 6);
    assert_eq!(bm.data().len(), 8);
    bm.data_mut()[0] = 5;
    assert_eq!(bm.get(0, 0), 5);
}

#[test]
fn rect_new_orders_corners() {
    let r = Rect::new(5, 9, 1, 2);
    assert_eq!((r.x0, r.y0, r.x1, r.y1), (1, 2, 5, 9));
    assert!(r.contains(1, 2));
    assert!(!r.contains(5, 2));
    let b = r.bounding_box();
    assert_eq!((b.x_min, b.y_min, b.x_max, b.y_max), (1, 2, 5, 9));
    let c = Rect::from_center(10, 10, 3, 2);
    assert_eq!((c.x0, c.y0, c.x1, c.y1), (7, 8, 13, 12));
    assert_eq!(r.kind_name(), "矩形");
}

#[test]
fn bounding_box_union_intersect_empty() {
    let a = BoundingBox::new(0, 0, 4, 4);
    let b = BoundingBox::new(2, -1, 6, 3);
    let u = a.union(b);
    assert_eq!((u.x_min, u.y_min, u.x_max, u.y_max), (0, -1, 6, 4));
    let i = a.intersect(b);
    assert_eq!((i.x_min, i.y_min, i.x_max, i.y_max), (2, 0, 4, 3));
    assert!(!i.is_empty());
    let far = BoundingBox::new(10, 10, 12, 12);
    assert!(a.intersect(far).is_empty());
    assert!(BoundingBox::new(3, 0, 3, 5).is_empty());
}

#[test]
fn shape_combinators_follow_set_rules() {
    let a = Rect::new(0, 0, 4, 4);
    let b = Rect::new(2, 2, 6, 6);
    let u = a.clone().union(b.clone());
    assert!(u.contains(5, 5) && u.contains(0, 0) && !u.contains(5, 0));
    assert_eq!(u.kind_name(), "并集");
    let i = a.clone().intersect(b.clone());
    assert!(i.contains(3, 3) && !i.contains(1, 1));
    let ib = i.bounding_box();
    assert_eq!((ib.x_min, ib.y_min, ib.x_max, ib.y_max), (2, 2, 4, 4));
    let s = a.clone().subtract(b);
    assert!(s.contains(1, 1) && !s.contains(3, 3));
    let sb = s.bounding_box();
    assert_eq!((sb.x_min, sb.x_max), (0, 4));
    let col = Column::new(2, 1, 3);
    assert!(col.contains(2, 1) && !col.contains(2, 3) && !col.contains(1, 1));
    let cb = col.bounding_box();
    assert_eq!((cb.x_min, cb.x_max), (2, 3));
    assert_eq!(col.kind_name(), "列");
}

#[test]
fn shape_kind_names() {
    let all = ShapeKind::all();
    assert_eq!(all, [ShapeKind::Rect, ShapeKind::Ellipse, ShapeKind::Trapezoid, ShapeKind::Column]);
    assert_eq!(ShapeKind::Ellipse.display_name(), "椭圆");
    assert_eq!(ShapeKind::Column.math_description(), "单像素宽垂直线段：x=固定, y∈[y_start,y_end)");
}

#[test]
fn fill_biome_paints_shape_inside_map_only() {
    let mut bm = BiomeMap::new_filled(5, 5, 0);
    fill_biome(&Rect::new(-3, 3, 2, 10), &mut bm, 4);
    for y in 0..5u32 {
        for x in 0..5u32 {
            let expected = if x < 2 && y >= 3 { 4 } else { 0 };
            assert_eq!(bm.get(x, y), expected, "cell {x},{y}");
        }
    }
}

#[test]
fn fill_biome_if_keeps_rejected_cells() {
    let mut bm = BiomeMap::new_filled(4, 1, 0);
    bm.set(1, 0, 9);
    fill_biome_if(&Rect::new(0, 0, 4, 1), &mut bm, 2, |c| c == BIOME_UNASSIGNED);
    assert_eq!(bm.data(), &[2, 9, 2, 2]);
}

#[test]
fn shape_all_match_samples_on_grid() {
    let mut bm = BiomeMap::new_filled(6, 6, 1);
    bm.set(1, 1, 7);
    let r = Rect::new(0, 0, 6, 6);
    assert!(!shape_all_match(&r, &bm, 1, |c| c == 1));
    // with step 2 only even rows and columns are sampled
    assert!(shape_all_match(&r, &bm, 2, |c| c == 1));
    // a step below 1 samples every cell
    assert!(!shape_all_match(&r, &bm, 0, |c| c == 1));
}

#[test]
fn cell_mask_fills_marked_cells() {
    // a diagonal over the box [1, 4) x [0, 3)
    let mask = CellMask {
        bbox: BoundingBox::new(1, 0, 4, 3),
        cells: vec![true, false, false, false, true, false, false, false, true],
    };
    assert!(mask.contains(1, 0) && mask.contains(2, 1) && mask.contains(3, 2));
    assert!(!mask.contains(2, 0) && !mask.contains(0, 0) && !mask.contains(4, 2));
    assert_eq!(mask.kind_name(), "掩码");
    let mut bm = BiomeMap::new_filled(4, 3, 0);
    fill_biome(&mask, &mut bm, 6);
    assert_eq!(bm.data(), &[0, 6, 0, 0, 0, 0, 6, 0, 0, 0, 0, 6]);
    // a list shorter than the box leaves the missing cells out
    let short = CellMask { bbox: BoundingBox::new(0, 0, 2, 2), cells: vec![true, true] };
    assert!(short.contains(1, 0) && !short.contains(0, 1));
    let clipped = short.intersect(Rect::new(1, 0, 2, 1));
    assert!(clipped.contains(1, 0) && !clipped.contains(0, 0));
}
