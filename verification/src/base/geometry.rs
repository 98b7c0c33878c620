//! Shapes on the integer grid and the functions that paint them into a
//! [`BiomeMap`].
//!
//! A shape answers `contains(x, y)` and gives a bounding box; shapes combine
//! by union, intersection and difference. The fill functions visit the
//! shape's bounding box clipped to the map and write the cells the shape
//! contains.

use vstd::prelude::*;

use crate::base::biome::{BiomeId, BiomeMap};
use crate::base::world::cell_index;
use crate::base::world::{lemma_cell_index_bounds, lemma_cell_index_injective};

verus! {

/// Axis-aligned box `[x_min, x_max) x [y_min, y_max)` in cell coordinates.
#[derive(Clone, Copy, Debug, PartialEq, Eq, Structural)]
pub struct BoundingBox {
    pub x_min: i32,
    pub y_min: i32,
    pub x_max: i32,
    pub y_max: i32,
}

/// The smaller of two `i32`.
pub open spec fn min_i32(a: i32, b: i32) -> i32 {
    if a <= b { a } else { b }
}

/// The larger of two `i32`.
pub open spec fn max_i32(a: i32, b: i32) -> i32 {
    if a >= b { a } else { b }
}

fn min_of(a: i32, b: i32) -> (r: i32)
    ensures
        r == min_i32(a, b),
{
    if a <= b { a } else { b }
}

fn max_of(a: i32, b: i32) -> (r: i32)
    ensures
        r == max_i32(a, b),
{
    if a >= b { a } else { b }
}

impl BoundingBox {
    /// The box with the given corners.
    pub fn new(x_min: i32, y_min: i32, x_max: i32, y_max: i32) -> (b: BoundingBox)
        ensures
            b == (BoundingBox { x_min, y_min, x_max, y_max }),
    {
        BoundingBox { x_min, y_min, x_max, y_max }
    }

    /// The smallest box covering both boxes.
    pub open spec fn spec_union(self, other: Self) -> Self {
        BoundingBox {
            x_min: min_i32(self.x_min, other.x_min),
            y_min: min_i32(self.y_min, other.y_min),
            x_max: max_i32(self.x_max, other.x_max),
            y_max: max_i32(self.y_max, other.y_max),
        }
    }

    /// The overlap of both boxes (possibly empty).
    pub open spec fn spec_intersect(self, other: Self) -> Self {
        BoundingBox {
            x_min: max_i32(self.x_min, other.x_min),
            y_min: max_i32(self.y_min, other.y_min),
            x_max: min_i32(self.x_max, other.x_max),
            y_max: min_i32(self.y_max, other.y_max),
        }
    }

    /// The box covers no cell.
    pub open spec fn spec_is_empty(self) -> bool {
        self.x_min >= self.x_max || self.y_min >= self.y_max
    }

    /// Cell `(x, y)` lies in the box.
    pub open spec fn covers(self, x: int, y: int) -> bool {
        self.x_min <= x < self.x_max && self.y_min <= y < self.y_max
    }

    /// The smallest box covering both boxes.
    pub fn union(self, other: Self) -> (b: Self)
        ensures
            b == self.spec_union(other),
    {
        BoundingBox {
            x_min: min_of(self.x_min, other.x_min),
            y_min: min_of(self.y_min, other.y_min),
            x_max: max_of(self.x_max, other.x_max),
            y_max: max_of(self.y_max, other.y_max),
        }
    }

    /// The overlap of both boxes (possibly empty).
    pub fn intersect(self, other: Self) -> (b: Self)
        ensures
            b == self.spec_intersect(other),
    {
        BoundingBox {
            x_min: max_of(self.x_min, other.x_min),
            y_min: max_of(self.y_min, other.y_min),
            x_max: min_of(self.x_max, other.x_max),
            y_max: min_of(self.y_max, other.y_max),
        }
    }

    /// Whether the box covers no cell.
    pub fn is_empty(self) -> (r: bool)
        ensures
            r == self.spec_is_empty(),
    {
        self.x_min >= self.x_max || self.y_min >= self.y_max
    }
}

/// The union box covers every cell of either box; the intersection box
/// covers exactly the cells both boxes cover.
pub proof fn lemma_box_union_intersect(a: BoundingBox, b: BoundingBox, x: int, y: int)
    ensures
        a.covers(x, y) || b.covers(x, y) ==> a.spec_union(b).covers(x, y),
        a.spec_intersect(b).covers(x, y) <==> (a.covers(x, y) && b.covers(x, y)),
        a.spec_union(b) == b.spec_union(a),
        a.spec_intersect(b) == b.spec_intersect(a),
        a.spec_is_empty() ==> !a.covers(x, y),
{
}

/// A region of the cell grid.
pub trait Shape {
    /// The shape may be queried (its bounding box is representable).
    spec fn spec_valid(&self) -> bool;

    /// Cell `(x, y)` belongs to the shape.
    spec fn spec_contains(&self, x: i32, y: i32) -> bool;

    /// The box the fill functions visit for this shape.
    spec fn spec_bounding_box(&self) -> BoundingBox;

    /// The display name of the shape kind.
    spec fn spec_kind_name(&self) -> Seq<char>;

    /// Every cell of the shape lies in its bounding box.
    proof fn lemma_contained_in_box(&self, x: i32, y: i32)
        requires
            self.spec_valid(),
            self.spec_contains(x, y),
        ensures
            self.spec_bounding_box().covers(x as int, y as int),
    ;

    /// Whether cell `(x, y)` belongs to the shape.
    fn contains(&self, x: i32, y: i32) -> (r: bool)
        ensures
            r == self.spec_contains(x, y),
    ;

    /// The box the fill functions visit for this shape.
    fn bounding_box(&self) -> (b: BoundingBox)
        requires
            self.spec_valid(),
        ensures
            b == self.spec_bounding_box(),
    ;

    /// The display name of the shape kind.
    fn kind_name(&self) -> (s: &'static str)
        ensures
            s@ == self.spec_kind_name(),
    ;
}

/// Axis-aligned rectangle `[x0, x1) x [y0, y1)` with `x0 <= x1`, `y0 <= y1`.
#[derive(Clone, Debug)]
pub struct Rect {
    pub x0: i32,
    pub y0: i32,
    pub x1: i32,
    pub y1: i32,
}

impl Rect {
    /// The rectangle spanned by two corners, in either order.
    pub fn new(x0: i32, y0: i32, x1: i32, y1: i32) -> (r: Rect)
        ensures
            r.x0 == min_i32(x0, x1),
            r.y0 == min_i32(y0, y1),
            r.x1 == max_i32(x0, x1),
            r.y1 == max_i32(y0, y1),
    {
        Rect { x0: min_of(x0, x1), y0: min_of(y0, y1), x1: max_of(x0, x1), y1: max_of(y0, y1) }
    }

    /// The rectangle around `(cx, cy)` reaching `half_w` and `half_h` out.
    pub fn from_center(cx: i32, cy: i32, half_w: i32, half_h: i32) -> (r: Rect)
        requires
            i32::MIN <= cx - half_w <= i32::MAX,
            i32::MIN <= cx + half_w <= i32::MAX,
            i32::MIN <= cy - half_h <= i32::MAX,
            i32::MIN <= cy + half_h <= i32::MAX,
        ensures
            r.x0 == min_i32((cx - half_w) as i32, (cx + half_w) as i32),
            r.y0 == min_i32((cy - half_h) as i32, (cy + half_h) as i32),
            r.x1 == max_i32((cx - half_w) as i32, (cx + half_w) as i32),
            r.y1 == max_i32((cy - half_h) as i32, (cy + half_h) as i32),
    {
        Self::new(cx - half_w, cy - half_h, cx + half_w, cy + half_h)
    }
}

impl Shape for Rect {
    open spec fn spec_valid(&self) -> bool {
        true
    }

    open spec fn spec_contains(&self, x: i32, y: i32) -> bool {
        self.x0 <= x < self.x1 && self.y0 <= y < self.y1
    }

    open spec fn spec_bounding_box(&self) -> BoundingBox {
        BoundingBox { x_min: self.x0, y_min: self.y0, x_max: self.x1, y_max: self.y1 }
    }

    open spec fn spec_kind_name(&self) -> Seq<char> {
        "矩形"@
    }

    proof fn lemma_contained_in_box(&self, x: i32, y: i32) {
    }

    fn contains(&self, x: i32, y: i32) -> (r: bool) {
        x >= self.x0 && x < self.x1 && y >= self.y0 && y < self.y1
    }

    fn bounding_box(&self) -> (b: BoundingBox) {
        BoundingBox::new(self.x0, self.y0, self.x1, self.y1)
    }

    fn kind_name(&self) -> (s: &'static str) {
        "矩形"
    }
}

/// Position of cell `(x, y)` in the row-major cell list of box `bbox`.
pub open spec fn mask_index(bbox: BoundingBox, x: int, y: int) -> int {
    (y - bbox.y_min) * (bbox.x_max - bbox.x_min) + (x - bbox.x_min)
}

/// A shape listed cell by cell: the cells of `bbox` whose entry in `cells`
/// (row by row over the box) is `true`. Shapes whose membership is computed
/// elsewhere (such as curved outlines) are handed to the fill functions this
/// way.
#[derive(Clone, Debug)]
pub struct CellMask {
    pub bbox: BoundingBox,
    pub cells: Vec<bool>,
}

impl Shape for CellMask {
    open spec fn spec_valid(&self) -> bool {
        true
    }

    open spec fn spec_contains(&self, x: i32, y: i32) -> bool {
        &&& self.bbox.covers(x as int, y as int)
        &&& mask_index(self.bbox, x as int, y as int) < self.cells.len()
        &&& self.cells@[mask_index(self.bbox, x as int, y as int)]
    }

    open spec fn spec_bounding_box(&self) -> BoundingBox {
        self.bbox
    }

    open spec fn spec_kind_name(&self) -> Seq<char> {
        "掩码"@
    }

    proof fn lemma_contained_in_box(&self, x: i32, y: i32) {
    }

    fn contains(&self, x: i32, y: i32) -> (r: bool) {
        let b = self.bbox;
        if x < b.x_min || x >= b.x_max || y < b.y_min || y >= b.y_max {
            return false;
        }
        let row = ((y as i64) - (b.y_min as i64)) as u64;
        let width = ((b.x_max as i64) - (b.x_min as i64)) as u64;
        let col = ((x as i64) - (b.x_min as i64)) as u64;
        assert(row * width + col < 0x1_0000_0000_0000_0000) by (nonlinear_arith)
            requires
                row < 0x1_0000_0000,
                width < 0x1_0000_0000,
                col < width;
        let idx = row * width + col;
        assert(idx == mask_index(b, x as int, y as int));
        if idx < self.cells.len() as u64 {
            self.cells[idx as usize]
        } else {
            false
        }
    }

    fn bounding_box(&self) -> (b: BoundingBox) {
        self.bbox
    }

    fn kind_name(&self) -> (s: &'static str) {
        "掩码"
    }
}

/// One column `x`, rows `[y_start, y_end)`.
#[derive(Clone, Debug)]
pub struct Column {
    pub x: i32,
    pub y_start: i32,
    pub y_end: i32,
}

impl Column {
    /// Column `x` over rows `[y_start, y_end)`.
    pub fn new(x: i32, y_start: i32, y_end: i32) -> (c: Column)
        ensures
            c.x == x,
            c.y_start == y_start,
            c.y_end == y_end,
    {
        Column { x, y_start, y_end }
    }
}

impl Shape for Column {
    open spec fn spec_valid(&self) -> bool {
        self.x < i32::MAX
    }

    open spec fn spec_contains(&self, x: i32, y: i32) -> bool {
        x == self.x && self.y_start <= y < self.y_end
    }

    open spec fn spec_bounding_box(&self) -> BoundingBox {
        BoundingBox { x_min: self.x, y_min: self.y_start, x_max: (self.x + 1) as i32, y_max: self.y_end }
    }

    open spec fn spec_kind_name(&self) -> Seq<char> {
        "列"@
    }

    proof fn lemma_contained_in_box(&self, x: i32, y: i32) {
    }

    fn contains(&self, x: i32, y: i32) -> (r: bool) {
        x == self.x && y >= self.y_start && y < self.y_end
    }

    fn bounding_box(&self) -> (b: BoundingBox) {
        BoundingBox::new(self.x, self.y_start, self.x + 1, self.y_end)
    }

    fn kind_name(&self) -> (s: &'static str) {
        "列"
    }
}

/// Cells in `a` or in `b`.
pub struct Union<A: Shape, B: Shape> {
    pub a: A,
    pub b: B,
}

impl<A: Shape, B: Shape> Shape for Union<A, B> {
    open spec fn spec_valid(&self) -> bool {
        self.a.spec_valid() && self.b.spec_valid()
    }

    open spec fn spec_contains(&self, x: i32, y: i32) -> bool {
        self.a.spec_contains(x, y) || self.b.spec_contains(x, y)
    }

    open spec fn spec_bounding_box(&self) -> BoundingBox {
        self.a.spec_bounding_box().spec_union(self.b.spec_bounding_box())
    }

    open spec fn spec_kind_name(&self) -> Seq<char> {
        "并集"@
    }

    proof fn lemma_contained_in_box(&self, x: i32, y: i32) {
        if self.a.spec_contains(x, y) {
            self.a.lemma_contained_in_box(x, y);
        } else {
            self.b.lemma_contained_in_box(x, y);
        }
    }

    fn contains(&self, x: i32, y: i32) -> (r: bool) {
        self.a.contains(x, y) || self.b.contains(x, y)
    }

    fn bounding_box(&self) -> (b: BoundingBox) {
        self.a.bounding_box().union(self.b.bounding_box())
    }

    fn kind_name(&self) -> (s: &'static str) {
        "并集"
    }
}

/// Cells in both `a` and `b`.
pub struct Intersect<A: Shape, B: Shape> {
    pub a: A,
    pub b: B,
}

impl<A: Shape, B: Shape> Shape for Intersect<A, B> {
    open spec fn spec_valid(&self) -> bool {
        self.a.spec_valid() && self.b.spec_valid()
    }

    open spec fn spec_contains(&self, x: i32, y: i32) -> bool {
        self.a.spec_contains(x, y) && self.b.spec_contains(x, y)
    }

    open spec fn spec_bounding_box(&self) -> BoundingBox {
        self.a.spec_bounding_box().spec_intersect(self.b.spec_bounding_box())
    }

    open spec fn spec_kind_name(&self) -> Seq<char> {
        "交集"@
    }

    proof fn lemma_contained_in_box(&self, x: i32, y: i32) {
        self.a.lemma_contained_in_box(x, y);
        self.b.lemma_contained_in_box(x, y);
    }

    fn contains(&self, x: i32, y: i32) -> (r: bool) {
        self.a.contains(x, y) && self.b.contains(x, y)
    }

    fn bounding_box(&self) -> (b: BoundingBox) {
        self.a.bounding_box().intersect(self.b.bounding_box())
    }

    fn kind_name(&self) -> (s: &'static str) {
        "交集"
    }
}

/// Cells in `a` but not in `b`.
pub struct Subtract<A: Shape, B: Shape> {
    pub a: A,
    pub b: B,
}

impl<A: Shape, B: Shape> Shape for Subtract<A, B> {
    open spec fn spec_valid(&self) -> bool {
        self.a.spec_valid()
    }

    open spec fn spec_contains(&self, x: i32, y: i32) -> bool {
        self.a.spec_contains(x, y) && !self.b.spec_contains(x, y)
    }

    open spec fn spec_bounding_box(&self) -> BoundingBox {
        self.a.spec_bounding_box()
    }

    open spec fn spec_kind_name(&self) -> Seq<char> {
        "差集"@
    }

    proof fn lemma_contained_in_box(&self, x: i32, y: i32) {
        self.a.lemma_contained_in_box(x, y);
    }

    fn contains(&self, x: i32, y: i32) -> (r: bool) {
        self.a.contains(x, y) && !self.b.contains(x, y)
    }

    fn bounding_box(&self) -> (b: BoundingBox) {
        self.a.bounding_box()
    }

    fn kind_name(&self) -> (s: &'static str) {
        "差集"
    }
}

/// The built-in shape kinds.
#[derive(Clone, Copy, Debug, PartialEq, Eq, Hash, Structural)]
pub enum ShapeKind {
    Rect,
    Ellipse,
    Trapezoid,
    Column,
}

impl ShapeKind {
    /// All built-in kinds, in menu order.
    pub fn all() -> (r: [ShapeKind; 4])
        ensures
            r@ == seq![ShapeKind::Rect, ShapeKind::Ellipse, ShapeKind::Trapezoid, ShapeKind::Column],
    {
        [ShapeKind::Rect, ShapeKind::Ellipse, ShapeKind::Trapezoid, ShapeKind::Column]
    }

    /// Display name of the kind.
    pub fn display_name(self) -> (s: &'static str)
        ensures
            s@ == (match self {
                ShapeKind::Rect => "矩形"@,
                ShapeKind::Ellipse => "椭圆"@,
                ShapeKind::Trapezoid => "梯形"@,
                ShapeKind::Column => "列"@,
            }),
    {
        match self {
            ShapeKind::Rect => "矩形",
            ShapeKind::Ellipse => "椭圆",
            ShapeKind::Trapezoid => "梯形",
            ShapeKind::Column => "列",
        }
    }

    /// The membership rule of the kind, as a formula.
    pub fn math_description(self) -> (s: &'static str)
        ensures
            s@ == (match self {
                ShapeKind::Rect => "轴对齐矩形：x∈[x0,x1), y∈[y0,y1)"@,
                ShapeKind::Ellipse => "标准椭圆方程：(x-cx)²/rx² + (y-cy)²/ry² ≤ 1"@,
                ShapeKind::Trapezoid => "左右边界线性插值：t=(y-y_top)/h, x∈[lerp(top,bot,t))"@,
                ShapeKind::Column => "单像素宽垂直线段：x=固定, y∈[y_start,y_end)"@,
            }),
    {
        match self {
            ShapeKind::Rect => "轴对齐矩形：x∈[x0,x1), y∈[y0,y1)",
            ShapeKind::Ellipse => "标准椭圆方程：(x-cx)²/rx² + (y-cy)²/ry² ≤ 1",
            ShapeKind::Trapezoid => "左右边界线性插值：t=(y-y_top)/h, x∈[lerp(top,bot,t))",
            ShapeKind::Column => "单像素宽垂直线段：x=固定, y∈[y_start,y_end)",
        }
    }
}

/// Combinators available on every shape.
pub trait ShapeCombine: Shape + Sized {
    /// This shape together with `other`.
    fn union<B: Shape>(self, other: B) -> (u: Union<Self, B>)
        ensures
            u.a == self,
            u.b == other,
    {
        Union { a: self, b: other }
    }

    /// The part of this shape also in `other`.
    fn intersect<B: Shape>(self, other: B) -> (u: Intersect<Self, B>)
        ensures
            u.a == self,
            u.b == other,
    {
        Intersect { a: self, b: other }
    }

    /// The part of this shape not in `other`.
    fn subtract<B: Shape>(self, other: B) -> (u: Subtract<Self, B>)
        ensures
            u.a == self,
            u.b == other,
    {
        Subtract { a: self, b: other }
    }
}

impl<T: Shape + Sized> ShapeCombine for T {}

/// The part of box `bb` the fill functions visit in a `width` by `height`
/// map: `[x0, x1) x [y0, y1)` with the lower ends raised to 0 and the upper
/// ends lowered to the map size.
pub open spec fn fill_window(bb: BoundingBox, width: u32, height: u32) -> (i32, i32, i32, i32) {
    (max_i32(bb.x_min, 0), max_i32(bb.y_min, 0), min_i32(bb.x_max, width as i32), min_i32(bb.y_max, height as i32))
}

/// Cell `(x, y)` lies in the fill window of `shape` on `bm` and in the shape.
pub open spec fn fill_target<S: Shape>(shape: &S, bm: &BiomeMap, x: int, y: int) -> bool {
    let (x0, y0, x1, y1) = fill_window(shape.spec_bounding_box(), bm.width, bm.height);
    &&& x0 <= x < x1
    &&& y0 <= y < y1
    &&& shape.spec_contains(x as i32, y as i32)
}

/// On a map whose sides fit `i32`, the cells a fill visits in a shape are
/// exactly the shape's cells on the map.
proof fn lemma_fill_target_is_contains<S: Shape>(shape: &S, bm: &BiomeMap)
    requires
        shape.spec_valid(),
    ensures
        bm.width <= i32::MAX && bm.height <= i32::MAX ==> forall|x: int, y: int| #[trigger] bm.spec_in_bounds(x, y)
            ==> (fill_target(shape, bm, x, y) <==> shape.spec_contains(x as i32, y as i32)),
{
    if bm.width <= i32::MAX && bm.height <= i32::MAX {
        assert forall|x: int, y: int| #[trigger] bm.spec_in_bounds(x, y)
            implies (fill_target(shape, bm, x, y) <==> shape.spec_contains(x as i32, y as i32)) by {
            if shape.spec_contains(x as i32, y as i32) {
                shape.lemma_contained_in_box(x as i32, y as i32);
            }
        }
    }
}

/// Writes `biome` into every cell of the map that the shape contains within
/// its clipped bounding box; on a map whose sides fit `i32` that is every
/// cell of the shape on the map.
pub fn fill_biome<S: Shape>(shape: &S, bm: &mut BiomeMap, biome: BiomeId)
    requires
        shape.spec_valid(),
        old(bm).wf(),
    ensures
        final(bm).wf(),
        final(bm).width == old(bm).width,
        final(bm).height == old(bm).height,
        forall|x: int, y: int| old(bm).spec_in_bounds(x, y) ==> #[trigger] final(bm).cell(x, y) == (
            if fill_target(shape, old(bm), x, y) { biome } else { old(bm).cell(x, y) }),
        old(bm).width <= i32::MAX && old(bm).height <= i32::MAX ==> forall|x: int, y: int|
            old(bm).spec_in_bounds(x, y) ==> #[trigger] final(bm).cell(x, y) == (
            if shape.spec_contains(x as i32, y as i32) { biome } else { old(bm).cell(x, y) }),
{
    let ghost before = *bm;
    let ghost w0 = bm.width as int;
    let ghost h0 = bm.height as int;
    let bb = shape.bounding_box();
    let x0 = max_of(bb.x_min, 0);
    let y0 = max_of(bb.y_min, 0);
    let x1 = min_of(bb.x_max, bm.width as i32);
    let y1 = min_of(bb.y_max, bm.height as i32);
    let mut y = y0;
    while y < y1
        invariant
            bm.wf(),
            bm.width == w0,
            bm.height == h0,
            before.wf(),
            before.width == w0,
            before.height == h0,
            (x0, y0, x1, y1) == fill_window(shape.spec_bounding_box(), before.width, before.height),
            0 <= x0,
            0 <= y0 <= y,
            y <= y1 || y == y0,
            forall|cx: int, cy: int| before.spec_in_bounds(cx, cy) ==> #[trigger] bm.cell(cx, cy) == (
                if fill_target(shape, &before, cx, cy) && cy < y { biome } else { before.cell(cx, cy) }),
        decreases y1 - y,
    {
        let mut x = x0;
        while x < x1
            invariant
                bm.wf(),
                bm.width == w0,
                bm.height == h0,
                before.wf(),
                before.width == w0,
                before.height == h0,
                (x0, y0, x1, y1) == fill_window(shape.spec_bounding_box(), before.width, before.height),
                0 <= x0 <= x,
                0 <= y0 <= y < y1,
                x <= x1 || x == x0,
                forall|cx: int, cy: int| before.spec_in_bounds(cx, cy) ==> #[trigger] bm.cell(cx, cy) == (
                    if fill_target(shape, &before, cx, cy) && (cy < y || (cy == y && cx < x)) { biome } else { before.cell(cx, cy) }),
            decreases x1 - x,
        {
            if shape.contains(x, y) {
                let ghost prev = *bm;
                bm.set(x as u32, y as u32, biome);
                proof {
                    assert forall|cx: int, cy: int| before.spec_in_bounds(cx, cy) implies #[trigger] bm.cell(cx, cy) == (
                        if fill_target(shape, &before, cx, cy) && (cy < y || (cy == y && cx < x + 1)) { biome } else { before.cell(cx, cy) }) by {
                        lemma_cell_index_bounds(w0, h0, cx, cy);
                        assert(prev.cell(cx, cy) == (
                            if fill_target(shape, &before, cx, cy) && (cy < y || (cy == y && cx < x)) { biome } else { before.cell(cx, cy) }));
                        if prev.spec_in_bounds(x as int, y as int) {
                            lemma_cell_index_injective(w0, h0, cx, cy, x as int, y as int);
                            lemma_cell_index_bounds(w0, h0, x as int, y as int);
                            if cx == x && cy == y {
                                assert(fill_target(shape, &before, cx, cy));
                                assert(bm.cell(cx, cy) == biome);
                            } else {
                                assert(bm.cell(cx, cy) == prev.cell(cx, cy));
                            }
                        } else {
                            assert(bm.spec_data() == prev.spec_data());
                        }
                    }
                }
            }
            x = x + 1;
        }
        y = y + 1;
    }
    proof {
        lemma_fill_target_is_contains(shape, &before);
    }
}

/// A cell holding `old` before a conditional fill holds `new` after it: the
/// filter accepted `old` and the cell was painted, or it rejected `old` and
/// the cell kept its id.
pub open spec fn filtered_write<F: Fn(BiomeId) -> bool>(filter: F, old: BiomeId, new: BiomeId, biome: BiomeId) -> bool {
    ||| (new == biome && call_ensures(filter, (old,), true))
    ||| (new == old && call_ensures(filter, (old,), false))
}

/// Like [`fill_biome`], but a contained cell is painted only when `filter`
/// accepts the id it holds.
pub fn fill_biome_if<S: Shape, F: Fn(BiomeId) -> bool>(shape: &S, bm: &mut BiomeMap, biome: BiomeId, filter: F)
    requires
        shape.spec_valid(),
        old(bm).wf(),
        forall|b: BiomeId| call_requires(filter, (b,)),
    ensures
        final(bm).wf(),
        final(bm).width == old(bm).width,
        final(bm).height == old(bm).height,
        forall|x: int, y: int| old(bm).spec_in_bounds(x, y) ==> (
            if fill_target(shape, old(bm), x, y) {
                filtered_write(filter, old(bm).cell(x, y), #[trigger] final(bm).cell(x, y), biome)
            } else {
                final(bm).cell(x, y) == old(bm).cell(x, y)
            }),
        old(bm).width <= i32::MAX && old(bm).height <= i32::MAX ==> forall|x: int, y: int|
            #[trigger] old(bm).spec_in_bounds(x, y) ==> (if shape.spec_contains(x as i32, y as i32) {
                filtered_write(filter, old(bm).cell(x, y), final(bm).cell(x, y), biome)
            } else {
                final(bm).cell(x, y) == old(bm).cell(x, y)
            }),
{
    let ghost before = *bm;
    let ghost w0 = bm.width as int;
    let ghost h0 = bm.height as int;
    let bb = shape.bounding_box();
    let x0 = max_of(bb.x_min, 0);
    let y0 = max_of(bb.y_min, 0);
    let x1 = min_of(bb.x_max, bm.width as i32);
    let y1 = min_of(bb.y_max, bm.height as i32);
    let mut y = y0;
    while y < y1
        invariant
            bm.wf(),
            bm.width == w0,
            bm.height == h0,
            before.wf(),
            before.width == w0,
            before.height == h0,
            forall|b: BiomeId| call_requires(filter, (b,)),
            (x0, y0, x1, y1) == fill_window(shape.spec_bounding_box(), before.width, before.height),
            0 <= x0,
            0 <= y0 <= y,
            y <= y1 || y == y0,
            forall|cx: int, cy: int| before.spec_in_bounds(cx, cy) ==> (
                if fill_target(shape, &before, cx, cy) && cy < y {
                    filtered_write(filter, before.cell(cx, cy), #[trigger] bm.cell(cx, cy), biome)
                } else {
                    bm.cell(cx, cy) == before.cell(cx, cy)
                }),
        decreases y1 - y,
    {
        let mut x = x0;
        while x < x1
            invariant
                bm.wf(),
                bm.width == w0,
                bm.height == h0,
                before.wf(),
                before.width == w0,
                before.height == h0,
                forall|b: BiomeId| call_requires(filter, (b,)),
                (x0, y0, x1, y1) == fill_window(shape.spec_bounding_box(), before.width, before.height),
                0 <= x0 <= x,
                0 <= y0 <= y < y1,
                x <= x1 || x == x0,
                forall|cx: int, cy: int| before.spec_in_bounds(cx, cy) ==> (
                    if fill_target(shape, &before, cx, cy) && (cy < y || (cy == y && cx < x)) {
                        filtered_write(filter, before.cell(cx, cy), #[trigger] bm.cell(cx, cy), biome)
                    } else {
                        bm.cell(cx, cy) == before.cell(cx, cy)
                    }),
            decreases x1 - x,
        {
            if shape.contains(x, y) {
                let current = bm.get(x as u32, y as u32);
                let accept = filter(current);
                let ghost prev = *bm;
                if accept {
                    bm.set(x as u32, y as u32, biome);
                }
                proof {
                    assert forall|cx: int, cy: int| before.spec_in_bounds(cx, cy) implies (
                        if fill_target(shape, &before, cx, cy) && (cy < y || (cy == y && cx < x + 1)) {
                            filtered_write(filter, before.cell(cx, cy), #[trigger] bm.cell(cx, cy), biome)
                        } else {
                            bm.cell(cx, cy) == before.cell(cx, cy)
                        }) by {
                        lemma_cell_index_bounds(w0, h0, cx, cy);
                        if prev.spec_in_bounds(x as int, y as int) {
                            lemma_cell_index_injective(w0, h0, cx, cy, x as int, y as int);
                            lemma_cell_index_bounds(w0, h0, x as int, y as int);
                            if cx == x && cy == y {
                                assert(fill_target(shape, &before, cx, cy));
                                assert(prev.cell(cx, cy) == before.cell(cx, cy));
                                assert(current == before.cell(cx, cy));
                            } else {
                                assert(bm.cell(cx, cy) == prev.cell(cx, cy));
                            }
                        } else {
                            assert(bm.spec_data() == prev.spec_data());
                        }
                    }
                }
            }
            x = x + 1;
        }
        y = y + 1;
    }
    proof {
        lemma_fill_target_is_contains(shape, &before);
    }
}

/// `v` is reached from `start` by whole steps of `step`.
pub open spec fn on_grid(v: int, start: int, step: int) -> bool {
    v >= start && (v - start) % step == 0
}

/// The sampling step actually used: `step`, raised to at least 1.
pub open spec fn effective_step(step: i32) -> int {
    if step < 1 { 1 } else { step as int }
}

/// Cell `(x, y)` is one of the points [`shape_all_match`] inspects: on the
/// sampling grid of the clipped window and inside the shape.
pub open spec fn sample_point<S: Shape>(shape: &S, bm: &BiomeMap, step: i32, x: int, y: int) -> bool {
    let (x0, y0, x1, y1) = fill_window(shape.spec_bounding_box(), bm.width, bm.height);
    let s = effective_step(step);
    &&& on_grid(x, x0 as int, s) && x < x1
    &&& on_grid(y, y0 as int, s) && y < y1
    &&& shape.spec_contains(x as i32, y as i32)
}

/// Two grid points lie at least one step apart.
pub proof fn lemma_grid_gap(start: int, s: int, a: int, c: int)
    requires
        s > 0,
        on_grid(a, start, s),
        on_grid(c, start, s),
        a < c,
    ensures
        c >= a + s,
{
    vstd::arithmetic::div_mod::lemma_fundamental_div_mod(a - start, s);
    vstd::arithmetic::div_mod::lemma_fundamental_div_mod(c - start, s);
    let qa = (a - start) / s;
    let qc = (c - start) / s;
    assert(a - start == s * qa);
    assert(c - start == s * qc);
    assert(qa < qc) by (nonlinear_arith)
        requires a - start == s * qa, c - start == s * qc, a < c, s > 0;
    assert(s * qc >= s * qa + s) by (nonlinear_arith)
        requires qa < qc, s > 0;
}

/// One step further along the grid is still on the grid.
pub proof fn lemma_grid_next(start: int, s: int, a: int)
    requires
        s > 0,
        on_grid(a, start, s),
    ensures
        on_grid(a + s, start, s),
{
    vstd::arithmetic::div_mod::lemma_mod_add_multiples_vanish(a - start, s);
}

/// Whether `predicate` accepts the id of every sampled cell of the shape
/// (every `step`-th row and column of the clipped bounding box, `step`
/// raised to at least 1); stops at the first rejected cell.
pub fn shape_all_match<S: Shape, F: Fn(BiomeId) -> bool>(shape: &S, bm: &BiomeMap, step: i32, predicate: F) -> (r: bool)
    requires
        shape.spec_valid(),
        bm.wf(),
        forall|b: BiomeId| call_requires(predicate, (b,)),
    ensures
        r ==> forall|x: int, y: int| #[trigger] sample_point(shape, bm, step, x, y)
            ==> call_ensures(predicate, (bm.spec_get(x, y),), true),
        !r ==> exists|x: int, y: int| #[trigger] sample_point(shape, bm, step, x, y)
            && call_ensures(predicate, (bm.spec_get(x, y),), false),
{
    let bb = shape.bounding_box();
    let x0 = max_of(bb.x_min, 0);
    let y0 = max_of(bb.y_min, 0);
    let x1 = min_of(bb.x_max, bm.width as i32);
    let y1 = min_of(bb.y_max, bm.height as i32);
    let s: i64 = if step < 1 { 1 } else { step as i64 };
    let ghost win = (x0, y0, x1, y1);
    proof { vstd::arithmetic::div_mod::lemma_small_mod(0, s as nat); }
    let mut y: i64 = y0 as i64;
    while y < y1 as i64
        invariant
            win == fill_window(shape.spec_bounding_box(), bm.width, bm.height),
            win == (x0, y0, x1, y1),
            s == effective_step(step),
            1 <= s <= i32::MAX,
            0 <= x0,
            0 <= y0,
            on_grid(y as int, y0 as int, s as int),
            y <= y1 + s || y == y0,
            bm.wf(),
            forall|b: BiomeId| call_requires(predicate, (b,)),
            forall|cx: int, cy: int| #[trigger] sample_point(shape, bm, step, cx, cy) && cy < y
                ==> call_ensures(predicate, (bm.spec_get(cx, cy),), true),
        decreases y1 - y + s,
    {
        proof { vstd::arithmetic::div_mod::lemma_small_mod(0, s as nat); }
        let mut x: i64 = x0 as i64;
        while x < x1 as i64
            invariant
                win == fill_window(shape.spec_bounding_box(), bm.width, bm.height),
                win == (x0, y0, x1, y1),
                s == effective_step(step),
                1 <= s <= i32::MAX,
                0 <= x0,
                0 <= y0 <= y < y1,
                on_grid(y as int, y0 as int, s as int),
                on_grid(x as int, x0 as int, s as int),
                x <= x1 + s || x == x0,
                bm.wf(),
                forall|b: BiomeId| call_requires(predicate, (b,)),
                forall|cx: int, cy: int| #[trigger] sample_point(shape, bm, step, cx, cy) && (cy < y || (cy == y && cx < x))
                    ==> call_ensures(predicate, (bm.spec_get(cx, cy),), true),
            decreases x1 - x + s,
        {
            let xi = x as i32;
            let yi = y as i32;
            if shape.contains(xi, yi) {
                let ok = predicate(bm.get(xi as u32, yi as u32));
                if !ok {
                    assert(sample_point(shape, bm, step, x as int, y as int));
                    return false;
                }
            }
            proof {
                assert forall|cx: int, cy: int| #[trigger] sample_point(shape, bm, step, cx, cy) && (cy < y || (cy == y && cx < x + s))
                    implies call_ensures(predicate, (bm.spec_get(cx, cy),), true) by {
                    if cy == y && x < cx {
                        lemma_grid_gap(x0 as int, s as int, x as int, cx);
                    }
                }
                lemma_grid_next(x0 as int, s as int, x as int);
            }
            x = x + s;
        }
        proof {
            assert forall|cx: int, cy: int| #[trigger] sample_point(shape, bm, step, cx, cy) && cy < y + s
                implies call_ensures(predicate, (bm.spec_get(cx, cy),), true) by {
                if y < cy {
                    lemma_grid_gap(y0 as int, s as int, y as int, cy);
                }
            }
            lemma_grid_next(y0 as int, s as int, y as int);
        }
        y = y + s;
    }
    true
}

} // verus!
