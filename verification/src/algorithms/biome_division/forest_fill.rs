//! The forest-fill step of the biome division: deserts and crimson areas
//! spread into narrow unassigned gaps next to them, then every unassigned
//! cell of the surface and underground rows becomes forest.
//!
//! The map is scanned on one row (the middle of the filled rows). Each
//! maximal run of equal ids there is a segment. A desert or crimson
//! segment (except a desert lying over a true desert) next to an unassigned
//! segment narrower than the threshold spreads toward it: on every filled
//! row, starting from that row's own edge of the area, unassigned cells
//! outward are taken over until an assigned cell or the map border.

use vstd::prelude::*;

use crate::base::biome::{BiomeId, BiomeMap, BIOME_UNASSIGNED};
use crate::base::geometry::{fill_biome_if, fill_target, Rect};
use crate::base::world::{cell_index, lemma_cell_index_bounds, lemma_cell_index_injective};

verus! {

/// A maximal run `[start, end)` of equal ids on the scan row.
#[derive(Clone, Copy, Debug, PartialEq, Eq, Structural)]
pub struct Seg {
    pub biome: BiomeId,
    pub start: i32,
    pub end: i32,
}

/// Spreading of `fill_id` from column `edge_x` in direction `direction`
/// (`-1` left, `+1` right).
#[derive(Clone, Copy, Debug, PartialEq, Eq, Structural)]
pub struct ExpandTask {
    pub edge_x: i32,
    pub direction: i32,
    pub fill_id: BiomeId,
}

/// The id at `(x, y)` of a `width` by `height` grid `d` (unassigned
/// outside the grid).
pub open spec fn grid_get(d: Seq<BiomeId>, width: int, height: int, x: int, y: int) -> BiomeId {
    if 0 <= x < width && 0 <= y < height { d[cell_index(width, x, y)] } else { BIOME_UNASSIGNED }
}

/// The grid with `(x, y)` set to `b` (unchanged outside the grid).
pub open spec fn grid_set(d: Seq<BiomeId>, width: int, height: int, x: int, y: int, b: BiomeId) -> Seq<BiomeId> {
    if 0 <= x < width && 0 <= y < height { d.update(cell_index(width, x, y), b) } else { d }
}

/// First column from `x` on (below `width`) whose id on row `y` is not `b`.
pub open spec fn run_end(d: Seq<BiomeId>, width: int, height: int, y: int, b: BiomeId, x: int) -> int
    decreases width - x,
{
    if x < width && grid_get(d, width, height, x, y) == b { run_end(d, width, height, y, b, x + 1) } else { x }
}

/// A run ends at or after its start, inside the row, and after a start
/// column holding its id.
pub proof fn lemma_run_end_bounds(d: Seq<BiomeId>, width: int, height: int, y: int, b: BiomeId, x: int)
    ensures
        run_end(d, width, height, y, b, x) >= x,
        x < width ==> run_end(d, width, height, y, b, x) <= width,
        x < width && grid_get(d, width, height, x, y) == b ==> run_end(d, width, height, y, b, x) > x,
    decreases width - x,
{
    if x < width && grid_get(d, width, height, x, y) == b {
        lemma_run_end_bounds(d, width, height, y, b, x + 1);
    }
}

/// The segments of row `y` from column `sx` on, left to right.
pub open spec fn segments_from(d: Seq<BiomeId>, width: int, height: int, y: int, sx: int) -> Seq<Seg>
    decreases width - sx,
{
    if sx >= width {
        Seq::empty()
    } else {
        let b = grid_get(d, width, height, sx, y);
        let e = run_end(d, width, height, y, b, sx);
        proof { lemma_run_end_bounds(d, width, height, y, b, sx); }
        seq![Seg { biome: b, start: sx as i32, end: e as i32 }] + segments_from(d, width, height, y, e)
    }
}

/// The midpoint of `[start, end)`, halved toward zero.
pub open spec fn midpoint(start: int, end: int) -> int {
    let s = start + end;
    if s >= 0 { s / 2 } else { -((-s) / 2) }
}

/// The midpoint of a segment lies in one of the true-desert ranges
/// `[lo, hi]`.
pub open spec fn over_true_desert(ranges: Seq<(i32, i32)>, start: int, end: int) -> bool {
    exists|i: int| 0 <= i < ranges.len() && (#[trigger] ranges[i]).0 <= midpoint(start, end) <= ranges[i].1
}

/// Segment `i` is unassigned and narrower than `threshold`.
pub open spec fn narrow_gap(segs: Seq<Seg>, i: int, threshold: int) -> bool {
    &&& 0 <= i < segs.len()
    &&& segs[i].biome == BIOME_UNASSIGNED
    &&& segs[i].end - segs[i].start < threshold
}

/// Segment `i` may spread: it is desert or crimson, and not a desert over
/// a true desert.
pub open spec fn may_spread(segs: Seq<Seg>, i: int, desert: BiomeId, crimson: BiomeId, ranges: Seq<(i32, i32)>) -> bool {
    let s = segs[i];
    &&& (s.biome == desert || s.biome == crimson)
    &&& !(s.biome == desert && over_true_desert(ranges, s.start as int, s.end as int))
}

/// The spreading tasks of segment `i`: toward a narrow unassigned left
/// neighbour, then toward a narrow unassigned right neighbour.
pub open spec fn segment_tasks(segs: Seq<Seg>, i: int, desert: BiomeId, crimson: BiomeId, threshold: int,
    ranges: Seq<(i32, i32)>) -> Seq<ExpandTask>
{
    let s = segs[i];
    if !may_spread(segs, i, desert, crimson, ranges) {
        Seq::empty()
    } else {
        let left = if narrow_gap(segs, i - 1, threshold) {
            seq![ExpandTask { edge_x: s.start, direction: -1i32, fill_id: s.biome }]
        } else {
            Seq::empty()
        };
        let right = if narrow_gap(segs, i + 1, threshold) {
            seq![ExpandTask { edge_x: s.end, direction: 1i32, fill_id: s.biome }]
        } else {
            Seq::empty()
        };
        left + right
    }
}

/// The tasks of the first `n` segments, in order.
pub open spec fn tasks_upto(segs: Seq<Seg>, n: int, desert: BiomeId, crimson: BiomeId, threshold: int,
    ranges: Seq<(i32, i32)>) -> Seq<ExpandTask>
    decreases n,
{
    if n <= 0 {
        Seq::empty()
    } else {
        tasks_upto(segs, n - 1, desert, crimson, threshold, ranges) + segment_tasks(segs, n - 1, desert, crimson, threshold, ranges)
    }
}

/// Segment `i` is desert or crimson and, when desert, its midpoint lies in
/// none of the true-desert ranges `[lo, hi]`.
pub open spec fn spreading_segment(segs: Seq<Seg>, i: int, desert: BiomeId, crimson: BiomeId, ranges: Seq<(i32, i32)>) -> bool {
    &&& 0 <= i < segs.len()
    &&& (segs[i].biome == desert || segs[i].biome == crimson)
    &&& !(segs[i].biome == desert && exists|k: int| 0 <= k < ranges.len()
        && (#[trigger] ranges[k]).0 <= midpoint(segs[i].start as int, segs[i].end as int) <= ranges[k].1)
}

/// Segment `j` is an unassigned run narrower than `threshold`.
pub open spec fn thin_gap(segs: Seq<Seg>, j: int, threshold: int) -> bool {
    0 <= j < segs.len() && segs[j].biome == 0 && segs[j].end - segs[j].start < threshold
}

/// Task `t` spreads segment `i` into a thin gap beside it: leftward from
/// its start into its left neighbour, or rightward from its end into its
/// right neighbour, with the segment's id.
pub open spec fn spreads_beside(segs: Seq<Seg>, i: int, threshold: int, t: ExpandTask) -> bool {
    &&& t.fill_id == segs[i].biome
    &&& ((t.direction == -1 && t.edge_x == segs[i].start && thin_gap(segs, i - 1, threshold))
        || (t.direction == 1 && t.edge_x == segs[i].end && thin_gap(segs, i + 1, threshold)))
}

proof fn lemma_tasks_upto_step(segs: Seq<Seg>, n: int, desert: BiomeId, crimson: BiomeId, threshold: int,
    ranges: Seq<(i32, i32)>)
    requires
        0 < n <= segs.len(),
    ensures
        forall|t: ExpandTask| #[trigger] tasks_upto(segs, n, desert, crimson, threshold, ranges).contains(t) <==>
            (tasks_upto(segs, n - 1, desert, crimson, threshold, ranges).contains(t)
            || segment_tasks(segs, n - 1, desert, crimson, threshold, ranges).contains(t)),
{
    let prev = tasks_upto(segs, n - 1, desert, crimson, threshold, ranges);
    let last = segment_tasks(segs, n - 1, desert, crimson, threshold, ranges);
    let all = tasks_upto(segs, n, desert, crimson, threshold, ranges);
    assert(all == prev + last);
    assert forall|t: ExpandTask| #[trigger] all.contains(t) <==> (prev.contains(t) || last.contains(t)) by {
        if prev.contains(t) {
            let k = choose|k: int| 0 <= k < prev.len() && prev[k] == t;
            assert(all[k] == t);
        }
        if last.contains(t) {
            let k = choose|k: int| 0 <= k < last.len() && last[k] == t;
            assert(all[prev.len() + k] == t);
        }
        if all.contains(t) {
            let k = choose|k: int| 0 <= k < all.len() && all[k] == t;
            if k < prev.len() {
                assert(prev[k] == t);
            } else {
                assert(last[k - prev.len()] == t);
            }
        }
    }
}

/// The tasks one segment contributes: exactly its spreads into thin gaps
/// beside it, when it spreads at all.
proof fn lemma_segment_tasks_are_spreads(segs: Seq<Seg>, i: int, desert: BiomeId, crimson: BiomeId, threshold: int,
    ranges: Seq<(i32, i32)>)
    requires
        0 <= i < segs.len(),
    ensures
        forall|t: ExpandTask| #[trigger] segment_tasks(segs, i, desert, crimson, threshold, ranges).contains(t) <==>
            (spreading_segment(segs, i, desert, crimson, ranges) && spreads_beside(segs, i, threshold, t)),
{
    let s = segs[i];
    let st = segment_tasks(segs, i, desert, crimson, threshold, ranges);
    assert(may_spread(segs, i, desert, crimson, ranges) == spreading_segment(segs, i, desert, crimson, ranges));
    assert(narrow_gap(segs, i - 1, threshold) == thin_gap(segs, i - 1, threshold));
    assert(narrow_gap(segs, i + 1, threshold) == thin_gap(segs, i + 1, threshold));
    let lt = ExpandTask { edge_x: s.start, direction: -1i32, fill_id: s.biome };
    let rt = ExpandTask { edge_x: s.end, direction: 1i32, fill_id: s.biome };
    if may_spread(segs, i, desert, crimson, ranges) {
        let left = if narrow_gap(segs, i - 1, threshold) { seq![lt] } else { Seq::empty() };
        let right = if narrow_gap(segs, i + 1, threshold) { seq![rt] } else { Seq::empty() };
        assert(st == left + right);
        assert forall|t: ExpandTask| #[trigger] st.contains(t) <==> spreads_beside(segs, i, threshold, t) by {
            if st.contains(t) {
                let k = choose|k: int| 0 <= k < st.len() && st[k] == t;
                if k < left.len() {
                    assert(left[k] == t);
                } else {
                    assert(right[k - left.len()] == t);
                }
            }
            if spreads_beside(segs, i, threshold, t) {
                if t.direction == -1 && t.edge_x == s.start && thin_gap(segs, i - 1, threshold) {
                    assert(t == lt);
                    assert(st[0] == t);
                } else {
                    assert(t == rt);
                    assert(st[left.len() as int] == t);
                }
            }
        }
    } else {
        assert(st.len() == 0);
    }
}

/// Which spreading tasks are planned for the first `n` segments: a task is
/// planned exactly when some segment among them is desert or crimson (not a
/// desert whose midpoint lies in a true-desert range) and the task spreads
/// its id leftward from its start into an unassigned left neighbour
/// narrower than `threshold`, or rightward from its end into such a right
/// neighbour.
pub proof fn lemma_planned_spreads(segs: Seq<Seg>, n: int, desert: BiomeId, crimson: BiomeId, threshold: int,
    ranges: Seq<(i32, i32)>)
    requires
        0 <= n <= segs.len(),
    ensures
        forall|t: ExpandTask| #[trigger] tasks_upto(segs, n, desert, crimson, threshold, ranges).contains(t) <==>
            exists|i: int| 0 <= i < n && spreading_segment(segs, i, desert, crimson, ranges)
                && #[trigger] spreads_beside(segs, i, threshold, t),
    decreases n,
{
    if n > 0 {
        lemma_planned_spreads(segs, n - 1, desert, crimson, threshold, ranges);
        lemma_tasks_upto_step(segs, n, desert, crimson, threshold, ranges);
        lemma_segment_tasks_are_spreads(segs, n - 1, desert, crimson, threshold, ranges);
        assert forall|t: ExpandTask| #[trigger] tasks_upto(segs, n, desert, crimson, threshold, ranges).contains(t) <==>
            exists|i: int| 0 <= i < n && spreading_segment(segs, i, desert, crimson, ranges)
                && #[trigger] spreads_beside(segs, i, threshold, t) by {
            if exists|i: int| 0 <= i < n && spreading_segment(segs, i, desert, crimson, ranges)
                && #[trigger] spreads_beside(segs, i, threshold, t) {
                let i = choose|i: int| 0 <= i < n && spreading_segment(segs, i, desert, crimson, ranges)
                    && #[trigger] spreads_beside(segs, i, threshold, t);
                if i < n - 1 {
                    assert(tasks_upto(segs, n - 1, desert, crimson, threshold, ranges).contains(t));
                }
            }
        }
    } else {
        assert forall|t: ExpandTask| !(#[trigger] tasks_upto(segs, n, desert, crimson, threshold, ranges).contains(t)) by {}
    }
}

/// A task steps one column left or right.
pub open spec fn unit_step(t: ExpandTask) -> bool {
    t.direction == 1 || t.direction == -1
}

/// The column where spreading starts on row `y`: from `x`, step inward
/// (against the task direction) until a cell holding the fill id or the
/// edge of the row.
pub open spec fn inward_edge(d: Seq<BiomeId>, width: int, height: int, y: int, t: ExpandTask, x: int) -> int
    decreases (if t.direction < 0 { width - x } else { x + 1 }),
{
    if x < 0 || x >= width || grid_get(d, width, height, x, y) == t.fill_id || !unit_step(t) {
        x
    } else {
        inward_edge(d, width, height, y, t, x - t.direction)
    }
}

/// The grid after spreading `t.fill_id` outward from column `x` on row `y`
/// over unassigned cells, up to an assigned cell or the edge of the row.
pub open spec fn spread_from(d: Seq<BiomeId>, width: int, height: int, y: int, t: ExpandTask, x: int) -> Seq<BiomeId>
    decreases (if t.direction > 0 { width - x } else { x + 1 }),
{
    let nx = x + t.direction;
    if !unit_step(t) || nx < 0 || nx >= width || grid_get(d, width, height, nx, y) != BIOME_UNASSIGNED {
        d
    } else {
        spread_from(grid_set(d, width, height, nx, y, t.fill_id), width, height, y, t, nx)
    }
}

/// The grid after one task on row `y`.
pub open spec fn spread_row(d: Seq<BiomeId>, width: int, height: int, y: int, t: ExpandTask) -> Seq<BiomeId> {
    spread_from(d, width, height, y, t, inward_edge(d, width, height, y, t, t.edge_x as int))
}

/// The grid after one task on rows `[top, y)`, top row first.
pub open spec fn spread_rows(d: Seq<BiomeId>, width: int, height: int, top: int, y: int, t: ExpandTask) -> Seq<BiomeId>
    decreases y - top,
{
    if y <= top { d } else { spread_row(spread_rows(d, width, height, top, y - 1, t), width, height, y - 1, t) }
}

/// The grid after the first `n` tasks, each on rows `[top, bottom)`.
pub open spec fn apply_tasks(d: Seq<BiomeId>, width: int, height: int, top: int, bottom: int, tasks: Seq<ExpandTask>,
    n: int) -> Seq<BiomeId>
    decreases n,
{
    if n <= 0 {
        d
    } else {
        spread_rows(apply_tasks(d, width, height, top, bottom, tasks, n - 1), width, height, top, bottom, tasks[n - 1])
    }
}

/// The spreading tasks planned on the middle row of `[top, bottom)`.
pub open spec fn planned_tasks(d: Seq<BiomeId>, width: int, height: int, top: int, bottom: int, desert: BiomeId,
    crimson: BiomeId, threshold: int, ranges: Seq<(i32, i32)>) -> Seq<ExpandTask>
{
    let segs = segments_from(d, width, height, (top + bottom) / 2, 0);
    tasks_upto(segs, segs.len() as int, desert, crimson, threshold, ranges)
}

/// The grid after all planned tasks.
pub open spec fn spread_all(d: Seq<BiomeId>, width: int, height: int, top: int, bottom: int, desert: BiomeId,
    crimson: BiomeId, threshold: int, ranges: Seq<(i32, i32)>) -> Seq<BiomeId>
{
    let tasks = planned_tasks(d, width, height, top, bottom, desert, crimson, threshold, ranges);
    apply_tasks(d, width, height, top, bottom, tasks, tasks.len() as int)
}

/// `r` agrees with `d` except on cells of `d` that were unassigned and now
/// hold `a` or `b`.
pub open spec fn fills_unassigned(d: Seq<BiomeId>, r: Seq<BiomeId>, a: BiomeId, b: BiomeId) -> bool {
    &&& r.len() == d.len()
    &&& forall|i: int| 0 <= i < d.len() ==> #[trigger] r[i] == d[i] || (d[i] == BIOME_UNASSIGNED && (r[i] == a || r[i] == b))
}

/// Filling unassigned cells twice is filling them once.
pub proof fn lemma_fills_trans(d: Seq<BiomeId>, r: Seq<BiomeId>, s: Seq<BiomeId>, a: BiomeId, b: BiomeId)
    requires
        fills_unassigned(d, r, a, b),
        fills_unassigned(r, s, a, b),
    ensures
        fills_unassigned(d, s, a, b),
{
    assert forall|i: int| 0 <= i < d.len() implies #[trigger] s[i] == d[i] || (d[i] == BIOME_UNASSIGNED && (s[i] == a
        || s[i] == b)) by {
        assert(r[i] == d[i] || (d[i] == BIOME_UNASSIGNED && (r[i] == a || r[i] == b)));
        assert(s[i] == r[i] || (r[i] == BIOME_UNASSIGNED && (s[i] == a || s[i] == b)));
    }
}

/// Spreading on one row only paints unassigned cells, with the fill id.
pub proof fn lemma_spread_from_fills(d: Seq<BiomeId>, width: int, height: int, y: int, t: ExpandTask, x: int,
    b: BiomeId)
    requires
        width >= 0,
        height >= 0,
        d.len() == width * height,
    ensures
        fills_unassigned(d, spread_from(d, width, height, y, t, x), t.fill_id, b),
    decreases (if t.direction > 0 { width - x } else { x + 1 }),
{
    let nx = x + t.direction;
    if !unit_step(t) || nx < 0 || nx >= width || grid_get(d, width, height, nx, y) != BIOME_UNASSIGNED {
    } else {
        let d2 = grid_set(d, width, height, nx, y, t.fill_id);
        if 0 <= y < height {
            lemma_cell_index_bounds(width, height, nx, y);
        }
        assert(fills_unassigned(d, d2, t.fill_id, b)) by {
            assert forall|i: int| 0 <= i < d.len() implies #[trigger] d2[i] == d[i] || (d[i] == BIOME_UNASSIGNED
                && (d2[i] == t.fill_id || d2[i] == b)) by {
                if 0 <= y < height && i == cell_index(width, nx, y) {
                } else {
                }
            }
        }
        lemma_spread_from_fills(d2, width, height, y, t, nx, b);
        lemma_fills_trans(d, d2, spread_from(d2, width, height, y, t, nx), t.fill_id, b);
    }
}

/// One task on rows `[top, y)` only paints unassigned cells, with its
/// fill id.
pub proof fn lemma_spread_rows_fills(d: Seq<BiomeId>, width: int, height: int, top: int, y: int, t: ExpandTask,
    b: BiomeId)
    requires
        width >= 0,
        height >= 0,
        d.len() == width * height,
    ensures
        fills_unassigned(d, spread_rows(d, width, height, top, y, t), t.fill_id, b),
    decreases y - top,
{
    if y > top {
        let r = spread_rows(d, width, height, top, y - 1, t);
        lemma_spread_rows_fills(d, width, height, top, y - 1, t, b);
        lemma_spread_from_fills(r, width, height, y - 1, t, inward_edge(r, width, height, y - 1, t, t.edge_x as int), b);
        lemma_fills_trans(d, r, spread_row(r, width, height, y - 1, t), t.fill_id, b);
    } else {
        assert(fills_unassigned(d, d, t.fill_id, b));
    }
}

/// Tasks whose fill ids are `a` or `b` only paint unassigned cells, with
/// `a` or `b`.
pub proof fn lemma_apply_tasks_fills(d: Seq<BiomeId>, width: int, height: int, top: int, bottom: int,
    tasks: Seq<ExpandTask>, n: int, a: BiomeId, b: BiomeId)
    requires
        width >= 0,
        height >= 0,
        d.len() == width * height,
        n <= tasks.len(),
        forall|k: int| 0 <= k < tasks.len() ==> (#[trigger] tasks[k]).fill_id == a || tasks[k].fill_id == b,
    ensures
        fills_unassigned(d, apply_tasks(d, width, height, top, bottom, tasks, n), a, b),
    decreases n,
{
    if n > 0 {
        let r = apply_tasks(d, width, height, top, bottom, tasks, n - 1);
        lemma_apply_tasks_fills(d, width, height, top, bottom, tasks, n - 1, a, b);
        let t = tasks[n - 1];
        if t.fill_id == a {
            lemma_spread_rows_fills(r, width, height, top, bottom, t, b);
        } else {
            lemma_spread_rows_fills(r, width, height, top, bottom, t, a);
            assert forall|i: int| 0 <= i < r.len() implies #[trigger] spread_rows(r, width, height, top, bottom, t)[i]
                == r[i] || (r[i] == BIOME_UNASSIGNED && (spread_rows(r, width, height, top, bottom, t)[i] == a
                || spread_rows(r, width, height, top, bottom, t)[i] == b)) by {
                assert(spread_rows(r, width, height, top, bottom, t)[i] == r[i] || (r[i] == BIOME_UNASSIGNED
                    && (spread_rows(r, width, height, top, bottom, t)[i] == b || spread_rows(r, width, height, top,
                    bottom, t)[i] == a)));
            }
        }
        lemma_fills_trans(d, r, apply_tasks(d, width, height, top, bottom, tasks, n), a, b);
    } else {
        assert(fills_unassigned(d, d, a, b));
    }
}

/// Every planned task steps one column and fills desert or crimson.
pub proof fn lemma_tasks_upto_fill_ids(segs: Seq<Seg>, n: int, desert: BiomeId, crimson: BiomeId, threshold: int,
    ranges: Seq<(i32, i32)>)
    requires
        n <= segs.len(),
    ensures
        forall|k: int| 0 <= k < tasks_upto(segs, n, desert, crimson, threshold, ranges).len() ==> {
            let t = #[trigger] tasks_upto(segs, n, desert, crimson, threshold, ranges)[k];
            unit_step(t) && (t.fill_id == desert || t.fill_id == crimson)
        },
    decreases n,
{
    if n > 0 {
        lemma_tasks_upto_fill_ids(segs, n - 1, desert, crimson, threshold, ranges);
        let prev = tasks_upto(segs, n - 1, desert, crimson, threshold, ranges);
        let own = segment_tasks(segs, n - 1, desert, crimson, threshold, ranges);
        assert forall|k: int| 0 <= k < (prev + own).len() implies {
            let t = #[trigger] (prev + own)[k];
            unit_step(t) && (t.fill_id == desert || t.fill_id == crimson)
        } by {
            if k < prev.len() {
                assert((prev + own)[k] == prev[k]);
            } else {
                assert((prev + own)[k] == own[k - prev.len()]);
            }
        }
    }
}

/// The segments of row `y` of the map, left to right.
fn scan_segments(bm: &BiomeMap, y: u32) -> (segs: Vec<Seg>)
    requires
        bm.wf(),
        bm.width <= i32::MAX,
    ensures
        segs@ == segments_from(bm.spec_data(), bm.width as int, bm.height as int, y as int, 0),
{
    let ghost d = bm.spec_data();
    let ghost wi = bm.width as int;
    let ghost hi = bm.height as int;
    let w = bm.width as i32;
    let mut segs: Vec<Seg> = Vec::new();
    let mut sx: i32 = 0;
    while sx < w
        invariant
            bm.wf(),
            d == bm.spec_data(),
            wi == bm.width,
            hi == bm.height,
            w == wi,
            0 <= sx <= w,
            segs@ + segments_from(d, wi, hi, y as int, sx as int) == segments_from(d, wi, hi, y as int, 0),
        decreases w - sx,
    {
        let bid = bm.get(sx as u32, y);
        let start = sx;
        while sx < w && bm.get(sx as u32, y) == bid
            invariant
                bm.wf(),
                d == bm.spec_data(),
                wi == bm.width,
                hi == bm.height,
                w == wi,
                0 <= start <= sx <= w,
                run_end(d, wi, hi, y as int, bid, start as int) == run_end(d, wi, hi, y as int, bid, sx as int),
            decreases w - sx,
        {
            sx = sx + 1;
        }
        proof {
            lemma_run_end_bounds(d, wi, hi, y as int, bid, start as int);
        }
        let ghost rest = segments_from(d, wi, hi, y as int, sx as int);
        let ghost seg = Seg { biome: bid, start, end: sx };
        assert(segments_from(d, wi, hi, y as int, start as int) == seq![seg] + rest);
        let ghost before = segs@;
        segs.push(Seg { biome: bid, start, end: sx });
        assert(segs@ + rest == before + (seq![seg] + rest));
    }
    segs
}

/// Whether the midpoint of `[start, end)` lies in one of the ranges.
fn in_true_desert(ranges: &Vec<(i32, i32)>, start: i32, end: i32) -> (r: bool)
    ensures
        r == over_true_desert(ranges@, start as int, end as int),
{
    let sum: i64 = start as i64 + end as i64;
    let mid: i64 = if sum >= 0 { sum / 2 } else { -((-sum) / 2) };
    assert(mid == midpoint(start as int, end as int));
    let mut k: usize = 0;
    while k < ranges.len()
        invariant
            k <= ranges.len(),
            mid == midpoint(start as int, end as int),
            forall|j: int| 0 <= j < k ==> !((#[trigger] ranges@[j]).0 <= mid <= ranges@[j].1),
        decreases ranges.len() - k,
    {
        let (lo, hi) = ranges[k];
        if lo as i64 <= mid && mid <= hi as i64 {
            assert(ranges@[k as int].0 <= midpoint(start as int, end as int) <= ranges@[k as int].1);
            return true;
        }
        k = k + 1;
    }
    false
}

/// Whether `s` is unassigned and narrower than `threshold`.
fn is_narrow_gap(s: Seg, threshold: i32) -> (r: bool)
    ensures
        r == (s.biome == BIOME_UNASSIGNED && s.end - s.start < threshold),
{
    s.biome == BIOME_UNASSIGNED && (s.end as i64) - (s.start as i64) < threshold as i64
}

/// The spreading tasks of all segments, in segment order.
fn plan_tasks(segs: &Vec<Seg>, desert: BiomeId, crimson: BiomeId, threshold: i32, ranges: &Vec<(i32, i32)>)
    -> (tasks: Vec<ExpandTask>)
    ensures
        tasks@ == tasks_upto(segs@, segs.len() as int, desert, crimson, threshold as int, ranges@),
        forall|t: ExpandTask| #[trigger] tasks@.contains(t) <==> exists|i: int| 0 <= i < segs.len()
            && spreading_segment(segs@, i, desert, crimson, ranges@) && #[trigger] spreads_beside(segs@, i, threshold as int, t),
{
    proof {
        lemma_planned_spreads(segs@, segs.len() as int, desert, crimson, threshold as int, ranges@);
    }
    let mut tasks: Vec<ExpandTask> = Vec::new();
    let n = segs.len();
    let mut i: usize = 0;
    while i < n
        invariant
            i <= n,
            n == segs.len(),
            tasks@ == tasks_upto(segs@, i as int, desert, crimson, threshold as int, ranges@),
        decreases n - i,
    {
        let s = segs[i];
        let ghost before = tasks@;
        let spreads = (s.biome == desert || s.biome == crimson) && !(s.biome == desert && in_true_desert(ranges,
            s.start, s.end));
        assert(spreads == may_spread(segs@, i as int, desert, crimson, ranges@));
        if spreads {
            let ghost mid = tasks@;
            if i >= 1 && is_narrow_gap(segs[i - 1], threshold) {
                tasks.push(ExpandTask { edge_x: s.start, direction: -1, fill_id: s.biome });
            }
            assert(tasks@ == mid + (if narrow_gap(segs@, i - 1, threshold as int) {
                seq![ExpandTask { edge_x: s.start, direction: -1i32, fill_id: s.biome }]
            } else {
                Seq::<ExpandTask>::empty()
            }));
            let ghost mid2 = tasks@;
            if i + 1 < n && is_narrow_gap(segs[i + 1], threshold) {
                tasks.push(ExpandTask { edge_x: s.end, direction: 1, fill_id: s.biome });
            }
            assert(tasks@ == mid2 + (if narrow_gap(segs@, i + 1, threshold as int) {
                seq![ExpandTask { edge_x: s.end, direction: 1i32, fill_id: s.biome }]
            } else {
                Seq::<ExpandTask>::empty()
            }));
        }
        assert(tasks@ == before + segment_tasks(segs@, i as int, desert, crimson, threshold as int, ranges@));
        i = i + 1;
    }
    tasks
}

/// Runs one task on row `y` of the map.
fn spread_task_row(bm: &mut BiomeMap, y: u32, t: ExpandTask)
    requires
        old(bm).wf(),
        old(bm).width <= i32::MAX,
        unit_step(t),
    ensures
        final(bm).wf(),
        final(bm).width == old(bm).width,
        final(bm).height == old(bm).height,
        final(bm).spec_data() == spread_row(old(bm).spec_data(), old(bm).width as int, old(bm).height as int, y as int, t),
{
    let ghost d = bm.spec_data();
    let ghost wi = bm.width as int;
    let ghost hi = bm.height as int;
    let w = bm.width as i64;
    let dir = t.direction as i64;
    let mut e: i64 = t.edge_x as i64;
    while 0 <= e && e < w && bm.get(e as u32, y) != t.fill_id
        invariant
            bm.wf(),
            d == bm.spec_data(),
            wi == bm.width,
            hi == bm.height,
            w == wi,
            dir == t.direction,
            unit_step(t),
            e == t.edge_x || -1 <= e <= w,
            inward_edge(d, wi, hi, y as int, t, e as int) == inward_edge(d, wi, hi, y as int, t, t.edge_x as int),
        decreases (if dir < 0 { w - e } else { e + 1 }),
    {
        e = e - dir;
    }
    let ghost target = spread_row(d, wi, hi, y as int, t);
    let mut x: i64 = e;
    loop
        invariant
            bm.wf(),
            wi == bm.width,
            hi == bm.height,
            w == wi,
            w <= i32::MAX,
            dir == t.direction,
            unit_step(t),
            i32::MIN - 1 <= x <= i32::MAX + 1,
            spread_from(bm.spec_data(), wi, hi, y as int, t, x as int) == target,
        ensures
            bm.wf(),
            wi == bm.width,
            hi == bm.height,
            bm.spec_data() == target,
        decreases (if dir > 0 { w - x } else { x + 1 }),
    {
        let nx = x + dir;
        if nx < 0 || nx >= w {
            break;
        }
        if bm.get(nx as u32, y) != BIOME_UNASSIGNED {
            break;
        }
        bm.set(nx as u32, y, t.fill_id);
        x = nx;
    }
}

/// The forest-fill step on rows `[layer_top, layer_bottom)` of the map
/// (the surface and underground layers).
///
/// Segments are read on row `(layer_top + layer_bottom) / 2`. Each desert
/// or crimson segment whose unassigned neighbour is narrower than
/// `threshold` spreads toward it on every row of the band; a desert segment
/// whose midpoint falls in one of `true_desert_ranges` (`[lo, hi]`) does
/// not spread. Afterwards every unassigned cell of the band becomes
/// `forest_id`. Cells that were assigned before are never changed.
pub fn execute(
    bm: &mut BiomeMap,
    forest_id: BiomeId,
    desert_id: BiomeId,
    crimson_id: BiomeId,
    layer_top: u32,
    layer_bottom: u32,
    threshold: i32,
    true_desert_ranges: &Vec<(i32, i32)>,
)
    requires
        old(bm).wf(),
        old(bm).width <= i32::MAX,
        old(bm).height <= i32::MAX,
        layer_top <= i32::MAX,
        layer_bottom <= i32::MAX,
    ensures
        final(bm).wf(),
        final(bm).width == old(bm).width,
        final(bm).height == old(bm).height,
        forall|x: int, y: int| #![trigger final(bm).cell(x, y)] old(bm).spec_in_bounds(x, y) ==> {
            let mid = spread_all(old(bm).spec_data(), old(bm).width as int, old(bm).height as int, layer_top as int,
                layer_bottom as int, desert_id, crimson_id, threshold as int, true_desert_ranges@)[cell_index(
                old(bm).width as int, x, y)];
            final(bm).cell(x, y) == if in_band(y, layer_top as int, layer_bottom as int) && mid == BIOME_UNASSIGNED {
                forest_id
            } else {
                mid
            }
        },
        forall|x: int, y: int| #![trigger final(bm).cell(x, y)] old(bm).spec_in_bounds(x, y) ==> final(bm).cell(x, y)
            == old(bm).cell(x, y) || (old(bm).cell(x, y) == BIOME_UNASSIGNED && (final(bm).cell(x, y) == forest_id
            || final(bm).cell(x, y) == desert_id || final(bm).cell(x, y) == crimson_id)),
        forall|x: int, y: int| #![trigger final(bm).cell(x, y)] old(bm).spec_in_bounds(x, y) && in_band(y,
            layer_top as int, layer_bottom as int) && forest_id != BIOME_UNASSIGNED ==> final(bm).cell(x, y)
            != BIOME_UNASSIGNED,
{
    let ghost d0 = bm.spec_data();
    let ghost wi = bm.width as int;
    let ghost hi = bm.height as int;
    let scan_y = (layer_top + layer_bottom) / 2;
    let segs = scan_segments(bm, scan_y);
    let tasks = plan_tasks(&segs, desert_id, crimson_id, threshold, true_desert_ranges);
    proof {
        lemma_tasks_upto_fill_ids(segs@, segs.len() as int, desert_id, crimson_id, threshold as int,
            true_desert_ranges@);
    }
    assert(tasks@ == planned_tasks(d0, wi, hi, layer_top as int, layer_bottom as int, desert_id, crimson_id,
        threshold as int, true_desert_ranges@));
    let n = tasks.len();
    let mut k: usize = 0;
    while k < n
        invariant
            bm.wf(),
            wi == bm.width,
            hi == bm.height,
            wi <= i32::MAX,
            k <= n,
            n == tasks.len(),
            forall|j: int| 0 <= j < tasks.len() ==> unit_step(#[trigger] tasks@[j]),
            bm.spec_data() == apply_tasks(d0, wi, hi, layer_top as int, layer_bottom as int, tasks@, k as int),
        decreases n - k,
    {
        let t = tasks[k];
        let ghost base = bm.spec_data();
        let mut y = layer_top;
        while y < layer_bottom
            invariant
                bm.wf(),
                wi == bm.width,
                hi == bm.height,
                wi <= i32::MAX,
                unit_step(t),
                layer_top <= y,
                y <= layer_bottom || y == layer_top,
                bm.spec_data() == spread_rows(base, wi, hi, layer_top as int, y as int, t),
            decreases layer_bottom - y,
        {
            spread_task_row(bm, y, t);
            y = y + 1;
        }
        assert(bm.spec_data() == spread_rows(base, wi, hi, layer_top as int, layer_bottom as int, t));
        k = k + 1;
    }
    let ghost mid = *bm;
    proof {
        lemma_apply_tasks_fills(d0, wi, hi, layer_top as int, layer_bottom as int, tasks@, n as int, desert_id,
            crimson_id);
    }
    let w = bm.width as i32;
    let band = Rect::new(0, layer_top as i32, w, layer_bottom as i32);
    fill_biome_if(&band, bm, forest_id, |c: BiomeId| -> (r: bool)
        ensures
            r == (c == BIOME_UNASSIGNED),
        { c == BIOME_UNASSIGNED });
    proof {
        assert forall|x: int, y: int| #![trigger bm.cell(x, y)] mid.spec_in_bounds(x, y) implies (bm.cell(x, y)
            == if in_band(y, layer_top as int, layer_bottom as int) && mid.cell(x, y) == BIOME_UNASSIGNED {
            forest_id
        } else {
            mid.cell(x, y)
        }) by {
            assert(band.x0 == 0 && band.x1 == w);
            assert(0 <= x < w && 0 <= y < hi);
            assert(x as i32 == x && y as i32 == y);
            assert(fill_target(&band, &mid, x, y) == in_band(y, layer_top as int, layer_bottom as int));
        }
        assert forall|x: int, y: int| #![trigger bm.cell(x, y)] mid.spec_in_bounds(x, y) implies bm.cell(x, y)
            == d0[cell_index(wi, x, y)] || (d0[cell_index(wi, x, y)] == BIOME_UNASSIGNED && (bm.cell(x, y)
            == forest_id || bm.cell(x, y) == desert_id || bm.cell(x, y) == crimson_id)) by {
            lemma_cell_index_bounds(wi, hi, x, y);
            let i = cell_index(wi, x, y);
            assert(mid.spec_data()[i] == d0[i] || (d0[i] == BIOME_UNASSIGNED && (mid.spec_data()[i] == desert_id
                || mid.spec_data()[i] == crimson_id)));
        }
    }
}

/// Row `y` lies between `top` and `bottom`, in either order.
pub open spec fn in_band(y: int, top: int, bottom: int) -> bool {
    if top <= bottom { top <= y < bottom } else { bottom <= y < top }
}

} // verus!
