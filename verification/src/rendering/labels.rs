//! Where biome names go on the canvas: the map is sampled on a grid, and
//! for each biome the sampled columns holding it are grouped into regions
//! separated by more than a gap; each region's name is placed at its
//! horizontal middle and at the mean row of its samples.

use vstd::prelude::*;

use crate::base::biome::{BiomeId, BiomeMap, BIOME_UNASSIGNED};

verus! {

/// A group of sampled columns of one biome.
#[derive(Clone, Copy, Debug, PartialEq, Eq, Structural)]
pub struct LabelRegion {
    pub biome: BiomeId,
    /// Leftmost sampled column of the group.
    pub x_min: u32,
    /// Rightmost sampled column of the group.
    pub x_max: u32,
    /// Sum of the rows of the group's samples.
    pub sum_y: u64,
    /// Number of the group's samples.
    pub count: u64,
}

/// Number of sampled rows: rows `0, step, 2 * step, ...` below `height`.
pub open spec fn sample_rows(height: int, step: int) -> int {
    (height + step - 1) / step
}

/// Samples of biome `b` among the first `k` sampled rows of column `x`.
pub open spec fn rows_count(bm: BiomeMap, b: BiomeId, x: int, step: int, k: int) -> int
    decreases k,
{
    if k <= 0 { 0 } else { rows_count(bm, b, x, step, k - 1) + (if bm.spec_get(x, (k - 1) * step) == b { 1int } else { 0 }) }
}

/// Sum of the rows of those samples.
pub open spec fn rows_sum(bm: BiomeMap, b: BiomeId, x: int, step: int, k: int) -> int
    decreases k,
{
    if k <= 0 { 0 } else { rows_sum(bm, b, x, step, k - 1) + (if bm.spec_get(x, (k - 1) * step) == b { (k - 1) * step } else { 0 }) }
}

/// Samples of biome `b` in column `x`.
pub open spec fn col_count(bm: BiomeMap, b: BiomeId, x: int, step: int) -> int {
    rows_count(bm, b, x, step, sample_rows(bm.height as int, step))
}

/// Sum of the rows of the samples of biome `b` in column `x`.
pub open spec fn col_sum(bm: BiomeMap, b: BiomeId, x: int, step: int) -> int {
    rows_sum(bm, b, x, step, sample_rows(bm.height as int, step))
}

/// Column `x` is a sampled column of the map with a sample of biome `b`.
pub open spec fn present(bm: BiomeMap, b: BiomeId, x: int, step: int) -> bool {
    &&& 0 <= x < bm.width
    &&& x % step == 0
    &&& col_count(bm, b, x, step) > 0
}

/// The nearest column left of `c` where `b` is present, or -1.
pub open spec fn prev_present(bm: BiomeMap, b: BiomeId, c: int, step: int) -> int
    decreases c,
{
    if c <= 0 { -1 } else if present(bm, b, c - 1, step) { c - 1 } else { prev_present(bm, b, c - 1, step) }
}

/// Samples of `b` in the present columns of `[lo, hi]`.
pub open spec fn cols_count(bm: BiomeMap, b: BiomeId, step: int, lo: int, hi: int) -> int
    decreases hi + 1 - lo,
{
    if hi < lo {
        0
    } else {
        cols_count(bm, b, step, lo, hi - 1) + (if present(bm, b, hi, step) { col_count(bm, b, hi, step) } else { 0 })
    }
}

/// Sum of the rows of those samples.
pub open spec fn cols_sum(bm: BiomeMap, b: BiomeId, step: int, lo: int, hi: int) -> int
    decreases hi + 1 - lo,
{
    if hi < lo {
        0
    } else {
        cols_sum(bm, b, step, lo, hi - 1) + (if present(bm, b, hi, step) { col_sum(bm, b, hi, step) } else { 0 })
    }
}

/// `r` is a maximal group of present columns of its biome in which each
/// present column lies at most `gap` columns right of the previous one,
/// with its sample count and row sum.
#[verifier::opaque]
pub open spec fn region_of(bm: BiomeMap, step: int, gap: int, r: LabelRegion) -> bool {
    let b = r.biome;
    &&& b != BIOME_UNASSIGNED
    &&& r.x_min <= r.x_max
    &&& present(bm, b, r.x_min as int, step)
    &&& present(bm, b, r.x_max as int, step)
    &&& prev_present(bm, b, r.x_min as int, step) < 0 || r.x_min - prev_present(bm, b, r.x_min as int, step) > gap
    &&& forall|c: int| r.x_min < c <= r.x_max && #[trigger] present(bm, b, c, step) ==> c - prev_present(bm, b, c, step) <= gap
    &&& forall|c: int| r.x_max < c <= r.x_max + gap ==> !#[trigger] present(bm, b, c, step)
    &&& r.count == cols_count(bm, b, step, r.x_min as int, r.x_max as int)
    &&& r.sum_y == cols_sum(bm, b, step, r.x_min as int, r.x_max as int)
}

/// Regions ordered by biome id, and left to right within a biome.
pub open spec fn regions_sorted(regions: Seq<LabelRegion>) -> bool {
    forall|i: int, j: int| 0 <= i < j < regions.len() ==> {
        ||| (#[trigger] regions[i]).biome < (#[trigger] regions[j]).biome
        ||| regions[i].biome == regions[j].biome && regions[i].x_max < regions[j].x_min
    }
}

/// `regions` lists every group of every assigned biome exactly once.
pub open spec fn label_regions_of(bm: BiomeMap, step: int, gap: int, regions: Seq<LabelRegion>) -> bool {
    &&& forall|i: int| 0 <= i < regions.len() ==> region_of(bm, step, gap, #[trigger] regions[i])
    &&& forall|b: BiomeId, c: int| b != BIOME_UNASSIGNED && #[trigger] present(bm, b, c, step) ==> exists|i: int|
        0 <= i < regions.len() && (#[trigger] regions[i]).biome == b && regions[i].x_min <= c <= regions[i].x_max
    &&& forall|i: int, j: int| 0 <= i < j < regions.len() && (#[trigger] regions[i]).biome == (#[trigger] regions[j]).biome
        ==> regions[i].x_max < regions[j].x_min || regions[j].x_max < regions[i].x_min
}

/// A loop that visits rows `0, step, 2 * step, ...` and stops at the first
/// one at or below `height` has visited `sample_rows(height, step)` rows.
proof fn lemma_rows_visited(h: int, s: int, k: int)
    requires
        s > 0,
        h >= 0,
        k >= 0,
        k * s >= h,
        k == 0 || (k - 1) * s < h,
    ensures
        k == sample_rows(h, s),
{
    if k == 0 {
        vstd::arithmetic::div_mod::lemma_fundamental_div_mod_converse(h + s - 1, s, 0, s - 1);
    } else {
        assert((k - 1) * s == k * s - s) by (nonlinear_arith);
        vstd::arithmetic::div_mod::lemma_fundamental_div_mod_converse(h + s - 1, s, k, h + s - 1 - k * s);
    }
}

/// Count and row sum of the samples of `b` in column `x`.
fn column_samples(bm: &BiomeMap, b: BiomeId, x: u32, step: u32) -> (r: (u64, u64))
    requires
        bm.wf(),
        step > 0,
        (bm.height as int) * (bm.height as int) <= u64::MAX,
    ensures
        r.0 == col_count(*bm, b, x as int, step as int),
        r.1 == col_sum(*bm, b, x as int, step as int),
        r.0 <= bm.height,
        r.1 <= (bm.height as int) * (bm.height as int),
{
    let h: u64 = bm.height as u64;
    let s: u64 = step as u64;
    let mut y: u64 = 0;
    let mut k: u64 = 0;
    let mut count: u64 = 0;
    let mut sum: u64 = 0;
    while y < h
        invariant
            bm.wf(),
            h == bm.height,
            s == step,
            s > 0,
            h * h <= u64::MAX,
            y == k * s,
            k == 0 || (k - 1) * s < h,
            k <= h,
            count == rows_count(*bm, b, x as int, step as int, k as int),
            sum == rows_sum(*bm, b, x as int, step as int, k as int),
            count <= k,
            sum <= k * h,
        decreases h - k,
    {
        let v = bm.get(x, y as u32);
        proof {
            assert(k <= k * s) by (nonlinear_arith)
                requires s >= 1, k >= 0;
            assert(k * h <= h * h - h) by (nonlinear_arith)
                requires k < h, h >= 0;
            assert((k + 1) * h == k * h + h) by (nonlinear_arith);
            assert((k + 1) * s == k * s + s) by (nonlinear_arith);
            assert(k + 1 <= (k + 1) * s) by (nonlinear_arith)
                requires s >= 1, k >= 0;
        }
        if v == b {
            count = count + 1;
            sum = sum + y;
        }
        k = k + 1;
        y = y + s;
    }
    proof {
        lemma_rows_visited(h as int, s as int, k as int);
        assert(k * h <= h * h) by (nonlinear_arith)
            requires k <= h, h >= 0;
    }
    (count, sum)
}

/// Columns strictly between two sampled columns are never sampled.
proof fn lemma_off_grid(bm: BiomeMap, b: BiomeId, step: int, x: int, i: int)
    requires
        step > 0,
        x % step == 0,
        0 < i < step,
    ensures
        !present(bm, b, x + i, step),
{
    vstd::arithmetic::div_mod::lemma_fundamental_div_mod(x, step);
    assert(x + i == (x / step) * step + i) by (nonlinear_arith)
        requires x == step * (x / step);
    vstd::arithmetic::div_mod::lemma_fundamental_div_mod_converse(x + i, step, x / step, i);
}

/// Between a sampled column `x` and `x + i`, with `i <= step`, the nearest
/// present column on the left is `x` if `x` is present, else the one left of `x`.
proof fn lemma_prev_present_skip(bm: BiomeMap, b: BiomeId, step: int, x: int, i: int)
    requires
        step > 0,
        x >= 0,
        x % step == 0,
        1 <= i <= step,
    ensures
        prev_present(bm, b, x + i, step) == if present(bm, b, x, step) { x } else { prev_present(bm, b, x, step) },
    decreases i,
{
    if i > 1 {
        lemma_prev_present_skip(bm, b, step, x, i - 1);
        lemma_off_grid(bm, b, step, x, i - 1);
    }
}

/// No column strictly between `prev_present(x)` and `x` is present, and
/// `prev_present(x)`, when there is one, is present and left of `x`.
proof fn lemma_prev_present_gap(bm: BiomeMap, b: BiomeId, step: int, x: int)
    requires
        x >= 0,
    ensures
        forall|c: int| prev_present(bm, b, x, step) < c < x ==> !#[trigger] present(bm, b, c, step),
        prev_present(bm, b, x, step) < x,
        prev_present(bm, b, x, step) >= 0 ==> present(bm, b, prev_present(bm, b, x, step), step),
        prev_present(bm, b, x, step) >= -1,
    decreases x,
{
    if x > 0 {
        lemma_prev_present_gap(bm, b, step, x - 1);
    }
}

/// Columns `(p, q]` hold no present column, so the totals over `[lo, q]`
/// and `[lo, p]` agree.
proof fn lemma_cols_skip(bm: BiomeMap, b: BiomeId, step: int, lo: int, p: int, q: int)
    requires
        lo - 1 <= p <= q,
        forall|c: int| p < c <= q ==> !#[trigger] present(bm, b, c, step),
    ensures
        cols_count(bm, b, step, lo, q) == cols_count(bm, b, step, lo, p),
        cols_sum(bm, b, step, lo, q) == cols_sum(bm, b, step, lo, p),
    decreases q - p,
{
    if q > p {
        assert(!present(bm, b, q, step));
        lemma_cols_skip(bm, b, step, lo, p, q - 1);
    }
}

/// Column `c` lies inside one of the regions of `rs`.
spec fn covered(rs: Seq<LabelRegion>, c: int) -> bool {
    exists|i: int| 0 <= i < rs.len() && (#[trigger] rs[i]).x_min <= c <= rs[i].x_max
}

/// `rs` lists the groups of biome `b`, left to right, and every present
/// column of `b` lies in one of them.
spec fn biome_regions_of(bm: BiomeMap, b: BiomeId, step: int, gap: int, rs: Seq<LabelRegion>) -> bool {
    &&& forall|i: int| 0 <= i < rs.len() ==> (#[trigger] rs[i]).biome == b && region_of(bm, step, gap, rs[i])
    &&& forall|i: int, j: int| 0 <= i < j < rs.len() ==> (#[trigger] rs[i]).x_max < (#[trigger] rs[j]).x_min
    &&& forall|c: int| #[trigger] present(bm, b, c, step) ==> covered(rs, c)
}

proof fn lemma_covered_push(rs: Seq<LabelRegion>, r: LabelRegion, c: int)
    ensures
        covered(rs, c) ==> covered(rs.push(r), c),
        r.x_min <= c <= r.x_max ==> covered(rs.push(r), c),
{
    if covered(rs, c) {
        let i = choose|i: int| 0 <= i < rs.len() && (#[trigger] rs[i]).x_min <= c <= rs[i].x_max;
        assert(rs.push(r)[i] == rs[i]);
    }
    if r.x_min <= c <= r.x_max {
        assert(rs.push(r)[rs.len() as int] == r);
    }
}

/// The groups of biome `b`, left to right.
fn biome_regions(bm: &BiomeMap, b: BiomeId, step: u32, gap: u32) -> (rs: Vec<LabelRegion>)
    requires
        bm.wf(),
        step > 0,
        b != BIOME_UNASSIGNED,
        (bm.width as int) * (bm.height as int) * (bm.height as int) <= u64::MAX,
    ensures
        biome_regions_of(*bm, b, step as int, gap as int, rs@),
{
    let ghost st: int = step as int;
    let ghost g: int = gap as int;
    let ghost h: int = bm.height as int;
    let ghost hh: int = h * h;
    let w: u64 = bm.width as u64;
    let s: u64 = step as u64;
    let mut rs: Vec<LabelRegion> = Vec::new();
    let mut open: bool = false;
    let mut cur = LabelRegion { biome: b, x_min: 0, x_max: 0, sum_y: 0, count: 0 };
    let mut x: u64 = 0;
    assert(w * hh == (bm.width as int) * (bm.height as int) * (bm.height as int)) by (nonlinear_arith)
        requires w == bm.width, h == bm.height, hh == h * h;
    while x < w
        invariant
            bm.wf(),
            w == bm.width,
            s == step,
            st == step,
            g == gap,
            h == bm.height,
            hh == h * h,
            s > 0,
            b != BIOME_UNASSIGNED,
            w * hh <= u64::MAX,
            x % s == 0,
            x < w + s,
            open ==> {
                &&& cur.biome == b
                &&& cur.x_min <= cur.x_max < x
                &&& prev_present(*bm, b, x as int, st) == cur.x_max
                &&& present(*bm, b, cur.x_min as int, st)
                &&& present(*bm, b, cur.x_max as int, st)
                &&& prev_present(*bm, b, cur.x_min as int, st) < 0
                    || cur.x_min - prev_present(*bm, b, cur.x_min as int, st) > g
                &&& forall|c: int| cur.x_min < c <= cur.x_max && #[trigger] present(*bm, b, c, st)
                    ==> c - prev_present(*bm, b, c, st) <= g
                &&& cur.count == cols_count(*bm, b, st, cur.x_min as int, cur.x_max as int)
                &&& cur.sum_y == cols_sum(*bm, b, st, cur.x_min as int, cur.x_max as int)
                &&& cur.count <= x * hh
                &&& cur.sum_y <= x * hh
                &&& forall|i: int| 0 <= i < rs.len() ==> (#[trigger] rs@[i]).x_max < cur.x_min
            },
            !open ==> prev_present(*bm, b, x as int, st) == -1 && rs.len() == 0,
            forall|i: int| 0 <= i < rs.len() ==> (#[trigger] rs@[i]).biome == b && region_of(*bm, st, g, rs@[i]),
            forall|i: int, j: int| 0 <= i < j < rs.len() ==> (#[trigger] rs@[i]).x_max < (#[trigger] rs@[j]).x_min,
            forall|c: int| c < x && #[trigger] present(*bm, b, c, st)
                ==> covered(rs@, c) || (open && cur.x_min <= c <= cur.x_max),
        decreases w + s - x,
    {
        let xc: u32 = x as u32;
        assert(hh <= w * hh) by (nonlinear_arith)
            requires w >= 1, hh >= 0;
        let (cnt, sm) = column_samples(bm, b, xc, step);
        proof {
            lemma_prev_present_skip(*bm, b, st, x as int, st);
            lemma_prev_present_gap(*bm, b, st, x as int);
            lemma_prev_present_gap(*bm, b, st, x + st);
            assert(cnt <= hh) by (nonlinear_arith)
                requires cnt <= h, h >= 0, hh == h * h;
            assert((x + 1) * hh <= w * hh) by (nonlinear_arith)
                requires x < w, hh >= 0;
            assert((x + 1) * hh <= (x + s) * hh) by (nonlinear_arith)
                requires s >= 1, hh >= 0, x >= 0;
            assert(x * hh <= (x + s) * hh) by (nonlinear_arith)
                requires s >= 1, hh >= 0, x >= 0;
            assert((x + 1) * hh == x * hh + hh) by (nonlinear_arith);
            assert forall|i: int| 0 < i < st implies !#[trigger] present(*bm, b, x + i, st) by {
                lemma_off_grid(*bm, b, st, x as int, i);
            }
        }
        let ghost old_rs = rs@;
        let ghost old_cur = cur;
        let ghost old_open = open;
        if cnt > 0 {
            assert(present(*bm, b, x as int, st));
            if open && x - (cur.x_max as u64) <= gap as u64 {
                proof {
                    lemma_cols_skip(*bm, b, st, cur.x_min as int, cur.x_max as int, x - 1);
                }
                cur.x_max = xc;
                cur.count = cur.count + cnt;
                cur.sum_y = cur.sum_y + sm;
            } else {
                if open {
                    proof {
                        assert forall|c: int| cur.x_max < c <= cur.x_max + g implies !#[trigger] present(*bm, b, c, st) by {
                            assert(c < x);
                        }
                        reveal(region_of);
                    }
                    rs.push(cur);
                }
                cur = LabelRegion { biome: b, x_min: xc, x_max: xc, sum_y: sm, count: cnt };
                open = true;
                assert(cols_count(*bm, b, st, x as int, x - 1) == 0);
                assert(cols_sum(*bm, b, st, x as int, x - 1) == 0);
            }
        }
        proof {
            assert forall|c: int| c < x + s && #[trigger] present(*bm, b, c, st)
                implies covered(rs@, c) || (open && cur.x_min <= c <= cur.x_max) by {
                if c < x {
                    lemma_covered_push(old_rs, old_cur, c);
                } else if c > x {
                    assert(present(*bm, b, x + (c - x), st));
                }
            }
            vstd::arithmetic::div_mod::lemma_mod_add_multiples_vanish(x as int, s as int);
        }
        x = x + s;
    }
    if open {
        proof {
            lemma_prev_present_gap(*bm, b, st, x as int);
            assert forall|c: int| cur.x_max < c <= cur.x_max + g implies !#[trigger] present(*bm, b, c, st) by {
                if c >= x {
                    assert(c >= w);
                }
            }
            reveal(region_of);
        }
        let ghost old_rs = rs@;
        rs.push(cur);
        proof {
            assert forall|c: int| #[trigger] present(*bm, b, c, st) implies covered(rs@, c) by {
                lemma_covered_push(old_rs, cur, c);
            }
        }
    }
    rs
}

/// Marks in `seen` every biome sampled in column `x`.
fn mark_column(bm: &BiomeMap, x: u32, step: u32, seen: &mut Vec<bool>)
    requires
        bm.wf(),
        step > 0,
        old(seen).len() == 256,
    ensures
        final(seen).len() == 256,
        forall|i: int| 0 <= i < 256 && old(seen)@[i] ==> final(seen)@[i],
        forall|b: BiomeId| col_count(*bm, b, x as int, step as int) > 0 ==> #[trigger] final(seen)@[b as int],
{
    let h: u64 = bm.height as u64;
    let s: u64 = step as u64;
    let mut y: u64 = 0;
    let mut k: u64 = 0;
    while y < h
        invariant
            bm.wf(),
            h == bm.height,
            s == step,
            s > 0,
            y == k * s,
            k == 0 || (k - 1) * s < h,
            k <= h,
            seen.len() == 256,
            forall|i: int| 0 <= i < 256 && old(seen)@[i] ==> seen@[i],
            forall|b: BiomeId| rows_count(*bm, b, x as int, step as int, k as int) > 0 ==> #[trigger] seen@[b as int],
        decreases h - k,
    {
        let v = bm.get(x, y as u32);
        proof {
            assert(k <= k * s) by (nonlinear_arith)
                requires s >= 1, k >= 0;
            assert((k + 1) * s == k * s + s) by (nonlinear_arith);
        }
        seen.set(v as usize, true);
        k = k + 1;
        y = y + s;
    }
    proof {
        lemma_rows_visited(h as int, s as int, k as int);
    }
}

/// `seen[b]` for every biome `b` with a sample in some sampled column.
fn biomes_seen(bm: &BiomeMap, step: u32) -> (seen: Vec<bool>)
    requires
        bm.wf(),
        step > 0,
    ensures
        seen.len() == 256,
        forall|b: BiomeId, c: int| #[trigger] present(*bm, b, c, step as int) ==> seen@[b as int],
{
    let ghost st: int = step as int;
    let mut seen: Vec<bool> = Vec::new();
    let mut i: usize = 0;
    while i < 256
        invariant
            i <= 256,
            seen.len() == i,
        decreases 256 - i,
    {
        seen.push(false);
        i = i + 1;
    }
    let w: u64 = bm.width as u64;
    let s: u64 = step as u64;
    let mut x: u64 = 0;
    while x < w
        invariant
            bm.wf(),
            w == bm.width,
            s == step,
            st == step,
            s > 0,
            x % s == 0,
            x < w + s,
            seen.len() == 256,
            forall|b: BiomeId, c: int| c < x && #[trigger] present(*bm, b, c, st) ==> seen@[b as int],
        decreases w + s - x,
    {
        let ghost old_seen = seen@;
        mark_column(bm, x as u32, step, &mut seen);
        proof {
            assert forall|b: BiomeId, c: int| c < x + s && #[trigger] present(*bm, b, c, st) implies seen@[b as int] by {
                if c < x {
                    assert(old_seen[b as int]);
                } else if c > x {
                    lemma_off_grid(*bm, b, st, x as int, c - x);
                    assert(present(*bm, b, x + (c - x), st));
                }
            }
            vstd::arithmetic::div_mod::lemma_mod_add_multiples_vanish(x as int, s as int);
        }
        x = x + s;
    }
    seen
}

/// `out` lists every group of the biomes below `b` exactly once.
spec fn regions_below(bm: BiomeMap, step: int, gap: int, b: int, out: Seq<LabelRegion>) -> bool {
    &&& forall|i: int| 0 <= i < out.len() ==> region_of(bm, step, gap, #[trigger] out[i]) && out[i].biome < b
    &&& forall|bb: BiomeId, c: int| 1 <= bb < b && #[trigger] present(bm, bb, c, step) ==> exists|i: int|
        0 <= i < out.len() && (#[trigger] out[i]).biome == bb && out[i].x_min <= c <= out[i].x_max
    &&& regions_sorted(out)
}

proof fn lemma_regions_append(bm: BiomeMap, step: int, gap: int, b: BiomeId, out: Seq<LabelRegion>, rs: Seq<LabelRegion>)
    requires
        b >= 1,
        regions_below(bm, step, gap, b as int, out),
        biome_regions_of(bm, b, step, gap, rs),
    ensures
        regions_below(bm, step, gap, b + 1, out + rs),
{
    let all = out + rs;
    assert forall|i: int| 0 <= i < all.len() implies region_of(bm, step, gap, #[trigger] all[i]) && all[i].biome < b + 1 by {
        if i >= out.len() {
            assert(all[i] == rs[i - out.len()]);
        }
    }
    assert forall|bb: BiomeId, c: int| 1 <= bb < b + 1 && #[trigger] present(bm, bb, c, step) implies exists|i: int|
        0 <= i < all.len() && (#[trigger] all[i]).biome == bb && all[i].x_min <= c <= all[i].x_max by {
        if bb < b {
            let i = choose|i: int| 0 <= i < out.len() && (#[trigger] out[i]).biome == bb && out[i].x_min <= c <= out[i].x_max;
            assert(all[i] == out[i]);
        } else {
            assert(covered(rs, c));
            let i = choose|i: int| 0 <= i < rs.len() && (#[trigger] rs[i]).x_min <= c <= rs[i].x_max;
            assert(all[out.len() + i] == rs[i]);
        }
    }
    assert forall|i: int, j: int| 0 <= i < j < all.len() implies {
        ||| (#[trigger] all[i]).biome < (#[trigger] all[j]).biome
        ||| all[i].biome == all[j].biome && all[i].x_max < all[j].x_min
    } by {
        if j >= out.len() {
            assert(all[j] == rs[j - out.len()]);
            if i >= out.len() {
                assert(all[i] == rs[i - out.len()]);
            } else {
                assert(all[i] == out[i]);
            }
        } else {
            assert(all[i] == out[i]);
            assert(all[j] == out[j]);
        }
    }
}

/// The label regions of the map sampled every `step` columns and rows, a
/// new region beginning wherever the next sampled column of a biome lies
/// more than `gap` columns right of the previous one. Regions are listed
/// by biome id, and left to right within a biome.
pub fn label_regions(bm: &BiomeMap, step: u32, gap: u32) -> (regions: Vec<LabelRegion>)
    requires
        bm.wf(),
        step > 0,
        (bm.width as int) * (bm.height as int) * (bm.height as int) <= u64::MAX,
    ensures
        label_regions_of(*bm, step as int, gap as int, regions@),
        regions_sorted(regions@),
{
    let ghost st: int = step as int;
    let ghost g: int = gap as int;
    let seen = biomes_seen(bm, step);
    let mut out: Vec<LabelRegion> = Vec::new();
    let mut b: u32 = 1;
    while b < 256
        invariant
            bm.wf(),
            step > 0,
            st == step,
            g == gap,
            (bm.width as int) * (bm.height as int) * (bm.height as int) <= u64::MAX,
            1 <= b <= 256,
            seen.len() == 256,
            forall|bb: BiomeId, c: int| #[trigger] present(*bm, bb, c, st) ==> seen@[bb as int],
            regions_below(*bm, st, g, b as int, out@),
        decreases 256 - b,
    {
        let bid: BiomeId = b as u8;
        if seen[b as usize] {
            let mut rs = biome_regions(bm, bid, step, gap);
            proof {
                lemma_regions_append(*bm, st, g, bid, out@, rs@);
            }
            out.append(&mut rs);
        } else {
            proof {
                assert forall|bb: BiomeId, c: int| 1 <= bb < b + 1 && #[trigger] present(*bm, bb, c, st) implies exists|i: int|
                    0 <= i < out.len() && (#[trigger] out@[i]).biome == bb && out@[i].x_min <= c <= out@[i].x_max by {
                    if bb == b {
                        assert(seen@[bb as int]);
                    }
                }
            }
        }
        b = b + 1;
    }
    proof {
        assert forall|bb: BiomeId, c: int| bb != BIOME_UNASSIGNED && #[trigger] present(*bm, bb, c, st) implies exists|i: int|
            0 <= i < out.len() && (#[trigger] out@[i]).biome == bb && out@[i].x_min <= c <= out@[i].x_max by {
            assert(1 <= bb < 256);
        }
        assert forall|i: int, j: int| 0 <= i < j < out.len() && (#[trigger] out@[i]).biome == (#[trigger] out@[j]).biome
            implies out@[i].x_max < out@[j].x_min || out@[j].x_max < out@[i].x_min by {
            assert(regions_sorted(out@));
        }
    }
    out
}

} // verus!
