//! Where deserts and crimson patches go: the free ranges of a row taken
//! nearest the world centre first, and one random attempt at placing a
//! patch of a given width.

use rand::Rng;
use vstd::prelude::*;

use crate::algorithms::biome_division::{spaced_from, spacing_ok};
use crate::base::biome::{BiomeId, BiomeMap, BIOME_UNASSIGNED};
use crate::base::geometry::{max_i32, min_i32, sample_point, shape_all_match, Rect};

verus! {

/// Half of `v`, rounded toward zero.
pub open spec fn half_toward_zero(v: int) -> int {
    if v >= 0 { v / 2 } else { -((-v) / 2) }
}

/// Distance from the middle of `range` (its ends summed and halved toward
/// zero) to column `c`.
pub open spec fn center_distance(range: (i32, i32), c: int) -> int {
    let mid = half_toward_zero(range.0 + range.1);
    if mid - c >= 0 { mid - c } else { c - mid }
}

/// Range `i` comes before range `j`: it is nearer to `c`, or as near and
/// earlier in the list.
pub open spec fn nearer_first(ranges: Seq<(i32, i32)>, c: int, i: int, j: int) -> bool {
    ||| center_distance(ranges[i], c) < center_distance(ranges[j], c)
    ||| center_distance(ranges[i], c) == center_distance(ranges[j], c) && i < j
}

fn distance_of(range: (i32, i32), c: i32) -> (d: i64)
    ensures
        d == center_distance(range, c as int),
{
    let sum: i64 = (range.0 as i64) + (range.1 as i64);
    let mid: i64 = if sum >= 0 { sum / 2 } else { -((-sum) / 2) };
    let diff: i64 = mid - (c as i64);
    if diff >= 0 { diff } else { -diff }
}

/// The indices of `ranges`, nearest to column `c` first; ranges equally
/// near keep their order.
pub fn nearest_first(ranges: &Vec<(i32, i32)>, c: i32) -> (order: Vec<usize>)
    ensures
        order.len() == ranges.len(),
        forall|i: int| 0 <= i < order.len() ==> (#[trigger] order@[i]) < ranges.len(),
        forall|i: int, j: int| 0 <= i < j < order.len()
            ==> nearer_first(ranges@, c as int, (#[trigger] order@[i]) as int, (#[trigger] order@[j]) as int),
        forall|i: int, j: int| 0 <= i < j < order.len() ==> {
            let a = ranges@[(#[trigger] order@[i]) as int];
            let b = ranges@[(#[trigger] order@[j]) as int];
            let sa = a.0 + a.1;
            let sb = b.0 + b.1;
            let ma = if sa >= 0 { sa / 2 } else { -((-sa) / 2) };
            let mb = if sb >= 0 { sb / 2 } else { -((-sb) / 2) };
            let da = if ma >= c { ma - c } else { c - ma };
            let db = if mb >= c { mb - c } else { c - mb };
            da < db || (da == db && order@[i] < order@[j])
        },
{
    let mut order: Vec<usize> = Vec::new();
    let mut i: usize = 0;
    while i < ranges.len()
        invariant
            i <= ranges.len(),
            order.len() == i,
            forall|k: int| 0 <= k < order.len() ==> (#[trigger] order@[k]) < i,
            forall|a: int, b: int| 0 <= a < b < order.len()
                ==> nearer_first(ranges@, c as int, (#[trigger] order@[a]) as int, (#[trigger] order@[b]) as int),
        decreases ranges.len() - i,
    {
        let d = distance_of(ranges[i], c);
        let mut j: usize = 0;
        while j < order.len() && distance_of(ranges[order[j]], c) <= d
            invariant
                i < ranges.len(),
                j <= order.len(),
                forall|k: int| 0 <= k < order.len() ==> (#[trigger] order@[k]) < i,
                d == center_distance(ranges@[i as int], c as int),
                forall|k: int| 0 <= k < j ==> center_distance(ranges@[(#[trigger] order@[k]) as int], c as int) <= d,
            decreases order.len() - j,
        {
            j = j + 1;
        }
        let ghost old_order = order@;
        order.insert(j, i);
        proof {
            assert forall|a: int, b: int| 0 <= a < b < order.len()
                implies nearer_first(ranges@, c as int, (#[trigger] order@[a]) as int, (#[trigger] order@[b]) as int) by {
                if b < j {
                    assert(order@[a] == old_order[a] && order@[b] == old_order[b]);
                } else if b == j {
                    assert(order@[a] == old_order[a]);
                } else if a < j {
                    assert(order@[a] == old_order[a] && order@[b] == old_order[b - 1]);
                } else if a == j {
                    assert(order@[b] == old_order[b - 1]);
                    assert(nearer_first(ranges@, c as int, old_order[j as int] as int, old_order[b - 1] as int) || b - 1 == j);
                } else {
                    assert(order@[a] == old_order[a - 1] && order@[b] == old_order[b - 1]);
                }
            }
            assert forall|k: int| 0 <= k < order.len() implies (#[trigger] order@[k]) < i + 1 by {
                if k < j {
                    assert(order@[k] == old_order[k]);
                } else if k > j {
                    assert(order@[k] == old_order[k - 1]);
                }
            }
        }
        i = i + 1;
    }
    order
}

/// A uniformly drawn index below `n`.
///
/// Calls `Rng::gen_range(0..n)` of `rand` on `usize`, which returns a value
/// of the range and panics on an empty range (hence `n > 0`). Which value
/// comes out depends on the generator's state and is not stated.
#[verifier::external_body]
fn gen_index(rng: &mut rand::rngs::StdRng, n: usize) -> (r: usize)
    requires
        n > 0,
    ensures
        r < n,
{
    rng.gen_range(0..n)
}

/// A uniformly drawn column in `[lo, hi)`.
///
/// Calls `Rng::gen_range(lo..hi)` of `rand` on `i32`, which returns a value
/// of the range and panics on an empty range (hence `lo < hi`). Which value
/// comes out depends on the generator's state and is not stated.
#[verifier::external_body]
fn gen_column(rng: &mut rand::rngs::StdRng, lo: i32, hi: i32) -> (r: i32)
    requires
        lo < hi,
    ensures
        lo <= r < hi,
{
    rng.gen_range(lo..hi)
}

/// What one attempt at placing a patch came to.
#[derive(Clone, Copy, Debug, PartialEq, Eq, Structural)]
pub enum SlotDraw {
    /// No free range is as wide as the patch: further attempts of this
    /// width are useless.
    NoRoom,
    /// The drawn place was too close to a placed patch or not free.
    Rejected,
    /// The patch fits centred at this column.
    Placed(i32),
}

/// The lowest centre of a `width`-wide patch in `range`: its start plus half
/// the width (halved toward zero).
pub open spec fn centre_low(range: (i32, i32), width: i32) -> int {
    range.0 + half_toward_zero(width as int)
}

/// The end (excluded) of the centres of a `width`-wide patch in `range`.
pub open spec fn centre_high(range: (i32, i32), width: i32) -> int {
    range.1 - half_toward_zero(width as int)
}

/// The ranges at least `width` wide, in their order.
pub open spec fn wide(ranges: Seq<(i32, i32)>, width: i32) -> Seq<(i32, i32)>
    decreases ranges.len(),
{
    if ranges.len() == 0 {
        Seq::empty()
    } else {
        let rest = wide(ranges.drop_last(), width);
        if ranges.last().1 - ranges.last().0 >= width { rest.push(ranges.last()) } else { rest }
    }
}

/// `r` is one of `ranges` and at least `width` wide.
spec fn wide_range(ranges: Seq<(i32, i32)>, width: i32, r: (i32, i32)) -> bool {
    exists|j: int| 0 <= j < ranges.len() && #[trigger] ranges[j] == r && r.1 - r.0 >= width
}

/// Every wide range is one of the ranges, and there is none exactly when no
/// range is `width` wide.
proof fn lemma_wide(ranges: Seq<(i32, i32)>, width: i32)
    ensures
        forall|k: int| 0 <= k < wide(ranges, width).len() ==> wide_range(ranges, width, #[trigger] wide(ranges, width)[k]),
        (wide(ranges, width).len() == 0) == (forall|j: int| 0 <= j < ranges.len() ==> (#[trigger] ranges[j]).1 - ranges[j].0 < width),
    decreases ranges.len(),
{
    if ranges.len() > 0 {
        let init = ranges.drop_last();
        lemma_wide(init, width);
        let w = wide(ranges, width);
        let wi = wide(init, width);
        assert forall|k: int| 0 <= k < w.len() implies wide_range(ranges, width, #[trigger] w[k]) by {
            if k < wi.len() {
                assert(w[k] == wi[k]);
                assert(wide_range(init, width, wi[k]));
                let j = choose|j: int| 0 <= j < init.len() && #[trigger] init[j] == wi[k] && wi[k].1 - wi[k].0 >= width;
                assert(ranges[j] == init[j]);
            } else {
                assert(ranges[ranges.len() - 1] == w[k]);
            }
        }
        if wi.len() != 0 {
            assert(wide_range(init, width, wi[0]));
            let j = choose|j: int| 0 <= j < init.len() && #[trigger] init[j] == wi[0] && wi[0].1 - wi[0].0 >= width;
            assert(ranges[j] == init[j]);
        }
        if w.len() == 0 {
            assert forall|j: int| 0 <= j < ranges.len() implies (#[trigger] ranges[j]).1 - ranges[j].0 < width by {
                if j < init.len() {
                    assert(init[j] == ranges[j]);
                }
            }
        } else {
            assert(wide_range(ranges, width, w[0]));
        }
    }
}

/// The rectangle of a `width`-wide patch centred at `cx` over rows
/// `[top, bottom)`, cut to a `w` by `h` map.
pub open spec fn slot_rect(cx: i32, width: i32, top: i32, bottom: i32, w: i32, h: i32) -> Rect {
    let half = half_toward_zero(width as int);
    let xl = max_i32((cx - half) as i32, 0);
    let xr = min_i32((cx + half) as i32, w);
    let yb = min_i32(bottom, h);
    Rect { x0: min_i32(xl, xr), y0: min_i32(top, yb), x1: max_i32(xl, xr), y1: max_i32(top, yb) }
}

/// A `width`-wide patch centred at `cx` fits: `cx` lies inside one of
/// `ranges` at least `width` wide, at least half the width from its ends;
/// the patch keeps the spacing to every placed slot; and every sampled cell
/// of its rectangle (every second row and column) is unassigned.
pub open spec fn slot_fits(bm: BiomeMap, ranges: Seq<(i32, i32)>, slots: Seq<(i32, i32)>, width: i32,
    top: i32, bottom: i32, min_spacing: i32, cx: i32) -> bool {
    &&& exists|i: int| 0 <= i < ranges.len() && (#[trigger] ranges[i]).1 - ranges[i].0 >= width
        && centre_low(ranges[i], width) <= cx < centre_high(ranges[i], width)
    &&& forall|k: int| 0 <= k < slots.len() ==> spaced_from(#[trigger] slots[k], cx as int, width as int, min_spacing as int)
    &&& forall|x: int, y: int| #[trigger] sample_point(&slot_rect(cx, width, top, bottom, bm.width as i32, bm.height as i32), &bm, 2, x, y)
        ==> bm.spec_get(x, y) == BIOME_UNASSIGNED
}

/// The outcome of an attempt that picked the wide range `range` and, when
/// `range` has room for a centre, drew centre `cx`: rejected without a draw
/// when there is no room; placed when the patch fits there; else rejected.
pub open spec fn slot_outcome(bm: BiomeMap, range: (i32, i32), slots: Seq<(i32, i32)>, width: i32,
    top: i32, bottom: i32, min_spacing: i32, cx: i32) -> SlotDraw {
    if centre_low(range, width) >= centre_high(range, width) {
        SlotDraw::Rejected
    } else if slot_fits(bm, seq![range], slots, width, top, bottom, min_spacing, cx) {
        SlotDraw::Placed(cx)
    } else {
        SlotDraw::Rejected
    }
}

/// Half of `width`, rounded toward zero.
fn half_of(width: i32) -> (h: i32)
    requires
        width > i32::MIN,
    ensures
        h == half_toward_zero(width as int),
{
    if width >= 0 { width / 2 } else { -((-width) / 2) }
}

/// Whether a `width`-wide patch centred at `cx` fits in the free range
/// `range` of the map, over rows `[top, bottom)`: `Placed(cx)` when it does,
/// else `Rejected`.
pub fn judge_slot(bm: &BiomeMap, range: (i32, i32), slots: &Vec<(i32, i32)>, width: i32, top: i32, bottom: i32,
    min_spacing: i32, cx: i32) -> (r: SlotDraw)
    requires
        bm.wf(),
        bm.width <= i32::MAX,
        bm.height <= i32::MAX,
        bm.width - width <= i32::MAX,
        0 <= range.0 <= range.1 <= bm.width,
    ensures
        r == (if slot_fits(*bm, seq![range], slots@, width, top, bottom, min_spacing, cx) {
            SlotDraw::Placed(cx)
        } else {
            SlotDraw::Rejected
        }),
{
    let (rs, re) = range;
    let half = half_of(width);
    let lo: i64 = (rs as i64) + (half as i64);
    let hi: i64 = (re as i64) - (half as i64);
    if re - rs < width || (cx as i64) < lo || (cx as i64) >= hi {
        proof {
            assert(seq![range][0] == range);
        }
        return SlotDraw::Rejected;
    }
    proof {
        assert(seq![range][0] == range);
    }
    if !spacing_ok(slots.as_slice(), cx, width, min_spacing) {
        return SlotDraw::Rejected;
    }
    let w = bm.width as i32;
    let h = bm.height as i32;
    let xl = if cx - half > 0 { cx - half } else { 0 };
    let xr = if cx + half < w { cx + half } else { w };
    let yb = if bottom < h { bottom } else { h };
    let rect = Rect::new(xl, top, xr, yb);
    let free = shape_all_match(&rect, bm, 2, |c: BiomeId| -> (r: bool)
        ensures
            r == (c == BIOME_UNASSIGNED),
        { c == BIOME_UNASSIGNED });
    proof {
        assert(rect == slot_rect(cx, width, top, bottom, w, h));
    }
    if !free {
        return SlotDraw::Rejected;
    }
    SlotDraw::Placed(cx)
}

/// One attempt at placing a `width`-wide patch over rows `[top, bottom)`:
/// draws one of the free ranges at least `width` wide, then, when it has
/// room, a centre at least half the width from its ends, and judges that
/// place with [`judge_slot`].
pub fn draw_slot(bm: &BiomeMap, ranges: &Vec<(i32, i32)>, slots: &Vec<(i32, i32)>, width: i32, top: i32,
    bottom: i32, min_spacing: i32, rng: &mut rand::rngs::StdRng) -> (r: SlotDraw)
    requires
        bm.wf(),
        bm.width <= i32::MAX,
        bm.height <= i32::MAX,
        bm.width - width <= i32::MAX,
        forall|i: int| 0 <= i < ranges.len() ==> 0 <= (#[trigger] ranges@[i]).0 <= ranges@[i].1 <= bm.width,
    ensures
        (r == SlotDraw::NoRoom) == (forall|i: int| 0 <= i < ranges.len() ==> (#[trigger] ranges@[i]).1 - ranges@[i].0 < width),
        (r == SlotDraw::NoRoom) == (wide(ranges@, width).len() == 0),
        r != SlotDraw::NoRoom ==> exists|k: int, cx: i32| 0 <= k < wide(ranges@, width).len()
            && (centre_low(wide(ranges@, width)[k], width) < centre_high(wide(ranges@, width)[k], width)
                ==> centre_low(wide(ranges@, width)[k], width) <= cx < centre_high(wide(ranges@, width)[k], width))
            && r == #[trigger] slot_outcome(*bm, wide(ranges@, width)[k], slots@, width, top, bottom, min_spacing, cx),
        r matches SlotDraw::Placed(cx) ==> slot_fits(*bm, ranges@, slots@, width, top, bottom, min_spacing, cx),
{
    proof {
        lemma_wide(ranges@, width);
    }
    let mut valid: Vec<(i32, i32)> = Vec::new();
    let mut i: usize = 0;
    assert(ranges@.take(0) =~= Seq::<(i32, i32)>::empty());
    while i < ranges.len()
        invariant
            i <= ranges.len(),
            forall|k: int| 0 <= k < ranges.len() ==> 0 <= (#[trigger] ranges@[k]).0 <= ranges@[k].1 <= bm.width,
            valid@ == wide(ranges@.take(i as int), width),
        decreases ranges.len() - i,
    {
        proof {
            assert(ranges@.take(i + 1).drop_last() =~= ranges@.take(i as int));
        }
        let (s, e) = ranges[i];
        if e - s >= width {
            valid.push((s, e));
        }
        i = i + 1;
    }
    assert(ranges@.take(ranges.len() as int) =~= ranges@);
    let ghost wv = wide(ranges@, width);
    if valid.len() == 0 {
        return SlotDraw::NoRoom;
    }
    let pick = gen_index(rng, valid.len());
    let range = valid[pick];
    proof {
        assert(wide_range(ranges@, width, wv[pick as int]));
    }
    let (rs, re) = range;
    let half = half_of(width);
    let lo = rs + half;
    let hi = re - half;
    if lo >= hi {
        proof {
            assert(slot_outcome(*bm, wv[pick as int], slots@, width, top, bottom, min_spacing, 0) == SlotDraw::Rejected);
        }
        return SlotDraw::Rejected;
    }
    let cx = gen_column(rng, lo, hi);
    let r = judge_slot(bm, range, slots, width, top, bottom, min_spacing, cx);
    proof {
        assert(r == slot_outcome(*bm, wv[pick as int], slots@, width, top, bottom, min_spacing, cx));
        if r is Placed {
            assert(wide_range(ranges@, width, wv[pick as int]));
            let j = choose|j: int| 0 <= j < ranges.len() && #[trigger] ranges@[j] == wv[pick as int]
                && wv[pick as int].1 - wv[pick as int].0 >= width;
            assert(seq![range][0] == ranges@[j]);
        }
    }
    r
}

} // verus!
