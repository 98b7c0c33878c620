pub mod forest_fill;
pub mod placement;
pub mod stone_fill;

use vstd::prelude::*;

use crate::base::biome::{BiomeDefinition, BiomeId, BiomeMap, BIOME_UNASSIGNED};
use crate::text::str_eq;

verus! {

/// The first definition in `defs` with key `key` is at `i`.
pub open spec fn first_with_key(defs: Seq<BiomeDefinition>, key: Seq<char>, i: int) -> bool {
    &&& 0 <= i < defs.len()
    &&& defs[i].key@ == key
    &&& forall|j: int| 0 <= j < i ==> defs[j].key@ != key
}

/// The id of the first biome with key `key`.
pub fn biome_id_by_key(defs: &[BiomeDefinition], key: &str) -> (r: Option<BiomeId>)
    ensures
        match r {
            Some(id) => exists|i: int| #[trigger] first_with_key(defs@, key@, i) && defs@[i].id == id,
            None => forall|i: int| 0 <= i < defs.len() ==> (#[trigger] defs@[i]).key@ != key@,
        },
{
    let mut i: usize = 0;
    while i < defs.len()
        invariant
            i <= defs.len(),
            forall|j: int| 0 <= j < i ==> (#[trigger] defs@[j]).key@ != key@,
        decreases defs.len() - i,
    {
        if str_eq(defs[i].key.as_str(), key) {
            assert(first_with_key(defs@, key@, i as int));
            return Some(defs[i].id);
        }
        i = i + 1;
    }
    None
}

/// Overlay colour used for a biome id missing from the table.
pub open spec fn fallback_color() -> Seq<u8> {
    seq![128u8, 128u8, 128u8, 120u8]
}

/// The overlay colour of the first biome with id `id`, or the grey fallback.
pub fn biome_color(defs: &[BiomeDefinition], id: BiomeId) -> (c: [u8; 4])
    ensures
        (exists|i: int| 0 <= i < defs.len() && #[trigger] defs@[i].id == id) ==> exists|i: int|
            0 <= i < defs.len() && #[trigger] defs@[i].id == id && (forall|j: int| 0 <= j < i ==> defs@[j].id != id)
            && c == defs@[i].overlay_color,
        (forall|i: int| 0 <= i < defs.len() ==> (#[trigger] defs@[i]).id != id) ==> c@ == fallback_color(),
{
    let mut i: usize = 0;
    while i < defs.len()
        invariant
            i <= defs.len(),
            forall|j: int| 0 <= j < i ==> (#[trigger] defs@[j]).id != id,
        decreases defs.len() - i,
    {
        if defs[i].id == id {
            return defs[i].overlay_color;
        }
        i = i + 1;
    }
    let c = [128u8, 128u8, 128u8, 120u8];
    assert(c@ =~= fallback_color());
    c
}

/// A placement of width `width` centred at `cx` keeps at least `min_sp`
/// cells of gap to every placed `(centre, width)` slot:
/// `|cx - centre| >= (width + slot width) / 2 + min_sp` (division rounding
/// toward zero).
pub open spec fn spaced_from(slot: (i32, i32), cx: int, width: int, min_sp: int) -> bool {
    let dist = if cx - slot.0 >= 0 { cx - slot.0 } else { slot.0 - cx };
    let sum = width + slot.1;
    let half = if sum >= 0 { sum / 2 } else { -((-sum) / 2) };
    dist >= half + min_sp
}

/// Whether a placement keeps the minimum spacing to all placed slots.
pub fn spacing_ok(slots: &[(i32, i32)], cx: i32, width: i32, min_sp: i32) -> (r: bool)
    ensures
        r == forall|i: int| 0 <= i < slots.len() ==> spaced_from(#[trigger] slots@[i], cx as int, width as int, min_sp as int),
{
    let mut i: usize = 0;
    while i < slots.len()
        invariant
            i <= slots.len(),
            forall|j: int| 0 <= j < i ==> spaced_from(#[trigger] slots@[j], cx as int, width as int, min_sp as int),
        decreases slots.len() - i,
    {
        let (center, w) = slots[i];
        let d: i64 = (cx as i64) - (center as i64);
        let dist: i64 = if d >= 0 { d } else { -d };
        let sum: i64 = (width as i64) + (w as i64);
        let half: i64 = if sum >= 0 { sum / 2 } else { -((-sum) / 2) };
        if dist < half + (min_sp as i64) {
            return false;
        }
        i = i + 1;
    }
    true
}

/// Cell `x` of row `y` is unassigned (cells outside the map count as such).
pub open spec fn empty_at(bm: BiomeMap, y: int, x: int) -> bool {
    bm.spec_get(x, y) == BIOME_UNASSIGNED
}

/// `ranges` lists, left to right, the maximal runs `[start, end)` of
/// unassigned cells of row `y` within columns `[0, w)`.
pub open spec fn empty_runs(bm: BiomeMap, y: int, w: int, ranges: Seq<(i32, i32)>) -> bool {
    &&& forall|i: int| 0 <= i < ranges.len() ==> 0 <= (#[trigger] ranges[i]).0 < ranges[i].1 <= w
    &&& forall|i: int, x: int| #![trigger ranges[i], empty_at(bm, y, x)] 0 <= i < ranges.len() && ranges[i].0 <= x < ranges[i].1 ==> empty_at(bm, y, x)
    &&& forall|i: int| 0 <= i < ranges.len() ==> (#[trigger] ranges[i]).0 == 0 || !empty_at(bm, y, ranges[i].0 - 1)
    &&& forall|i: int| 0 <= i < ranges.len() ==> (#[trigger] ranges[i]).1 == w || !empty_at(bm, y, ranges[i].1 as int)
    &&& forall|i: int, j: int| 0 <= i < j < ranges.len() ==> (#[trigger] ranges[i]).1 < (#[trigger] ranges[j]).0
    &&& forall|x: int| 0 <= x < w && #[trigger] empty_at(bm, y, x) ==> exists|i: int| 0 <= i < ranges.len() && (#[trigger] ranges[i]).0 <= x < ranges[i].1
}

/// The maximal runs of unassigned cells of row `scan_y` over columns `[0, w)`.
pub fn scan_empty_ranges(bm: &BiomeMap, scan_y: u32, w: i32) -> (ranges: Vec<(i32, i32)>)
    requires
        bm.wf(),
    ensures
        empty_runs(*bm, scan_y as int, w as int, ranges@),
{
    let mut ranges: Vec<(i32, i32)> = Vec::new();
    let mut range_start: Option<i32> = None;
    let mut x: i32 = 0;
    while x < w
        invariant
            bm.wf(),
            0 <= x,
            x <= w || w <= 0,
            w <= 0 ==> x == 0,
            forall|i: int| 0 <= i < ranges.len() ==> 0 <= (#[trigger] ranges@[i]).0 < ranges@[i].1 <= w,
            forall|i: int| 0 <= i < ranges.len() ==> (#[trigger] ranges@[i]).1 < x,
            forall|i: int, cx: int| #![trigger ranges@[i], empty_at(*bm, scan_y as int, cx)] 0 <= i < ranges.len() && ranges@[i].0 <= cx < ranges@[i].1 ==> empty_at(*bm, scan_y as int, cx),
            forall|i: int| 0 <= i < ranges.len() ==> (#[trigger] ranges@[i]).0 == 0 || !empty_at(*bm, scan_y as int, ranges@[i].0 - 1),
            forall|i: int| 0 <= i < ranges.len() ==> !empty_at(*bm, scan_y as int, (#[trigger] ranges@[i]).1 as int),
            forall|i: int, j: int| 0 <= i < j < ranges.len() ==> (#[trigger] ranges@[i]).1 < (#[trigger] ranges@[j]).0,
            match range_start {
                Some(s) => {
                    &&& 0 <= s < x
                    &&& forall|cx: int| s <= cx < x ==> empty_at(*bm, scan_y as int, cx)
                    &&& s == 0 || !empty_at(*bm, scan_y as int, s - 1)
                    &&& forall|i: int| 0 <= i < ranges.len() ==> (#[trigger] ranges@[i]).1 < s
                    &&& forall|cx: int| 0 <= cx < s && #[trigger] empty_at(*bm, scan_y as int, cx)
                        ==> exists|i: int| 0 <= i < ranges.len() && (#[trigger] ranges@[i]).0 <= cx < ranges@[i].1
                },
                None => {
                    &&& x == 0 || !empty_at(*bm, scan_y as int, x - 1)
                    &&& forall|cx: int| 0 <= cx < x && #[trigger] empty_at(*bm, scan_y as int, cx)
                        ==> exists|i: int| 0 <= i < ranges.len() && (#[trigger] ranges@[i]).0 <= cx < ranges@[i].1
                },
            },
        decreases w - x,
    {
        let ghost old_ranges = ranges@;
        if bm.get(x as u32, scan_y) == BIOME_UNASSIGNED {
            if range_start.is_none() {
                range_start = Some(x);
            }
        } else if let Some(start) = range_start {
            ranges.push((start, x));
            range_start = None;
            proof {
                assert forall|cx: int| 0 <= cx < x + 1 && #[trigger] empty_at(*bm, scan_y as int, cx)
                    implies exists|i: int| 0 <= i < ranges.len() && (#[trigger] ranges@[i]).0 <= cx < ranges@[i].1 by {
                    if cx < start {
                        let i = choose|i: int| 0 <= i < old_ranges.len() && (#[trigger] old_ranges[i]).0 <= cx < old_ranges[i].1;
                        assert(ranges@[i] == old_ranges[i]);
                    } else {
                        assert(ranges@[old_ranges.len() as int] == (start, x));
                    }
                }
            }
        }
        x = x + 1;
    }
    if let Some(start) = range_start {
        let ghost old_ranges = ranges@;
        ranges.push((start, w));
        proof {
            assert forall|cx: int| 0 <= cx < w && #[trigger] empty_at(*bm, scan_y as int, cx)
                implies exists|i: int| 0 <= i < ranges.len() && (#[trigger] ranges@[i]).0 <= cx < ranges@[i].1 by {
                if cx < start {
                    let i = choose|i: int| 0 <= i < old_ranges.len() && (#[trigger] old_ranges[i]).0 <= cx < old_ranges[i].1;
                    assert(ranges@[i] == old_ranges[i]);
                } else {
                    assert(ranges@[old_ranges.len() as int] == (start, w));
                }
            }
        }
    }
    ranges
}

/// The candidate centres from offset `offset` on: for each offset (growing
/// by `step`) the left position `c - offset` if it is at least `lo`, then the
/// right position `c + offset` if it is at most `hi`, for as long as either
/// is in range.
pub open spec fn positions_from(c: int, lo: int, hi: int, step: int, offset: int) -> Seq<int>
    decreases hi - lo - offset + step,
{
    if offset > hi - lo || step <= 0 || !(c - offset >= lo || c + offset <= hi) {
        Seq::empty()
    } else {
        let left = if c - offset >= lo { seq![c - offset] } else { Seq::empty() };
        let right = if c + offset <= hi { seq![c + offset] } else { Seq::empty() };
        left + right + positions_from(c, lo, hi, step, offset + step)
    }
}

/// The centres tried for a true desert in a free range: the point `c`
/// closest to the world centre first, then alternately left and right of
/// it in steps of `step`, within `[lo, hi]`.
pub fn true_desert_positions(c: i32, lo: i32, hi: i32, step: i32) -> (r: Vec<i32>)
    requires
        lo <= c <= hi,
        step > 0,
    ensures
        r@.map_values(|p: i32| p as int) == seq![c as int] + positions_from(c as int, lo as int, hi as int, step as int, step as int),
{
    let mut out: Vec<i32> = Vec::new();
    out.push(c);
    let ghost full = positions_from(c as int, lo as int, hi as int, step as int, step as int);
    let mut offset: i64 = step as i64;
    while (c as i64) - offset >= (lo as i64) || (c as i64) + offset <= (hi as i64)
        invariant
            lo <= c <= hi,
            step > 0,
            step <= offset,
            offset <= (hi as int - lo as int) + step,
            seq![c as int] + full == out@.map_values(|p: i32| p as int)
                + positions_from(c as int, lo as int, hi as int, step as int, offset as int),
        decreases (hi as int - lo as int) + step - offset,
    {
        let ghost before = out@;
        let ghost rest = positions_from(c as int, lo as int, hi as int, step as int, offset as int);
        proof {
            assert(offset <= hi as int - lo as int);
        }
        if (c as i64) - offset >= (lo as i64) {
            out.push(((c as i64) - offset) as i32);
        }
        if (c as i64) + offset <= (hi as i64) {
            out.push(((c as i64) + offset) as i32);
        }
        proof {
            let left = if c - offset >= lo { seq![c - offset] } else { Seq::<int>::empty() };
            let right = if c + offset <= hi { seq![c + offset] } else { Seq::<int>::empty() };
            assert(rest == left + right + positions_from(c as int, lo as int, hi as int, step as int, offset + step));
            assert(out@.map_values(|p: i32| p as int) =~= before.map_values(|p: i32| p as int) + left + right);
            assert(before.map_values(|p: i32| p as int) + rest =~= out@.map_values(|p: i32| p as int)
                + positions_from(c as int, lo as int, hi as int, step as int, offset + step));
        }
        offset = offset + (step as i64);
    }
    proof {
        assert(positions_from(c as int, lo as int, hi as int, step as int, offset as int) =~= Seq::<int>::empty());
        assert(out@.map_values(|p: i32| p as int) + Seq::<int>::empty() =~= out@.map_values(|p: i32| p as int));
    }
    out
}

} // verus!
