use vstd::prelude::*;

use crate::base::biome::{BiomeDefinition, BiomeMap};
use crate::base::block::BlockDefinition;
use crate::base::color::ColorRgba;
use crate::base::world::{cell_index, lemma_cell_index_bounds, World};

verus! {

/// Colour of a block id no definition covers: opaque magenta.
pub open spec fn missing_block_color() -> ColorRgba {
    ColorRgba { r: 255, g: 0, b: 255, a: 255 }
}

/// A fully transparent colour.
pub open spec fn transparent() -> ColorRgba {
    ColorRgba { r: 0, g: 0, b: 0, a: 0 }
}

/// The colour the block table gives id `id`: that of the last definition
/// with this id.
pub open spec fn block_color(blocks: Seq<BlockDefinition>, id: int) -> Option<ColorRgba>
    decreases blocks.len(),
{
    if blocks.len() == 0 {
        None
    } else if blocks.last().id == id {
        Some(blocks.last().color)
    } else {
        block_color(blocks.drop_last(), id)
    }
}

/// The overlay colour the biome table gives id `id`: that of the last
/// definition with this id, transparent when none has it.
pub open spec fn overlay_color(defs: Seq<BiomeDefinition>, id: int) -> ColorRgba
    decreases defs.len(),
{
    if defs.len() == 0 {
        transparent()
    } else if defs.last().id == id {
        let c = defs.last().overlay_color;
        ColorRgba { r: c[0], g: c[1], b: c[2], a: c[3] }
    } else {
        overlay_color(defs.drop_last(), id)
    }
}

/// A `width` by `height` image, pixels stored row by row.
#[derive(Clone, Debug)]
pub struct PixelImage {
    pub width: usize,
    pub height: usize,
    pub pixels: Vec<ColorRgba>,
}

/// The colour of each block id (indices 0 to 255): `Some` for ids the table
/// defines, the last definition winning.
pub fn build_color_map(blocks: &[BlockDefinition]) -> (map: Vec<Option<ColorRgba>>)
    ensures
        map.len() == 256,
        forall|id: int| 0 <= id < 256 ==> #[trigger] map@[id] == block_color(blocks@, id),
{
    let mut map: Vec<Option<ColorRgba>> = Vec::new();
    let mut k: usize = 0;
    while k < 256
        invariant
            k <= 256,
            map.len() == k,
            forall|id: int| 0 <= id < k ==> #[trigger] map@[id] is None,
        decreases 256 - k,
    {
        map.push(None);
        k = k + 1;
    }
    let mut i: usize = 0;
    while i < blocks.len()
        invariant
            i <= blocks.len(),
            map.len() == 256,
            forall|id: int| 0 <= id < 256 ==> #[trigger] map@[id] == block_color(blocks@.take(i as int), id),
        decreases blocks.len() - i,
    {
        let b = &blocks[i];
        map.set(b.id as usize, Some(b.color));
        proof {
            let t = blocks@.take(i as int + 1);
            assert(t.drop_last() =~= blocks@.take(i as int));
            assert(t.last() == blocks@[i as int]);
        }
        i = i + 1;
    }
    assert(blocks@.take(blocks.len() as int) =~= blocks@);
    map
}

/// The lookup table from block id to display colour: the mapped colour, or
/// [`missing_block_color`] for ids the map leaves out.
pub fn build_color_lut(colors: &Vec<Option<ColorRgba>>) -> (lut: Vec<ColorRgba>)
    requires
        colors.len() == 256,
    ensures
        lut.len() == 256,
        forall|id: int| 0 <= id < 256 ==> #[trigger] lut@[id] == match colors@[id] {
            Some(c) => c,
            None => missing_block_color(),
        },
{
    let mut lut: Vec<ColorRgba> = Vec::new();
    let mut k: usize = 0;
    while k < 256
        invariant
            k <= 256,
            colors.len() == 256,
            lut.len() == k,
            forall|id: int| 0 <= id < k ==> #[trigger] lut@[id] == match colors@[id] {
                Some(c) => c,
                None => missing_block_color(),
            },
        decreases 256 - k,
    {
        let c = match colors[k] {
            Some(c) => c,
            None => ColorRgba { r: 255, g: 0, b: 255, a: 255 },
        };
        lut.push(c);
        k = k + 1;
    }
    lut
}

/// The world drawn with one pixel per cell, each the colour of its block.
pub fn world_to_color_image(world: &World, lut: &Vec<ColorRgba>) -> (img: PixelImage)
    requires
        world.wf(),
        world.width > 0,
        lut.len() == 256,
    ensures
        img.width == world.width,
        img.height == world.height,
        img.pixels.len() == world.tiles.len(),
        forall|i: int| 0 <= i < img.pixels.len() ==> #[trigger] img.pixels@[i] == lut@[world.tiles@[i] as int],
{
    let n = world.tiles.len();
    let mut pixels: Vec<ColorRgba> = Vec::with_capacity(n);
    let mut i: usize = 0;
    while i < n
        invariant
            n == world.tiles.len(),
            lut.len() == 256,
            i <= n,
            pixels.len() == i,
            forall|k: int| 0 <= k < i ==> #[trigger] pixels@[k] == lut@[world.tiles@[k] as int],
        decreases n - i,
    {
        pixels.push(lut[world.tiles[i] as usize]);
        i = i + 1;
    }
    PixelImage { width: world.width as usize, height: world.height as usize, pixels }
}

/// The biome map drawn with one pixel per cell, each the overlay colour of
/// its biome (transparent for ids no definition has).
pub fn biome_overlay_image(biome_map: &BiomeMap, biome_definitions: &[BiomeDefinition]) -> (img: PixelImage)
    requires
        biome_map.wf(),
        biome_map.width > 0,
    ensures
        img.width == biome_map.width,
        img.height == biome_map.height,
        img.pixels.len() == biome_map.spec_data().len(),
        forall|i: int| 0 <= i < img.pixels.len() ==> #[trigger] img.pixels@[i] == overlay_color(
            biome_definitions@,
            biome_map.spec_data()[i] as int,
        ),
{
    let mut lut: Vec<ColorRgba> = Vec::new();
    let mut k: usize = 0;
    while k < 256
        invariant
            k <= 256,
            lut.len() == k,
            forall|id: int| 0 <= id < k ==> #[trigger] lut@[id] == transparent(),
        decreases 256 - k,
    {
        lut.push(ColorRgba { r: 0, g: 0, b: 0, a: 0 });
        k = k + 1;
    }
    let mut d: usize = 0;
    while d < biome_definitions.len()
        invariant
            d <= biome_definitions.len(),
            lut.len() == 256,
            forall|id: int| 0 <= id < 256 ==> #[trigger] lut@[id] == overlay_color(biome_definitions@.take(d as int), id),
        decreases biome_definitions.len() - d,
    {
        let c = biome_definitions[d].overlay_color;
        lut.set(biome_definitions[d].id as usize, ColorRgba { r: c[0], g: c[1], b: c[2], a: c[3] });
        proof {
            let t = biome_definitions@.take(d as int + 1);
            assert(t.drop_last() =~= biome_definitions@.take(d as int));
            assert(t.last() == biome_definitions@[d as int]);
        }
        d = d + 1;
    }
    assert(biome_definitions@.take(biome_definitions.len() as int) =~= biome_definitions@);
    let data = biome_map.data();
    let n = data.len();
    let mut pixels: Vec<ColorRgba> = Vec::with_capacity(n);
    let mut i: usize = 0;
    while i < n
        invariant
            n == data@.len(),
            data@ == biome_map.spec_data(),
            lut.len() == 256,
            forall|id: int| 0 <= id < 256 ==> #[trigger] lut@[id] == overlay_color(biome_definitions@, id),
            i <= n,
            pixels.len() == i,
            forall|k: int| 0 <= k < i ==> #[trigger] pixels@[k] == overlay_color(biome_definitions@, data@[k] as int),
        decreases n - i,
    {
        pixels.push(lut[data[i] as usize]);
        i = i + 1;
    }
    PixelImage { width: biome_map.width as usize, height: biome_map.height as usize, pixels }
}

/// `a` divided by `f`, rounded up.
pub open spec fn ceil_div(a: int, f: int) -> int {
    (a + f - 1) / f
}

/// In a row-major grid `width` wide, a cell of an earlier row, or earlier
/// in the same row, comes first.
proof fn lemma_row_major_order(width: int, px: int, py: int, ox: int, oy: int)
    requires
        0 <= px < width,
        0 <= py,
        0 <= ox,
        py < oy || (py == oy && px < ox),
    ensures
        cell_index(width, px, py) < cell_index(width, ox, oy),
{
    if py < oy {
        assert(py * width + width <= oy * width) by (nonlinear_arith)
            requires py < oy, 0 <= width;
    }
}

/// Dividing by at least 1 and rounding up gives at most the dividend.
proof fn lemma_ceil_div_bounds(a: int, f: int)
    requires
        a >= 0,
        f >= 1,
    ensures
        0 <= ceil_div(a, f) <= a,
        ceil_div(a, f) * f <= a + f - 1,
{
    let q = ceil_div(a, f);
    vstd::arithmetic::div_mod::lemma_fundamental_div_mod(a + f - 1, f);
    vstd::arithmetic::div_mod::lemma_div_pos_is_pos(a + f - 1, f);
    assert(q * f <= a + f - 1);
    assert(q <= a) by (nonlinear_arith)
        requires q * f <= a + f - 1, f >= 1, q >= 0, a >= 0;
}

/// A pixel of the reduced image samples a cell inside the world.
proof fn lemma_sample_in_range(a: int, f: int, o: int)
    requires
        a >= 0,
        f >= 1,
        0 <= o < ceil_div(a, f),
    ensures
        0 <= o * f < a,
{
    let q = ceil_div(a, f);
    lemma_ceil_div_bounds(a, f);
    assert(o * f + f <= q * f) by (nonlinear_arith)
        requires o + 1 <= q, f >= 1;
    assert(0 <= o * f) by (nonlinear_arith)
        requires o >= 0, f >= 1;
}

/// The world drawn at reduced size: each pixel stands for a `factor` by
/// `factor` block of cells and takes the colour of its top-left cell. A
/// factor of 0 or 1 draws every cell.
pub fn world_to_color_image_downsampled(world: &World, lut: &Vec<ColorRgba>, factor: u32) -> (img: PixelImage)
    requires
        world.wf(),
        world.width > 0,
        lut.len() == 256,
    ensures
        factor <= 1 ==> img.width == world.width && img.height == world.height && img.pixels.len()
            == world.tiles.len() && forall|i: int| 0 <= i < img.pixels.len() ==> #[trigger] img.pixels@[i]
            == lut@[world.tiles@[i] as int],
        factor > 1 ==> img.width == ceil_div(world.width as int, factor as int) && img.height == ceil_div(
            world.height as int,
            factor as int,
        ) && img.pixels.len() == img.width * img.height && forall|ox: int, oy: int|
            0 <= ox < img.width && 0 <= oy < img.height ==> #[trigger] img.pixels@[cell_index(img.width as int, ox, oy)]
                == lut@[world.cell(ox * factor, oy * factor) as int],
{
    if factor <= 1 {
        return world_to_color_image(world, lut);
    }
    let ghost wi = world.width as int;
    let ghost hi = world.height as int;
    let ghost fi = factor as int;
    let f = factor as usize;
    let w = world.width as usize;
    let h = world.height as usize;
    proof {
        lemma_ceil_div_bounds(wi, fi);
        lemma_ceil_div_bounds(hi, fi);
    }
    let qw: u64 = (world.width as u64 + factor as u64 - 1) / (factor as u64);
    let qh: u64 = (world.height as u64 + factor as u64 - 1) / (factor as u64);
    assert(qw == ceil_div(wi, fi));
    assert(qh == ceil_div(hi, fi));
    let out_w = qw as usize;
    let out_h = qh as usize;
    proof {
        assert(out_w * out_h <= wi * hi) by (nonlinear_arith)
            requires out_w <= wi, out_h <= hi, 0 <= out_w, 0 <= out_h;
    }
    let mut pixels: Vec<ColorRgba> = Vec::new();
    let mut oy: usize = 0;
    while oy < out_h
        invariant
            world.wf(),
            wi == world.width,
            hi == world.height,
            fi == factor,
            fi >= 2,
            f == fi,
            w == wi,
            h == hi,
            lut.len() == 256,
            out_w == ceil_div(wi, fi),
            out_h == ceil_div(hi, fi),
            out_w * out_h <= wi * hi,
            oy <= out_h,
            pixels.len() == cell_index(out_w as int, 0, oy as int),
            forall|px: int, py: int| 0 <= px < out_w && 0 <= py < oy ==> #[trigger] pixels@[cell_index(
                out_w as int,
                px,
                py,
            )] == lut@[world.cell(px * fi, py * fi) as int],
        decreases out_h - oy,
    {
        proof {
            lemma_sample_in_range(hi, fi, oy as int);
        }
        let src_y = oy * f;
        let mut ox: usize = 0;
        while ox < out_w
            invariant
                world.wf(),
                wi == world.width,
                hi == world.height,
                fi == factor,
                fi >= 2,
                f == fi,
                w == wi,
                h == hi,
                lut.len() == 256,
                out_w == ceil_div(wi, fi),
                out_h == ceil_div(hi, fi),
                out_w * out_h <= wi * hi,
                oy < out_h,
                src_y == oy * fi,
                0 <= src_y < hi,
                ox <= out_w,
                pixels.len() == cell_index(out_w as int, ox as int, oy as int),
                forall|px: int, py: int| 0 <= px < out_w && 0 <= py && (py < oy || (py == oy && px < ox))
                    ==> #[trigger] pixels@[cell_index(out_w as int, px, py)] == lut@[world.cell(px * fi, py * fi) as int],
            decreases out_w - ox,
        {
            proof {
                lemma_sample_in_range(wi, fi, ox as int);
                lemma_cell_index_bounds(wi, hi, (ox * f) as int, src_y as int);
            }
            let src_x = ox * f;
            let idx = src_y * w + src_x;
            let ghost before = pixels@;
            pixels.push(lut[world.tiles[idx] as usize]);
            proof {
                assert forall|px: int, py: int| 0 <= px < out_w && 0 <= py && (py < oy || (py == oy && px < ox + 1))
                    implies #[trigger] pixels@[cell_index(out_w as int, px, py)] == lut@[world.cell(px * fi, py * fi) as int] by {
                    if py < oy || (py == oy && px < ox) {
                        lemma_row_major_order(out_w as int, px, py, ox as int, oy as int);
                        assert(pixels@[cell_index(out_w as int, px, py)] == before[cell_index(out_w as int, px, py)]);
                    } else {
                        assert(px == ox && py == oy);
                    }
                }
            }
            ox = ox + 1;
        }
        assert(cell_index(out_w as int, out_w as int, oy as int) == cell_index(out_w as int, 0, oy as int + 1)) by (nonlinear_arith)
            requires out_w >= 0;
        oy = oy + 1;
    }
    assert(pixels.len() == out_w * out_h) by (nonlinear_arith)
        requires pixels.len() == out_h * out_w + 0;
    PixelImage { width: out_w, height: out_h, pixels }
}

/// The pixels of rows `[y_start, y_end)` of the world (cut at its height),
/// row by row: pixel `i` shows cell `y_start * width + i`.
pub fn world_rows_to_color_pixels(world: &World, lut: &Vec<ColorRgba>, y_start: usize, y_end: usize)
    -> (r: Vec<ColorRgba>)
    requires
        world.wf(),
        world.width > 0,
        lut.len() == 256,
    ensures
        ({
            let ye = if y_end <= world.height { y_end as int } else { world.height as int };
            let rows = if ye > y_start { ye - y_start } else { 0 };
            &&& r.len() == world.width * rows
            &&& forall|i: int| 0 <= i < r.len() ==> #[trigger] r@[i] == lut@[world.tiles@[y_start * world.width + i]
                as int]
        }),
{
    let w = world.width as usize;
    let h = world.height as usize;
    let ye = if y_end <= h { y_end } else { h };
    let mut out: Vec<ColorRgba> = Vec::new();
    if ye <= y_start {
        return out;
    }
    let ghost rows = ye - y_start;
    proof {
        lemma_cell_index_bounds(w as int, h as int, 0, y_start as int);
        assert(w * rows + y_start * w <= w * h) by (nonlinear_arith)
            requires rows == ye - y_start, ye <= h, 0 <= w;
    }
    let start = y_start * w;
    let total = w * (ye - y_start);
    let mut i: usize = 0;
    while i < total
        invariant
            world.wf(),
            w == world.width,
            lut.len() == 256,
            start == y_start * w,
            total == w * rows,
            start + total <= world.tiles.len(),
            i <= total,
            out.len() == i,
            forall|k: int| 0 <= k < i ==> #[trigger] out@[k] == lut@[world.tiles@[start + k] as int],
        decreases total - i,
    {
        out.push(lut[world.tiles[start + i] as usize]);
        i = i + 1;
    }
    out
}

} // verus!
