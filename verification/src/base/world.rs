use vstd::prelude::*;

use crate::base::layer::{all_layers_valid, build_layers, layer_error, layers_built, LayerDefinition};
use crate::base::CoreError;
use crate::config::world::{WorldConfig, WorldSize};
use crate::text::str_eq;

verus! {

/// Block id of air, the block a fresh world is filled with.
pub const AIR_BLOCK_ID: u8 = 1;

/// Row-major position of cell `(x, y)` in a grid `width` cells wide.
pub open spec fn cell_index(width: int, x: int, y: int) -> int {
    y * width + x
}

/// A rectangular grid of block ids, stored row by row.
#[derive(Clone, Debug)]
pub struct World {
    pub width: u32,
    pub height: u32,
    pub tiles: Vec<u8>,
}

impl World {
    /// The tile vector holds exactly one entry per cell.
    pub open spec fn wf(&self) -> bool {
        self.tiles.len() == self.width * self.height
    }

    /// `(x, y)` lies inside the grid.
    pub open spec fn spec_in_bounds(&self, x: int, y: int) -> bool {
        0 <= x < self.width && 0 <= y < self.height
    }

    /// The block id stored at `(x, y)`.
    pub open spec fn cell(&self, x: int, y: int) -> u8 {
        self.tiles@[cell_index(self.width as int, x, y)]
    }

    /// A `width` by `height` world in which every cell holds `block_id`.
    pub fn new_filled(width: u32, height: u32, block_id: u8) -> (w: World)
        requires
            width * height <= usize::MAX,
        ensures
            w.wf(),
            w.width == width,
            w.height == height,
            forall|i: int| 0 <= i < w.tiles.len() ==> w.tiles@[i] == block_id,
    {
        let len = (width as usize) * (height as usize);
        let mut tiles: Vec<u8> = Vec::with_capacity(len);
        let mut i: usize = 0;
        while i < len
            invariant
                i <= len,
                tiles.len() == i,
                forall|k: int| 0 <= k < tiles.len() ==> tiles@[k] == block_id,
            decreases len - i,
        {
            tiles.push(block_id);
            i = i + 1;
        }
        World { width, height, tiles }
    }

    /// A `width` by `height` world made only of air.
    pub fn new_air(width: u32, height: u32) -> (w: World)
        requires
            width * height <= usize::MAX,
        ensures
            w.wf(),
            w.width == width,
            w.height == height,
            forall|i: int| 0 <= i < w.tiles.len() ==> w.tiles@[i] == AIR_BLOCK_ID,
    {
        Self::new_filled(width, height, AIR_BLOCK_ID)
    }

    /// The block at `(x, y)`, or `None` outside the grid.
    pub fn get(&self, x: u32, y: u32) -> (r: Option<u8>)
        requires
            self.wf(),
        ensures
            r == (if self.spec_in_bounds(x as int, y as int) {
                Some(self.cell(x as int, y as int))
            } else {
                None
            }),
    {
        if x < self.width && y < self.height {
            proof { lemma_cell_index_bounds(self.width as int, self.height as int, x as int, y as int); }
            Some(self.tiles[(y as usize) * (self.width as usize) + (x as usize)])
        } else {
            None
        }
    }

    /// The block at `(x, y)`, or air outside the grid.
    pub fn get_or_air(&self, x: u32, y: u32) -> (r: u8)
        requires
            self.wf(),
        ensures
            r == (if self.spec_in_bounds(x as int, y as int) {
                self.cell(x as int, y as int)
            } else {
                AIR_BLOCK_ID
            }),
    {
        match self.get(x, y) {
            Some(b) => b,
            None => AIR_BLOCK_ID,
        }
    }

    /// Writes `block_id` at `(x, y)`; positions outside the grid are ignored.
    pub fn set(&mut self, x: u32, y: u32, block_id: u8)
        requires
            old(self).wf(),
        ensures
            final(self).wf(),
            final(self).width == old(self).width,
            final(self).height == old(self).height,
            final(self).tiles@ == (if old(self).spec_in_bounds(x as int, y as int) {
                old(self).tiles@.update(cell_index(old(self).width as int, x as int, y as int), block_id)
            } else {
                old(self).tiles@
            }),
            forall|qx: int, qy: int| old(self).spec_in_bounds(qx, qy) ==> #[trigger] final(self).cell(qx, qy) == if qx
                == x && qy == y {
                block_id
            } else {
                old(self).cell(qx, qy)
            },
    {
        let ghost before = *self;
        if x < self.width && y < self.height {
            proof { lemma_cell_index_bounds(self.width as int, self.height as int, x as int, y as int); }
            let idx = (y as usize) * (self.width as usize) + (x as usize);
            self.tiles.set(idx, block_id);
        }
        proof {
            assert forall|qx: int, qy: int| before.spec_in_bounds(qx, qy) implies #[trigger] self.cell(qx, qy) == if qx
                == x && qy == y {
                block_id
            } else {
                before.cell(qx, qy)
            } by {
                lemma_cell_index_bounds(before.width as int, before.height as int, qx, qy);
                if before.spec_in_bounds(x as int, y as int) {
                    lemma_cell_index_injective(before.width as int, before.height as int, qx, qy, x as int, y as int);
                }
            }
        }
    }

    /// Fills the cells of `[x0, x1) x [y0, y1)` that lie inside the grid.
    pub fn fill_rect(&mut self, x0: u32, y0: u32, x1: u32, y1: u32, block_id: u8)
        requires
            old(self).wf(),
            spec_min(x0 as int, old(self).width as int) <= spec_min(x1 as int, old(self).width as int),
            spec_min(y0 as int, old(self).height as int) <= spec_min(y1 as int, old(self).height as int),
        ensures
            final(self).wf(),
            final(self).width == old(self).width,
            final(self).height == old(self).height,
            forall|x: int, y: int| old(self).spec_in_bounds(x, y) ==> #[trigger] final(self).cell(x, y) == (
                if x0 <= x < x1 && y0 <= y < y1 { block_id } else { old(self).cell(x, y) }),
    {
        let ghost w0 = self.width as int;
        let ghost h0 = self.height as int;
        let ghost before = self.tiles@;
        let xs = if x0 < self.width { x0 } else { self.width } as usize;
        let xe = if x1 < self.width { x1 } else { self.width } as usize;
        let ys = if y0 < self.height { y0 } else { self.height } as usize;
        let ye = if y1 < self.height { y1 } else { self.height } as usize;
        let w = self.width as usize;
        let mut y = ys;
        while y < ye
            invariant
                ys <= y <= ye <= h0,
                xs <= xe <= w == w0,
                self.width == w0,
                self.height == h0,
                self.tiles.len() == w0 * h0,
                before.len() == w0 * h0,
                ys == spec_min(y0 as int, h0),
                ye == spec_min(y1 as int, h0),
                xs == spec_min(x0 as int, w0),
                xe == spec_min(x1 as int, w0),
                forall|cx: int, cy: int| 0 <= cx < w0 && 0 <= cy < h0 ==> #[trigger] self.tiles@[cell_index(w0, cx, cy)] == (
                    if xs <= cx < xe && ys <= cy < y { block_id } else { before[cell_index(w0, cx, cy)] }),
            decreases ye - y,
        {
            assert(y * w <= w0 * h0) by (nonlinear_arith)
                requires y < h0, w == w0, 0 <= w0;
            let row_start = y * w;
            let mut x = xs;
            while x < xe
                invariant
                    ys <= y < ye <= h0,
                    xs <= x <= xe <= w == w0,
                    row_start == y * w,
                    self.width == w0,
                    self.height == h0,
                    self.tiles.len() == w0 * h0,
                    forall|cx: int, cy: int| 0 <= cx < w0 && 0 <= cy < h0 ==> #[trigger] self.tiles@[cell_index(w0, cx, cy)] == (
                        if (xs <= cx < xe && ys <= cy < y) || (xs <= cx < x && cy == y) { block_id } else { before[cell_index(w0, cx, cy)] }),
                decreases xe - x,
            {
                proof { lemma_cell_index_bounds(w0, h0, x as int, y as int); }
                let ghost prev = self.tiles@;
                self.tiles.set(row_start + x, block_id);
                proof {
                    assert forall|cx: int, cy: int| 0 <= cx < w0 && 0 <= cy < h0 implies #[trigger] self.tiles@[cell_index(w0, cx, cy)] == (
                        if (xs <= cx < xe && ys <= cy < y) || (xs <= cx < x + 1 && cy == y) { block_id } else { before[cell_index(w0, cx, cy)] }) by {
                        lemma_cell_index_bounds(w0, h0, cx, cy);
                        lemma_cell_index_injective(w0, h0, cx, cy, x as int, y as int);
                        assert(prev[cell_index(w0, cx, cy)] == (
                            if (xs <= cx < xe && ys <= cy < y) || (xs <= cx < x && cy == y) { block_id } else { before[cell_index(w0, cx, cy)] }));
                    }
                }
                x = x + 1;
            }
            y = y + 1;
        }
    }

    /// Fills column `x` over rows `[y_start, y_end)` clipped to the grid; a column outside the grid is ignored.
    pub fn fill_column(&mut self, x: u32, y_start: u32, y_end: u32, block_id: u8)
        requires
            old(self).wf(),
        ensures
            final(self).wf(),
            final(self).width == old(self).width,
            final(self).height == old(self).height,
            forall|cx: int, cy: int| old(self).spec_in_bounds(cx, cy) ==> #[trigger] final(self).cell(cx, cy) == (
                if cx == x && y_start <= cy < y_end { block_id } else { old(self).cell(cx, cy) }),
    {
        if x >= self.width {
            return;
        }
        let ghost w0 = self.width as int;
        let ghost h0 = self.height as int;
        let ghost before = self.tiles@;
        let ys = if y_start < self.height { y_start } else { self.height };
        let ye = if y_end < self.height { y_end } else { self.height };
        let mut y = ys;
        while y < ye
            invariant
                ys <= y,
                y <= ye || y == ys,
                ye <= h0,
                x < w0,
                ys == spec_min(y_start as int, h0),
                ye == spec_min(y_end as int, h0),
                self.width == w0,
                self.height == h0,
                self.tiles.len() == w0 * h0,
                forall|cx: int, cy: int| 0 <= cx < w0 && 0 <= cy < h0 ==> #[trigger] self.tiles@[cell_index(w0, cx, cy)] == (
                    if cx == x && ys <= cy < y { block_id } else { before[cell_index(w0, cx, cy)] }),
            decreases ye - y,
        {
            proof { lemma_cell_index_bounds(w0, h0, x as int, y as int); }
            let idx = (y as usize) * (self.width as usize) + (x as usize);
            let ghost prev = self.tiles@;
            self.tiles.set(idx, block_id);
            proof {
                assert forall|cx: int, cy: int| 0 <= cx < w0 && 0 <= cy < h0 implies #[trigger] self.tiles@[cell_index(w0, cx, cy)] == (
                    if cx == x && ys <= cy < y + 1 { block_id } else { before[cell_index(w0, cx, cy)] }) by {
                    lemma_cell_index_bounds(w0, h0, cx, cy);
                    lemma_cell_index_injective(w0, h0, cx, cy, x as int, y as int);
                    assert(prev[cell_index(w0, cx, cy)] == (
                        if cx == x && ys <= cy < y { block_id } else { before[cell_index(w0, cx, cy)] }));
                }
            }
            y = y + 1;
        }
        assert forall|cx: int, cy: int| old(self).spec_in_bounds(cx, cy) implies #[trigger] self.cell(cx, cy) == (
            if cx == x && y_start <= cy < y_end { block_id } else { old(self).cell(cx, cy) }) by {
            assert(self.tiles@[cell_index(w0, cx, cy)] == (
                if cx == x && ys <= cy < y { block_id } else { before[cell_index(w0, cx, cy)] }));
            assert((ys <= cy < y) == (y_start <= cy < y_end));
            assert(self.cell(cx, cy) == self.tiles@[cell_index(w0, cx, cy)]);
            assert(old(self).cell(cx, cy) == before[cell_index(w0, cx, cy)]);
        }
    }

    /// Replaces every tile of rows `[y_start, y_end)` (clipped to the grid)
    /// by `f(x, y, tile)`, row by row.
    pub fn for_each_in_rows<F: Fn(u32, u32, u8) -> u8>(&mut self, y_start: u32, y_end: u32, f: F)
        requires
            old(self).wf(),
            forall|x: u32, y: u32, t: u8| call_requires(f, (x, y, t)),
        ensures
            final(self).wf(),
            final(self).width == old(self).width,
            final(self).height == old(self).height,
            forall|x: int, y: int| old(self).spec_in_bounds(x, y) ==> (
                if y_start <= y < y_end {
                    call_ensures(f, (x as u32, y as u32, old(self).cell(x, y)), #[trigger] final(self).cell(x, y))
                } else {
                    final(self).cell(x, y) == old(self).cell(x, y)
                }),
    {
        let ghost w0 = self.width as int;
        let ghost h0 = self.height as int;
        let ghost before = self.tiles@;
        let ys = if y_start < self.height { y_start } else { self.height };
        let ye = if y_end < self.height { y_end } else { self.height };
        let mut y = ys;
        while y < ye
            invariant
                ys <= y,
                y <= ye || y == ys,
                ye <= h0,
                ys == spec_min(y_start as int, h0),
                ye == spec_min(y_end as int, h0),
                self.width == w0,
                self.height == h0,
                self.tiles.len() == w0 * h0,
                before.len() == w0 * h0,
                forall|x: u32, y: u32, t: u8| call_requires(f, (x, y, t)),
                forall|cx: int, cy: int| 0 <= cx < w0 && 0 <= cy < h0 ==> (
                    if ys <= cy < y {
                        call_ensures(f, (cx as u32, cy as u32, before[cell_index(w0, cx, cy)]), #[trigger] self.tiles@[cell_index(w0, cx, cy)])
                    } else {
                        self.tiles@[cell_index(w0, cx, cy)] == before[cell_index(w0, cx, cy)]
                    }),
            decreases ye - y,
        {
            let mut x: u32 = 0;
            while x < self.width
                invariant
                    ys <= y < ye <= h0,
                    x <= w0,
                    self.width == w0,
                    self.height == h0,
                    self.tiles.len() == w0 * h0,
                    forall|x: u32, y: u32, t: u8| call_requires(f, (x, y, t)),
                    forall|cx: int, cy: int| 0 <= cx < w0 && 0 <= cy < h0 ==> (
                        if (ys <= cy < y) || (cy == y && cx < x) {
                            call_ensures(f, (cx as u32, cy as u32, before[cell_index(w0, cx, cy)]), #[trigger] self.tiles@[cell_index(w0, cx, cy)])
                        } else {
                            self.tiles@[cell_index(w0, cx, cy)] == before[cell_index(w0, cx, cy)]
                        }),
                decreases w0 - x,
            {
                proof { lemma_cell_index_bounds(w0, h0, x as int, y as int); }
                let idx = (y as usize) * (self.width as usize) + (x as usize);
                let ghost prev = self.tiles@;
                let t = self.tiles[idx];
                let v = f(x, y, t);
                self.tiles.set(idx, v);
                proof {
                    assert forall|cx: int, cy: int| 0 <= cx < w0 && 0 <= cy < h0 implies (
                        if (ys <= cy < y) || (cy == y && cx < x + 1) {
                            call_ensures(f, (cx as u32, cy as u32, before[cell_index(w0, cx, cy)]), #[trigger] self.tiles@[cell_index(w0, cx, cy)])
                        } else {
                            self.tiles@[cell_index(w0, cx, cy)] == before[cell_index(w0, cx, cy)]
                        }) by {
                        lemma_cell_index_bounds(w0, h0, cx, cy);
                        lemma_cell_index_injective(w0, h0, cx, cy, x as int, y as int);
                        if cx == x && cy == y {
                            assert(prev[cell_index(w0, cx, cy)] == before[cell_index(w0, cx, cy)]);
                        } else {
                            assert(self.tiles@[cell_index(w0, cx, cy)] == prev[cell_index(w0, cx, cy)]);
                        }
                    }
                }
                x = x + 1;
            }
            y = y + 1;
        }
        assert forall|cx: int, cy: int| old(self).spec_in_bounds(cx, cy) implies (
            if y_start <= cy < y_end {
                call_ensures(f, (cx as u32, cy as u32, old(self).cell(cx, cy)), #[trigger] self.cell(cx, cy))
            } else {
                self.cell(cx, cy) == old(self).cell(cx, cy)
            }) by {
            assert((ys <= cy < y) == (y_start <= cy < y_end));
        }
    }

    /// Whether `(x, y)` lies inside the grid.
    pub fn in_bounds(&self, x: u32, y: u32) -> (r: bool)
        ensures
            r == self.spec_in_bounds(x as int, y as int),
    {
        x < self.width && y < self.height
    }
}

/// A resolved world size.
#[derive(Clone, Debug)]
pub struct WorldSizeSpec {
    pub key: String,
    pub width: u32,
    pub height: u32,
    pub description: String,
}

/// A world size together with its layers.
#[derive(Clone, Debug)]
pub struct WorldProfile {
    pub size: WorldSizeSpec,
    pub layers: Vec<LayerDefinition>,
}

/// The entry at `i` is the first one in `entries` with key `key`.
pub open spec fn is_first_key<V>(entries: Seq<(String, V)>, key: Seq<char>, i: int) -> bool {
    &&& 0 <= i < entries.len()
    &&& entries[i].0@ == key
    &&& forall|j: int| 0 <= j < i ==> entries[j].0@ != key
}

/// Some entry of `entries` has key `key`.
pub open spec fn has_key<V>(entries: Seq<(String, V)>, key: Seq<char>) -> bool {
    exists|i: int| 0 <= i < entries.len() && #[trigger] entries[i].0@ == key
}

/// The size chosen for key `key`: the given custom size for `custom`, the
/// configured one otherwise; `None` unless both sides are positive.
pub open spec fn resolved_size(key: Seq<char>, cfg: WorldSize, custom: Option<(u32, u32)>) -> Option<(u32, u32)> {
    if key == "custom"@ {
        match custom {
            Some((w, h)) => if w > 0 && h > 0 { Some((w, h)) } else { None },
            None => None,
        }
    } else {
        match (cfg.width, cfg.height) {
            (Some(w), Some(h)) => if w > 0 && h > 0 { Some((w, h)) } else { None },
            _ => None,
        }
    }
}

fn resolve_size(size_key: &str, size_cfg: &WorldSize, custom_size: Option<(u32, u32)>) -> (r: Result<(u32, u32), CoreError>)
    ensures
        match resolved_size(size_key@, *size_cfg, custom_size) {
            Some(wh) => r == Ok::<(u32, u32), CoreError>(wh),
            None => r matches Err(CoreError::InvalidCustomSize),
        },
{
    if str_eq(size_key, "custom") {
        if let Some((width, height)) = custom_size {
            if width > 0 && height > 0 {
                return Ok((width, height));
            }
        }
        return Err(CoreError::InvalidCustomSize);
    }
    match (size_cfg.width, size_cfg.height) {
        (Some(width), Some(height)) => {
            if width > 0 && height > 0 {
                Ok((width, height))
            } else {
                Err(CoreError::InvalidCustomSize)
            }
        },
        _ => Err(CoreError::InvalidCustomSize),
    }
}

impl WorldProfile {
    /// Resolves world size `size_key` (with `custom_size` for the `custom`
    /// key) and builds the layers.
    pub fn from_config(config: &WorldConfig, size_key: &str, custom_size: Option<(u32, u32)>) -> (r: Result<WorldProfile, CoreError>)
        requires
            config.wf(),
        ensures
            !has_key(config.world_sizes@, size_key@) ==> (r matches Err(CoreError::MissingWorldSize(k)) && k@ == size_key@),
            forall|i: int| #[trigger] is_first_key(config.world_sizes@, size_key@, i) ==> {
                let cfg = config.world_sizes@[i].1;
                match resolved_size(size_key@, cfg, custom_size) {
                    None => r matches Err(CoreError::InvalidCustomSize),
                    Some((w, h)) => if all_layers_valid(config) {
                        r matches Ok(p) && p.size.key@ == size_key@ && p.size.width == w && p.size.height == h
                            && p.size.description@ == cfg.description@ && layers_built(config, p.layers@)
                    } else {
                        r matches Err(e) && layer_error(config, e)
                    },
                }
            },
    {
        let mut found: Option<usize> = None;
        let mut i: usize = 0;
        while i < config.world_sizes.len()
            invariant
                i <= config.world_sizes.len(),
                found is None ==> forall|j: int| 0 <= j < i ==> config.world_sizes@[j].0@ != size_key@,
                found matches Some(k) ==> is_first_key(config.world_sizes@, size_key@, k as int),
            decreases config.world_sizes.len() - i,
        {
            if found.is_none() && str_eq(config.world_sizes[i].0.as_str(), size_key) {
                found = Some(i);
            }
            i = i + 1;
        }
        let k = match found {
            Some(k) => k,
            None => {
                assert(!has_key(config.world_sizes@, size_key@));
                return Err(CoreError::MissingWorldSize(size_key.to_owned()));
            },
        };
        proof {
            assert forall|i: int| #[trigger] is_first_key(config.world_sizes@, size_key@, i) implies i == k by {
                if i < k { assert(config.world_sizes@[i].0@ != size_key@); }
                if k < i { assert(config.world_sizes@[k as int].0@ != size_key@); }
            }
        }
        let size_cfg = &config.world_sizes[k].1;
        let (width, height) = match resolve_size(size_key, size_cfg, custom_size) {
            Ok(wh) => wh,
            Err(e) => return Err(e),
        };
        let size = WorldSizeSpec {
            key: size_key.to_owned(),
            width,
            height,
            description: size_cfg.description.clone(),
        };
        let layers = match build_layers(config) {
            Ok(l) => l,
            Err(e) => return Err(e),
        };
        Ok(WorldProfile { size, layers })
    }

    /// A fresh all-air world of this profile's size.
    pub fn create_world(&self) -> (w: World)
        requires
            self.size.width * self.size.height <= usize::MAX,
        ensures
            w.wf(),
            w.width == self.size.width,
            w.height == self.size.height,
            forall|i: int| 0 <= i < w.tiles.len() ==> w.tiles@[i] == AIR_BLOCK_ID,
    {
        World::new_air(self.size.width, self.size.height)
    }
}

/// The smaller of two integers.
pub open spec fn spec_min(a: int, b: int) -> int {
    if a <= b { a } else { b }
}

/// A cell inside a `width` by `height` grid has an index inside the tile vector.
pub proof fn lemma_cell_index_bounds(width: int, height: int, x: int, y: int)
    requires
        0 <= x < width,
        0 <= y < height,
    ensures
        0 <= cell_index(width, x, y) < width * height,
        0 <= y * width,
        y * width + width <= width * height,
{
    assert(0 <= y * width) by (nonlinear_arith)
        requires 0 <= y, 0 <= width;
    assert(y * width + width <= width * height) by (nonlinear_arith)
        requires 0 <= y < height, 0 <= width;
}

/// Distinct cells of a grid have distinct indices.
pub proof fn lemma_cell_index_injective(width: int, height: int, x1: int, y1: int, x2: int, y2: int)
    requires
        0 <= x1 < width,
        0 <= y1 < height,
        0 <= x2 < width,
        0 <= y2 < height,
    ensures
        (cell_index(width, x1, y1) == cell_index(width, x2, y2)) <==> (x1 == x2 && y1 == y2),
{
    if y1 < y2 {
        assert(y1 * width + width <= y2 * width) by (nonlinear_arith)
            requires y1 < y2, 0 <= width;
    } else if y2 < y1 {
        assert(y2 * width + width <= y1 * width) by (nonlinear_arith)
            requires y2 < y1, 0 <= width;
    }
}

} // verus!
