use vstd::prelude::*;
use vstd::std_specs::btree::increasing_seq;
use vstd::std_specs::cmp::OrdSpec;
use vstd::std_specs::iter::IteratorSpec;
use vstd::string::StringExecFns;

use crate::base::layer::{percent_row, LayerDefinition};
use crate::base::world::cell_index;
use crate::base::world::{lemma_cell_index_bounds, lemma_cell_index_injective};
use crate::config::biome::{BiomeConfig, BiomesConfig};
use crate::text::str_eq;

verus! {

/// Identifier of a biome.
pub type BiomeId = u8;

/// Biome id of a cell no step has assigned yet.
pub const BIOME_UNASSIGNED: BiomeId = 0;

/// A biome as used by the generator and the overlay.
#[derive(Clone, Debug)]
pub struct BiomeDefinition {
    pub id: BiomeId,
    pub key: String,
    pub name: String,
    pub overlay_color: [u8; 4],
    pub generation_weight: u32,
    pub description: String,
}

/// `def` is the definition made from table entry `id -> cfg`.
pub open spec fn biome_matches(def: BiomeDefinition, id: u8, cfg: BiomeConfig) -> bool {
    &&& def.id == id
    &&& def.key@ == cfg.key@
    &&& def.name@ == cfg.name@
    &&& def.overlay_color == cfg.overlay_color
    &&& def.generation_weight == cfg.generation_weight
    &&& def.description@ == cfg.description@
}

/// One definition per table entry, in increasing id order.
pub fn build_biome_definitions(config: &BiomesConfig) -> (defs: Vec<BiomeDefinition>)
    ensures
        defs.len() == config@.len(),
        forall|i: int| 0 <= i < defs.len() ==> #[trigger] config@.contains_key(defs[i].id)
            && biome_matches(defs[i], defs[i].id, config@[defs[i].id]),
        forall|i: int, j: int| 0 <= i < j < defs.len() ==> defs[i].id < defs[j].id,
{
    let mut defs: Vec<BiomeDefinition> = Vec::new();
    let entries = config.iter();
    let ghost keys = entries.remaining().map_values(|kv: (&u8, &BiomeConfig)| *kv.0);
    proof {
        assert(increasing_seq(keys));
        assert forall|i: int, j: int| 0 <= i < j < keys.len() implies keys[i] < keys[j] by {
            assert(keys[i].cmp_spec(&keys[j]) is Less);
        }
    }
    for (id, biome) in it: entries
        invariant
            defs.len() == it.index(),
            it.seq().len() == keys.len(),
            forall|i: int| 0 <= i < keys.len() ==> keys[i] == *it.seq()[i].0,
            forall|i: int, j: int| 0 <= i < j < keys.len() ==> keys[i] < keys[j],
            forall|i: int| 0 <= i < defs.len() ==> defs[i].id == *it.seq()[i].0
                && biome_matches(defs[i], defs[i].id, *it.seq()[i].1),
    {
        defs.push(BiomeDefinition {
            id: *id,
            key: biome.key.clone(),
            name: biome.name.clone(),
            overlay_color: biome.overlay_color,
            generation_weight: biome.generation_weight,
            description: biome.description.clone(),
        });
    }
    assert forall|i: int, j: int| 0 <= i < j < defs.len() implies defs[i].id < defs[j].id by {
        assert(defs[i].id == keys[i]);
        assert(defs[j].id == keys[j]);
    }
    defs
}

/// A two-dimensional map of biome ids, stored row by row.
#[derive(Clone, Debug)]
pub struct BiomeMap {
    pub width: u32,
    pub height: u32,
    /// Row-major cells: `data[y * width + x]`.
    pub data: Vec<BiomeId>,
}

impl BiomeMap {
    /// The cells, row by row.
    pub open spec fn spec_data(&self) -> Seq<BiomeId> {
        self.data@
    }

    /// The map holds exactly one id per cell.
    pub open spec fn wf(&self) -> bool {
        self.spec_data().len() == self.width * self.height
    }

    /// `(x, y)` lies inside the map.
    pub open spec fn spec_in_bounds(&self, x: int, y: int) -> bool {
        0 <= x < self.width && 0 <= y < self.height
    }

    /// The biome id at `(x, y)`.
    pub open spec fn cell(&self, x: int, y: int) -> BiomeId {
        self.spec_data()[cell_index(self.width as int, x, y)]
    }

    /// The biome id at `(x, y)`, or unassigned outside the map.
    pub open spec fn spec_get(&self, x: int, y: int) -> BiomeId {
        if self.spec_in_bounds(x, y) { self.cell(x, y) } else { BIOME_UNASSIGNED }
    }

    /// A `width` by `height` map in which every cell holds `fill`.
    pub fn new_filled(width: u32, height: u32, fill: BiomeId) -> (m: BiomeMap)
        requires
            width * height <= usize::MAX,
        ensures
            m.wf(),
            m.width == width,
            m.height == height,
            forall|i: int| 0 <= i < m.spec_data().len() ==> m.spec_data()[i] == fill,
    {
        let len = (width as usize) * (height as usize);
        let mut data: Vec<BiomeId> = Vec::with_capacity(len);
        let mut i: usize = 0;
        while i < len
            invariant
                i <= len,
                data.len() == i,
                forall|k: int| 0 <= k < data.len() ==> data@[k] == fill,
            decreases len - i,
        {
            data.push(fill);
            i = i + 1;
        }
        BiomeMap { width, height, data }
    }

    /// The biome at `(x, y)`; outside the map it is [`BIOME_UNASSIGNED`].
    pub fn get(&self, x: u32, y: u32) -> (r: BiomeId)
        requires
            self.wf(),
        ensures
            r == self.spec_get(x as int, y as int),
    {
        if x >= self.width || y >= self.height {
            return BIOME_UNASSIGNED;
        }
        let _n = self.data.len();
        proof { lemma_cell_index_bounds(self.width as int, self.height as int, x as int, y as int); }
        self.data[(y as usize) * (self.width as usize) + (x as usize)]
    }

    /// Writes `biome` at `(x, y)`; positions outside the map are ignored.
    pub fn set(&mut self, x: u32, y: u32, biome: BiomeId)
        requires
            old(self).wf(),
        ensures
            final(self).wf(),
            final(self).width == old(self).width,
            final(self).height == old(self).height,
            final(self).spec_data() == (if old(self).spec_in_bounds(x as int, y as int) {
                old(self).spec_data().update(cell_index(old(self).width as int, x as int, y as int), biome)
            } else {
                old(self).spec_data()
            }),
            forall|qx: int, qy: int| old(self).spec_in_bounds(qx, qy) ==> #[trigger] final(self).cell(qx, qy) == if qx
                == x && qy == y {
                biome
            } else {
                old(self).cell(qx, qy)
            },
    {
        let ghost before = *self;
        let _n = self.data.len();
        if x < self.width && y < self.height {
            proof { lemma_cell_index_bounds(self.width as int, self.height as int, x as int, y as int); }
            let idx = (y as usize) * (self.width as usize) + (x as usize);
            self.data.set(idx, biome);
        }
        proof {
            assert forall|qx: int, qy: int| before.spec_in_bounds(qx, qy) implies #[trigger] self.cell(qx, qy) == if qx
                == x && qy == y {
                biome
            } else {
                before.cell(qx, qy)
            } by {
                lemma_cell_index_bounds(before.width as int, before.height as int, qx, qy);
                if before.spec_in_bounds(x as int, y as int) {
                    lemma_cell_index_injective(before.width as int, before.height as int, qx, qy, x as int, y as int);
                }
            }
        }
    }

    /// The cells, row by row.
    pub fn data(&self) -> (r: &[BiomeId])
        ensures
            r@ == self.spec_data(),
    {
        self.data.as_slice()
    }

    /// The cells, row by row, for writing in place.
    pub fn data_mut(&mut self) -> (r: &mut [BiomeId])
        ensures
            r@ == old(self).spec_data(),
            final(self).spec_data() == final(r)@,
            final(self).width == old(self).width,
            final(self).height == old(self).height,
    {
        self.data.as_mut_slice()
    }

    /// Number of cells holding `biome` in columns `[x_start, x_end)` (clipped
    /// to the map), over all rows.
    pub fn count_biome_in_x_range(&self, biome: BiomeId, x_start: u32, x_end: u32) -> (n: usize)
        requires
            self.wf(),
            self.width > 0,
            clip(x_start as int, self.width as int) <= clip(x_end as int, self.width as int),
        ensures
            n == count_rows(*self, biome, clip(x_start as int, self.width as int),
                clip(x_end as int, self.width as int), self.height as int),
    {
        let xs = if x_start < self.width { x_start } else { self.width };
        let xe = if x_end < self.width { x_end } else { self.width };
        let n = self.data.len();
        let mut total: usize = 0;
        let mut y: u32 = 0;
        while y < self.height
            invariant
                self.wf(),
                n == self.data@.len(),
                xs <= xe <= self.width,
                xs == clip(x_start as int, self.width as int),
                xe == clip(x_end as int, self.width as int),
                y <= self.height,
                total == count_rows(*self, biome, xs as int, xe as int, y as int),
                total <= (xe - xs) * y,
            decreases self.height - y,
        {
            let mut x: u32 = xs;
            let mut row: usize = 0;
            while x < xe
                invariant
                    self.wf(),
                    n == self.data@.len(),
                    xs <= x <= xe <= self.width,
                    y < self.height,
                    row == count_row(*self, biome, xs as int, x as int, y as int),
                    row <= x - xs,
                decreases xe - x,
            {
                proof { lemma_cell_index_bounds(self.width as int, self.height as int, x as int, y as int); }
                if self.data[(y as usize) * (self.width as usize) + (x as usize)] == biome {
                    row = row + 1;
                }
                x = x + 1;
            }
            proof {
                assert((xe - xs) * y + (xe - xs) == (xe - xs) * (y + 1)) by (nonlinear_arith);
                assert((xe - xs) * (y + 1) <= self.width * self.height) by (nonlinear_arith)
                    requires xe - xs <= self.width, y + 1 <= self.height, xs <= xe;
            }
            total = total + row;
            y = y + 1;
        }
        total
    }
}

/// The position of the first definition in `defs` with id `id`, if any.
pub open spec fn first_def_with_id(defs: Seq<BiomeDefinition>, id: BiomeId, i: int) -> bool {
    &&& 0 <= i < defs.len()
    &&& defs[i].id == id
    &&& forall|j: int| 0 <= j < i ==> defs[j].id != id
}

/// Some definition in `defs` has id `id`.
pub open spec fn has_def_with_id(defs: Seq<BiomeDefinition>, id: BiomeId) -> bool {
    exists|i: int| 0 <= i < defs.len() && #[trigger] defs[i].id == id
}

/// The index of the first definition with id `id`.
pub fn find_biome_index(defs: &[BiomeDefinition], id: BiomeId) -> (r: Option<usize>)
    ensures
        match r {
            Some(i) => first_def_with_id(defs@, id, i as int),
            None => !has_def_with_id(defs@, id),
        },
{
    let mut i: usize = 0;
    while i < defs.len()
        invariant
            i <= defs.len(),
            forall|j: int| 0 <= j < i ==> defs@[j].id != id,
        decreases defs.len() - i,
    {
        if defs[i].id == id {
            return Some(i);
        }
        i = i + 1;
    }
    None
}

/// Biome and layer of one position of the world.
#[derive(Clone, Debug)]
pub struct BiomeContext {
    /// The biome id at the position.
    pub horizontal: Option<BiomeId>,
    /// The key of the layer the row belongs to.
    pub vertical: Option<String>,
}

/// The display name of biome `id`, or the fallback for an unknown id.
pub open spec fn biome_name_or(defs: Seq<BiomeDefinition>, id: Option<BiomeId>, fallback: Seq<char>) -> Seq<char> {
    match id {
        Some(b) => if has_def_with_id(defs, b) {
            defs[choose|i: int| first_def_with_id(defs, b, i)].name@
        } else {
            fallback
        },
        None => fallback,
    }
}

/// The first definition with a given id is unique.
pub proof fn lemma_first_def_unique(defs: Seq<BiomeDefinition>, id: BiomeId, i: int)
    requires
        first_def_with_id(defs, id, i),
    ensures
        has_def_with_id(defs, id),
        (choose|k: int| first_def_with_id(defs, id, k)) == i,
{
    assert(defs[i].id == id);
    let k = choose|k: int| first_def_with_id(defs, id, k);
    assert(first_def_with_id(defs, id, k));
    if k < i {
        assert(defs[k].id != id);
    }
    if i < k {
        assert(defs[i].id != id);
    }
}

/// Short label of a layer key.
pub open spec fn layer_short_label(key: Seq<char>) -> Seq<char> {
    if key == "space"@ {
        "太空"@
    } else if key == "surface"@ {
        "地表"@
    } else if key == "underground"@ {
        "地下"@
    } else if key == "cavern"@ {
        "洞穴"@
    } else if key == "hell"@ {
        "地狱"@
    } else {
        "?"@
    }
}

/// Short label of a layer key (`?` for an unknown key).
pub fn layer_short_name(key: &str) -> (r: &'static str)
    ensures
        r@ == layer_short_label(key@),
{
    if str_eq(key, "space") {
        "太空"
    } else if str_eq(key, "surface") {
        "地表"
    } else if str_eq(key, "underground") {
        "地下"
    } else if str_eq(key, "cavern") {
        "洞穴"
    } else if str_eq(key, "hell") {
        "地狱"
    } else {
        "?"
    }
}

impl BiomeContext {
    /// Readable label `biome+layer`, with fallbacks for unknown parts.
    pub fn label(&self, biome_definitions: &[BiomeDefinition]) -> (r: String)
        ensures
            r@ == biome_name_or(biome_definitions@, self.horizontal, "未知环境"@) + "+"@ + (match self.vertical {
                Some(v) => v@,
                None => "未知层级"@,
            }),
    {
        let mut out = match self.horizontal {
            Some(id) => match find_biome_index(biome_definitions, id) {
                Some(i) => {
                    proof { lemma_first_def_unique(biome_definitions@, id, i as int); }
                    biome_definitions[i].name.clone()
                },
                None => String::from_str("未知环境"),
            },
            None => String::from_str("未知环境"),
        };
        out.append("+");
        match &self.vertical {
            Some(v) => out.append(v.as_str()),
            None => out.append("未知层级"),
        }
        out
    }

    /// Compact label `biome·layer`, or `未知` when either part is unknown.
    pub fn short_label(&self, biome_definitions: &[BiomeDefinition]) -> (r: String)
        ensures
            r@ == (match (self.horizontal, self.vertical) {
                (Some(id), Some(v)) => if has_def_with_id(biome_definitions@, id) {
                    biome_name_or(biome_definitions@, self.horizontal, ""@) + "·"@ + layer_short_label(v@)
                } else {
                    "未知"@
                },
                _ => "未知"@,
            }),
    {
        if let Some(id) = self.horizontal {
            if let Some(i) = find_biome_index(biome_definitions, id) {
                proof { lemma_first_def_unique(biome_definitions@, id, i as int); }
                if let Some(v) = &self.vertical {
                    let mut out = biome_definitions[i].name.clone();
                    out.append("·");
                    out.append(layer_short_name(v.as_str()));
                    return out;
                }
            }
        }
        String::from_str("未知")
    }
}

/// Layer `l` can be placed in a world `height` rows high without overflow.
pub open spec fn layer_rows_fit(l: LayerDefinition, height: int) -> bool {
    height * l.start_percent <= u32::MAX && height * l.end_percent <= u32::MAX
}

/// Row `y` belongs to layer `l` of a world `height` rows high.
pub open spec fn row_in_layer(l: LayerDefinition, height: int, y: int) -> bool {
    percent_row(height, l.start_percent as int) <= y < percent_row(height, l.end_percent as int)
}

/// The key of the first layer containing row `y`.
pub fn get_layer_at(y: u32, layers: &[LayerDefinition], world_height: u32) -> (r: Option<String>)
    requires
        forall|i: int| 0 <= i < layers.len() ==> #[trigger] layer_rows_fit(layers@[i], world_height as int),
    ensures
        match r {
            Some(k) => exists|i: int| 0 <= i < layers.len() && #[trigger] row_in_layer(layers@[i], world_height as int, y as int)
                && k@ == layers@[i].key@
                && forall|j: int| 0 <= j < i ==> !row_in_layer(layers@[j], world_height as int, y as int),
            None => forall|i: int| 0 <= i < layers.len() ==> !#[trigger] row_in_layer(layers@[i], world_height as int, y as int),
        },
{
    let mut i: usize = 0;
    while i < layers.len()
        invariant
            i <= layers.len(),
            forall|j: int| 0 <= j < layers.len() ==> #[trigger] layer_rows_fit(layers@[j], world_height as int),
            forall|j: int| 0 <= j < i ==> !#[trigger] row_in_layer(layers@[j], world_height as int, y as int),
        decreases layers.len() - i,
    {
        assert(layer_rows_fit(layers@[i as int], world_height as int));
        let (start_row, end_row) = layers[i].bounds_for_height(world_height);
        if y >= start_row && y < end_row {
            assert(row_in_layer(layers@[i as int], world_height as int, y as int));
            return Some(layers[i].key.clone());
        }
        i = i + 1;
    }
    None
}

/// Biome and layer at `(x, y)`.
pub fn get_biome_context(x: u32, y: u32, biome_map: &BiomeMap, layers: &[LayerDefinition], world_height: u32) -> (c: BiomeContext)
    requires
        biome_map.wf(),
        forall|i: int| 0 <= i < layers.len() ==> #[trigger] layer_rows_fit(layers@[i], world_height as int),
    ensures
        c.horizontal == Some(biome_map.spec_get(x as int, y as int)),
        match c.vertical {
            Some(k) => exists|i: int| 0 <= i < layers.len() && #[trigger] row_in_layer(layers@[i], world_height as int, y as int)
                && k@ == layers@[i].key@
                && forall|j: int| 0 <= j < i ==> !row_in_layer(layers@[j], world_height as int, y as int),
            None => forall|i: int| 0 <= i < layers.len() ==> !#[trigger] row_in_layer(layers@[i], world_height as int, y as int),
        },
{
    BiomeContext { horizontal: Some(biome_map.get(x, y)), vertical: get_layer_at(y, layers, world_height) }
}

/// `v` clipped to at most `bound`.
pub open spec fn clip(v: int, bound: int) -> int {
    if v < bound { v } else { bound }
}

/// Cells of row `y` in columns `[xs, xe)` that hold `biome`.
pub open spec fn count_row(m: BiomeMap, biome: BiomeId, xs: int, xe: int, y: int) -> nat
    decreases xe - xs,
{
    if xe <= xs {
        0
    } else {
        count_row(m, biome, xs, xe - 1, y) + if m.cell(xe - 1, y) == biome { 1nat } else { 0nat }
    }
}

/// Cells of rows `[0, rows)` in columns `[xs, xe)` that hold `biome`.
pub open spec fn count_rows(m: BiomeMap, biome: BiomeId, xs: int, xe: int, rows: int) -> nat
    decreases rows,
{
    if rows <= 0 {
        0
    } else {
        count_rows(m, biome, xs, xe, rows - 1) + count_row(m, biome, xs, xe, rows - 1)
    }
}

} // verus!
