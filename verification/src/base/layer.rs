use vstd::prelude::*;

use crate::base::CoreError;
use crate::config::world::{LayerConfig, WorldConfig};

verus! {

/// A vertical layer of the world (space, surface, ...), by height percentage.
#[derive(Clone, Debug)]
pub struct LayerDefinition {
    pub key: String,
    pub start_percent: u8,
    pub end_percent: u8,
    /// Short label used by the canvas overlay.
    pub short_name: String,
    pub description: String,
}

/// The first row of a layer starting at `percent` in a world `height` rows high.
pub open spec fn percent_row(height: int, percent: int) -> int {
    height * percent / 100
}

/// A layer entry is valid when `start < end <= 100`.
pub open spec fn layer_percent_valid(start: u8, end: u8) -> bool {
    start < end && end <= 100
}

impl LayerDefinition {
    /// The row range `[start, end)` of this layer in a world `height` rows high.
    pub fn bounds_for_height(&self, height: u32) -> (r: (u32, u32))
        requires
            height * self.start_percent <= u32::MAX,
            height * self.end_percent <= u32::MAX,
        ensures
            r.0 == percent_row(height as int, self.start_percent as int),
            r.1 == percent_row(height as int, self.end_percent as int),
    {
        let start = height * self.start_percent as u32 / 100;
        let end = height * self.end_percent as u32 / 100;
        (start, end)
    }
}

/// The row of a percentage lies in the world and grows with the percentage
/// and with the height.
pub proof fn lemma_percent_row_ordered(h1: int, h2: int, p: int, q: int)
    requires
        0 <= h1 <= h2,
        0 <= p <= q <= 100,
    ensures
        0 <= percent_row(h1, p) <= percent_row(h1, q) <= h1,
        percent_row(h1, p) <= percent_row(h2, p),
{
    vstd::arithmetic::mul::lemma_mul_inequality(p, q, h1);
    vstd::arithmetic::mul::lemma_mul_inequality(q, 100, h1);
    vstd::arithmetic::mul::lemma_mul_inequality(h1, h2, p);
    assert(h1 * p == p * h1 && h1 * q == q * h1 && h2 * p == p * h2) by (nonlinear_arith);
    assert(0 <= h1 * p) by (nonlinear_arith)
        requires h1 >= 0, p >= 0;
    vstd::arithmetic::div_mod::lemma_div_is_ordered(h1 * p, h1 * q, 100);
    vstd::arithmetic::div_mod::lemma_div_is_ordered(h1 * q, 100 * h1, 100);
    vstd::arithmetic::div_mod::lemma_div_is_ordered(h1 * p, h2 * p, 100);
    vstd::arithmetic::div_mod::lemma_div_is_ordered(0, h1 * p, 100);
    assert(100 * h1 / 100 == h1) by (nonlinear_arith);
}

/// Layer rows: a layer's rows lie within the world, start no lower than
/// they end, move down as the world grows, and a layer that starts at the
/// percentage where another ends starts on the row where that one ends, so
/// adjacent layers leave no gap and do not overlap.
pub proof fn lemma_layer_rows(a: LayerDefinition, b: LayerDefinition, h1: int, h2: int)
    requires
        0 <= h1 <= h2,
        a.start_percent <= a.end_percent <= 100,
    ensures
        0 <= percent_row(h1, a.start_percent as int) <= percent_row(h1, a.end_percent as int) <= h1,
        percent_row(h1, a.start_percent as int) <= percent_row(h2, a.start_percent as int),
        percent_row(h1, a.end_percent as int) <= percent_row(h2, a.end_percent as int),
        a.end_percent == b.start_percent ==> percent_row(h1, a.end_percent as int) == percent_row(h1, b.start_percent as int),
{
    lemma_percent_row_ordered(h1, h2, a.start_percent as int, a.end_percent as int);
    lemma_percent_row_ordered(h1, h2, a.end_percent as int, a.end_percent as int);
}

/// `def` is the layer built from the configuration entry `(key, cfg)`.
pub open spec fn layer_matches(def: LayerDefinition, key: Seq<char>, cfg: LayerConfig) -> bool {
    &&& def.key@ == key
    &&& def.start_percent == cfg.start_percent
    &&& def.end_percent == cfg.end_percent
    &&& def.description@ == cfg.description@
    &&& def.short_name@ == (match cfg.short_name {
        Some(s) => s@,
        None => key,
    })
}

/// Every configured layer has valid percentages.
pub open spec fn all_layers_valid(config: &WorldConfig) -> bool {
    forall|i: int| 0 <= i < config.layers.len()
        ==> #[trigger] layer_percent_valid(config.layers@[i].1.start_percent, config.layers@[i].1.end_percent)
}

/// `defs` is the configured layer list, entry by entry.
pub open spec fn layers_built(config: &WorldConfig, defs: Seq<LayerDefinition>) -> bool {
    &&& defs.len() == config.layers.len()
    &&& forall|i: int| 0 <= i < defs.len()
        ==> #[trigger] layer_matches(defs[i], config.layers@[i].0@, config.layers@[i].1)
}

/// `e` reports the first configured layer with invalid percentages.
pub open spec fn layer_error(config: &WorldConfig, e: CoreError) -> bool {
    exists|i: int| {
        &&& 0 <= i < config.layers.len()
        &&& !#[trigger] layer_percent_valid(config.layers@[i].1.start_percent, config.layers@[i].1.end_percent)
        &&& forall|j: int| 0 <= j < i ==> layer_percent_valid(config.layers@[j].1.start_percent, config.layers@[j].1.end_percent)
        &&& e matches CoreError::InvalidLayerPercent { name, start, end }
        &&& name@ == config.layers@[i].0@
        &&& start == config.layers@[i].1.start_percent
        &&& end == config.layers@[i].1.end_percent
    }
}

/// Builds the layer list in configuration order; the first entry whose
/// percentages are not `start < end <= 100` is reported.
pub fn build_layers(config: &WorldConfig) -> (r: Result<Vec<LayerDefinition>, CoreError>)
    requires
        config.wf(),
    ensures
        match r {
            Ok(defs) => all_layers_valid(config) && layers_built(config, defs@),
            Err(e) => layer_error(config, e),
        },
{
    let mut layers: Vec<LayerDefinition> = Vec::with_capacity(config.layers.len());
    let mut i: usize = 0;
    while i < config.layers.len()
        invariant
            i <= config.layers.len(),
            layers.len() == i,
            forall|j: int| 0 <= j < i ==> #[trigger] layer_percent_valid(config.layers@[j].1.start_percent, config.layers@[j].1.end_percent),
            forall|j: int| 0 <= j < i ==> #[trigger] layer_matches(layers[j], config.layers@[j].0@, config.layers@[j].1),
        decreases config.layers.len() - i,
    {
        let key = &config.layers[i].0;
        let layer = &config.layers[i].1;
        if !(layer.start_percent < layer.end_percent && layer.end_percent <= 100) {
            let e = CoreError::InvalidLayerPercent {
                name: key.clone(),
                start: layer.start_percent,
                end: layer.end_percent,
            };
            assert(!layer_percent_valid(config.layers@[i as int].1.start_percent, config.layers@[i as int].1.end_percent));
            return Err(e);
        }
        let short_name = match &layer.short_name {
            Some(s) => s.clone(),
            None => key.clone(),
        };
        layers.push(LayerDefinition {
            key: key.clone(),
            start_percent: layer.start_percent,
            end_percent: layer.end_percent,
            short_name,
            description: layer.description.clone(),
        });
        i = i + 1;
    }
    Ok(layers)
}

} // verus!
