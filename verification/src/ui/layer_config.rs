use vstd::prelude::*;

use crate::base::layer::LayerDefinition;
use crate::text::str_eq;

verus! {

/// The default percentages of a known layer key.
pub open spec fn default_layer_percent(key: Seq<char>) -> Option<(u8, u8)> {
    if key == "space"@ {
        Some((0u8, 5u8))
    } else if key == "surface"@ {
        Some((5u8, 25u8))
    } else if key == "underground"@ {
        Some((25u8, 35u8))
    } else if key == "cavern"@ {
        Some((35u8, 80u8))
    } else if key == "hell"@ {
        Some((80u8, 100u8))
    } else {
        None
    }
}

fn default_for(key: &str) -> (r: Option<(u8, u8)>)
    ensures
        r == default_layer_percent(key@),
{
    if str_eq(key, "space") {
        Some((0, 5))
    } else if str_eq(key, "surface") {
        Some((5, 25))
    } else if str_eq(key, "underground") {
        Some((25, 35))
    } else if str_eq(key, "cavern") {
        Some((35, 80))
    } else if str_eq(key, "hell") {
        Some((80, 100))
    } else {
        None
    }
}

/// Restores the default percentages of every layer with a known key;
/// other layers are left as they are.
pub fn reset_to_default(layers: &mut Vec<LayerDefinition>)
    ensures
        final(layers).len() == old(layers).len(),
        forall|i: int| 0 <= i < old(layers).len() ==> {
            let before = #[trigger] old(layers)@[i];
            let after = final(layers)@[i];
            &&& after.key == before.key
            &&& after.short_name == before.short_name
            &&& after.description == before.description
            &&& match default_layer_percent(before.key@) {
                Some((s, e)) => after.start_percent == s && after.end_percent == e,
                None => after.start_percent == before.start_percent && after.end_percent == before.end_percent,
            }
        },
{
    let ghost before = layers@;
    let mut i: usize = 0;
    while i < layers.len()
        invariant
            layers.len() == before.len(),
            i <= layers.len(),
            forall|k: int| i <= k < before.len() ==> #[trigger] layers@[k] == before[k],
            forall|k: int| 0 <= k < i ==> {
                let b = #[trigger] before[k];
                let a = layers@[k];
                &&& a.key == b.key
                &&& a.short_name == b.short_name
                &&& a.description == b.description
                &&& match default_layer_percent(b.key@) {
                    Some((s, e)) => a.start_percent == s && a.end_percent == e,
                    None => a.start_percent == b.start_percent && a.end_percent == b.end_percent,
                }
            },
        decreases before.len() - i,
    {
        if let Some((start, end)) = default_for(layers[i].key.as_str()) {
            let mut layer = layers.remove(i);
            layer.start_percent = start;
            layer.end_percent = end;
            layers.insert(i, layer);
        }
        i = i + 1;
    }
}

} // verus!
