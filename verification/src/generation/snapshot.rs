//! The parts of a world save (`.lwd`) that the library checks and applies.

use vstd::prelude::*;
use vstd::string::StringExecFns;

use crate::base::layer::LayerDefinition;
use crate::text::{decimal, str_eq, usize_to_decimal};

verus! {

/// Current version of the save format.
pub const SNAPSHOT_VERSION: u32 = 1;

/// Saved percentages of one layer.
#[derive(Clone, Copy, Debug, PartialEq, Eq, Structural)]
pub struct LayerOverride {
    pub start_percent: u8,
    pub end_percent: u8,
}

/// A save of version `version` can be read: it is not newer than this
/// format; otherwise the error names both versions.
pub fn check_snapshot_version(version: u32) -> (r: Result<(), String>)
    ensures
        version <= SNAPSHOT_VERSION ==> r is Ok,
        version > SNAPSHOT_VERSION ==> (r matches Err(msg) && msg@ == "存档版本 "@ + decimal(version as nat)
            + " 高于当前支持的版本 "@ + decimal(SNAPSHOT_VERSION as nat)),
{
    if version > SNAPSHOT_VERSION {
        let mut msg = String::from_str("存档版本 ");
        msg.append(usize_to_decimal(version as usize).as_str());
        msg.append(" 高于当前支持的版本 ");
        msg.append(usize_to_decimal(SNAPSHOT_VERSION as usize).as_str());
        return Err(msg);
    }
    Ok(())
}

/// The override saved for layer key `key`: the first entry with that key.
pub open spec fn override_for(overrides: Seq<(String, LayerOverride)>, key: Seq<char>) -> Option<LayerOverride>
    decreases overrides.len(),
{
    if overrides.len() == 0 {
        None
    } else if overrides[0].0@ == key {
        Some(overrides[0].1)
    } else {
        override_for(overrides.drop_first(), key)
    }
}

fn find_override(overrides: &Vec<(String, LayerOverride)>, key: &str) -> (r: Option<LayerOverride>)
    ensures
        r == override_for(overrides@, key@),
{
    let mut i: usize = 0;
    assert(overrides@.subrange(0, overrides.len() as int) =~= overrides@);
    while i < overrides.len()
        invariant
            i <= overrides.len(),
            override_for(overrides@, key@) == override_for(overrides@.subrange(i as int, overrides.len() as int), key@),
        decreases overrides.len() - i,
    {
        proof {
            let rest = overrides@.subrange(i as int, overrides.len() as int);
            assert(rest.drop_first() =~= overrides@.subrange(i + 1, overrides.len() as int));
        }
        if str_eq(overrides[i].0.as_str(), key) {
            return Some(overrides[i].1);
        }
        i = i + 1;
    }
    None
}

/// Applies saved layer percentages: every layer with a saved override takes
/// its percentages; the others keep theirs.
pub fn apply_layer_overrides(layers: &mut Vec<LayerDefinition>, overrides: &Vec<(String, LayerOverride)>)
    ensures
        final(layers).len() == old(layers).len(),
        forall|i: int| 0 <= i < old(layers).len() ==> {
            let before = #[trigger] old(layers)@[i];
            let after = final(layers)@[i];
            &&& after.key == before.key
            &&& after.short_name == before.short_name
            &&& after.description == before.description
            &&& match override_for(overrides@, before.key@) {
                Some(ov) => after.start_percent == ov.start_percent && after.end_percent == ov.end_percent,
                None => after.start_percent == before.start_percent && after.end_percent == before.end_percent,
            }
        },
{
    let ghost before = layers@;
    let mut i: usize = 0;
    while i < layers.len()
        invariant
            layers.len() == before.len(),
            i <= layers.len(),
            forall|k: int| i <= k < before.len() ==> #[trigger] layers@[k] == before[k],
            forall|k: int| 0 <= k < i ==> {
                let b = #[trigger] before[k];
                let a = layers@[k];
                &&& a.key == b.key
                &&& a.short_name == b.short_name
                &&& a.description == b.description
                &&& match override_for(overrides@, b.key@) {
                    Some(ov) => a.start_percent == ov.start_percent && a.end_percent == ov.end_percent,
                    None => a.start_percent == b.start_percent && a.end_percent == b.end_percent,
                }
            },
        decreases before.len() - i,
    {
        if let Some(ov) = find_override(overrides, layers[i].key.as_str()) {
            let mut layer = layers.remove(i);
            layer.start_percent = ov.start_percent;
            layer.end_percent = ov.end_percent;
            layers.insert(i, layer);
        }
        i = i + 1;
    }
}

/// No two entries share a key.
pub open spec fn keys_distinct(overrides: Seq<(String, LayerOverride)>) -> bool {
    forall|i: int, j: int| 0 <= i < j < overrides.len() ==> overrides[i].0@ != overrides[j].0@
}

/// The percentages of a layer, as saved.
pub open spec fn layer_percents(layer: LayerDefinition) -> LayerOverride {
    LayerOverride { start_percent: layer.start_percent, end_percent: layer.end_percent }
}

/// The percentages saved for key `key` from `layers`: those of the last
/// layer with that key (a later layer replaces an earlier one).
pub open spec fn last_override(layers: Seq<LayerDefinition>, key: Seq<char>) -> Option<LayerOverride>
    decreases layers.len(),
{
    if layers.len() == 0 {
        None
    } else if layers.last().key@ == key {
        Some(layer_percents(layers.last()))
    } else {
        last_override(layers.drop_last(), key)
    }
}

/// In a list without repeated keys, the override of a key is the entry
/// holding it, and there is none when no entry holds it.
proof fn lemma_override_for_distinct(overrides: Seq<(String, LayerOverride)>, key: Seq<char>)
    requires
        keys_distinct(overrides),
    ensures
        forall|j: int| 0 <= j < overrides.len() && (#[trigger] overrides[j]).0@ == key ==> override_for(overrides, key)
            == Some(overrides[j].1),
        (forall|j: int| 0 <= j < overrides.len() ==> (#[trigger] overrides[j]).0@ != key) ==> override_for(overrides,
            key) is None,
    decreases overrides.len(),
{
    if overrides.len() > 0 {
        let rest = overrides.drop_first();
        assert forall|a: int, b: int| 0 <= a < b < rest.len() implies rest[a].0@ != rest[b].0@ by {
            assert(rest[a] == overrides[a + 1] && rest[b] == overrides[b + 1]);
        }
        lemma_override_for_distinct(rest, key);
        assert forall|j: int| 0 <= j < overrides.len() && (#[trigger] overrides[j]).0@ == key implies override_for(
            overrides,
            key,
        ) == Some(overrides[j].1) by {
            if j > 0 {
                assert(rest[j - 1] == overrides[j]);
                assert(overrides[0].0@ != overrides[j].0@);
            }
        }
        if forall|j: int| 0 <= j < overrides.len() ==> (#[trigger] overrides[j]).0@ != key {
            assert forall|j: int| 0 <= j < rest.len() implies (#[trigger] rest[j]).0@ != key by {
                assert(rest[j] == overrides[j + 1]);
            }
        }
    }
}

/// Position of the entry with key `key`, if any.
fn position_of_key(overrides: &Vec<(String, LayerOverride)>, key: &str) -> (r: Option<usize>)
    ensures
        match r {
            Some(j) => j < overrides.len() && overrides@[j as int].0@ == key@,
            None => forall|j: int| 0 <= j < overrides.len() ==> (#[trigger] overrides@[j]).0@ != key@,
        },
{
    let mut i: usize = 0;
    while i < overrides.len()
        invariant
            i <= overrides.len(),
            forall|j: int| 0 <= j < i ==> (#[trigger] overrides@[j]).0@ != key@,
        decreases overrides.len() - i,
    {
        if str_eq(overrides[i].0.as_str(), key) {
            return Some(i);
        }
        i = i + 1;
    }
    None
}

/// The layer percentages to save, one entry per layer key; where several
/// layers share a key, the last one's percentages are kept.
pub fn collect_layer_overrides(layers: &Vec<LayerDefinition>) -> (r: Vec<(String, LayerOverride)>)
    ensures
        keys_distinct(r@),
        forall|key: Seq<char>| #[trigger] override_for(r@, key) == last_override(layers@, key),
{
    let mut out: Vec<(String, LayerOverride)> = Vec::new();
    let mut i: usize = 0;
    while i < layers.len()
        invariant
            i <= layers.len(),
            keys_distinct(out@),
            forall|key: Seq<char>| #[trigger] override_for(out@, key) == last_override(layers@.take(i as int), key),
        decreases layers.len() - i,
    {
        let ov = LayerOverride { start_percent: layers[i].start_percent, end_percent: layers[i].end_percent };
        let ghost before = out@;
        let ghost lkey = layers@[i as int].key@;
        assert(layers@.take(i as int + 1).drop_last() =~= layers@.take(i as int));
        assert(layers@.take(i as int + 1).last() == layers@[i as int]);
        match position_of_key(&out, layers[i].key.as_str()) {
            Some(j) => {
                let k = out[j].0.clone();
                out.set(j, (k, ov));
                assert forall|a: int, b: int| 0 <= a < b < out@.len() implies out@[a].0@ != out@[b].0@ by {
                    assert(before[a].0@ != before[b].0@);
                }
                assert forall|key: Seq<char>| #[trigger] override_for(out@, key) == last_override(
                    layers@.take(i as int + 1),
                    key,
                ) by {
                    lemma_override_step(before, out@, key, lkey, j as int, ov);
                    assert(last_override(layers@.take(i as int), key) == override_for(before, key));
                }
            },
            None => {
                let k = layers[i].key.clone();
                out.push((k, ov));
                assert forall|a: int, b: int| 0 <= a < b < out@.len() implies out@[a].0@ != out@[b].0@ by {
                    if b < before.len() {
                        assert(before[a].0@ != before[b].0@);
                    } else {
                        assert(out@[b].0@ == lkey);
                        assert(out@[a] == before[a]);
                    }
                }
                assert forall|key: Seq<char>| #[trigger] override_for(out@, key) == last_override(
                    layers@.take(i as int + 1),
                    key,
                ) by {
                    lemma_override_step(before, out@, key, lkey, before.len() as int, ov);
                    assert(last_override(layers@.take(i as int), key) == override_for(before, key));
                }
            },
        }
        i = i + 1;
    }
    assert(layers@.take(layers.len() as int) =~= layers@);
    out
}

/// Writing `ov` under key `lkey` at position `j` (replacing the entry with
/// that key, or appending at the end) changes the override of `lkey` only.
proof fn lemma_override_step(before: Seq<(String, LayerOverride)>, after: Seq<(String, LayerOverride)>,
    key: Seq<char>, lkey: Seq<char>, j: int, ov: LayerOverride)
    requires
        keys_distinct(before),
        keys_distinct(after),
        0 <= j <= before.len(),
        j < before.len() ==> before[j].0@ == lkey && after.len() == before.len(),
        j == before.len() ==> after.len() == before.len() + 1,
        j == before.len() ==> forall|m: int| 0 <= m < before.len() ==> (#[trigger] before[m]).0@ != lkey,
        after[j].0@ == lkey,
        after[j].1 == ov,
        forall|m: int| 0 <= m < before.len() && m != j ==> #[trigger] after[m] == before[m],
    ensures
        override_for(after, key) == if key == lkey { Some(ov) } else { override_for(before, key) },
{
    lemma_override_for_distinct(before, key);
    lemma_override_for_distinct(after, key);
    if key == lkey {
    } else {
        if exists|m: int| 0 <= m < before.len() && (#[trigger] before[m]).0@ == key {
            let m = choose|m: int| 0 <= m < before.len() && (#[trigger] before[m]).0@ == key;
            assert(after[m] == before[m]);
        } else {
            assert forall|m: int| 0 <= m < after.len() implies (#[trigger] after[m]).0@ != key by {
                if m != j {
                    assert(after[m] == before[m]);
                }
            }
        }
    }
}

/// A save restores its layers: when no two layers share a key, the saved
/// override of every layer is exactly its own percentages, so
/// [`apply_layer_overrides`] with the collected overrides leaves every
/// layer's percentages as they were.
pub proof fn lemma_saved_layers_restore(layers: Seq<LayerDefinition>, overrides: Seq<(String, LayerOverride)>)
    requires
        forall|i: int, j: int| 0 <= i < j < layers.len() ==> layers[i].key@ != layers[j].key@,
        forall|key: Seq<char>| #[trigger] override_for(overrides, key) == last_override(layers, key),
    ensures
        forall|i: int| 0 <= i < layers.len() ==> override_for(overrides, (#[trigger] layers[i]).key@) == Some(
            layer_percents(layers[i]),
        ),
{
    assert forall|i: int| 0 <= i < layers.len() implies override_for(overrides, (#[trigger] layers[i]).key@)
        == Some(layer_percents(layers[i])) by {
        lemma_last_override_distinct(layers, i);
    }
}

/// With distinct keys, the last layer with a layer's key is that layer.
proof fn lemma_last_override_distinct(layers: Seq<LayerDefinition>, i: int)
    requires
        0 <= i < layers.len(),
        forall|a: int, b: int| 0 <= a < b < layers.len() ==> layers[a].key@ != layers[b].key@,
    ensures
        last_override(layers, layers[i].key@) == Some(layer_percents(layers[i])),
    decreases layers.len(),
{
    if i < layers.len() - 1 {
        let rest = layers.drop_last();
        assert(layers[i].key@ != layers[layers.len() - 1].key@);
        assert(rest[i] == layers[i]);
        lemma_last_override_distinct(rest, i);
    }
}

} // verus!
