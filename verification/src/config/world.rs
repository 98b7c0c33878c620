use vstd::prelude::*;

use crate::storage::perf_log::{lemma_name_lt_transitive, name_less, name_lt};

verus! {

/// The configuration of world sizes and layers.
///
/// Both tables are lists of `(key, entry)` pairs in strictly increasing key
/// order, as read from the configuration file (see [`WorldConfig::wf`]).
#[derive(Clone, Debug)]
pub struct WorldConfig {
    pub world_sizes: Vec<(String, WorldSize)>,
    pub layers: Vec<(String, LayerConfig)>,
}

/// The keys of `entries` are strictly increasing, so each occurs once.
pub open spec fn keys_ascending<T>(entries: Seq<(String, T)>) -> bool {
    forall|i: int, j: int| 0 <= i < j < entries.len() ==> name_lt((#[trigger] entries[i]).0@, (#[trigger] entries[j]).0@)
}

/// Whether the keys of `entries` are strictly increasing.
fn check_ascending<T>(entries: &Vec<(String, T)>) -> (r: bool)
    ensures
        r == keys_ascending(entries@),
{
    let n = entries.len();
    if n == 0 {
        return true;
    }
    let mut i: usize = 1;
    while i < n
        invariant
            n == entries.len(),
            1 <= i <= n,
            forall|a: int, b: int| 0 <= a < b < i ==> name_lt((#[trigger] entries@[a]).0@, (#[trigger] entries@[b]).0@),
        decreases n - i,
    {
        if !name_less(entries[i - 1].0.as_str(), entries[i].0.as_str()) {
            assert(!name_lt(entries@[i - 1].0@, entries@[i as int].0@));
            return false;
        }
        proof {
            assert forall|a: int, b: int| 0 <= a < b < i + 1 implies name_lt((#[trigger] entries@[a]).0@, (#[trigger] entries@[b]).0@) by {
                if b == i && a < i - 1 {
                    lemma_name_lt_transitive(entries@[a].0@, entries@[i - 1].0@, entries@[b].0@);
                }
            }
        }
        i = i + 1;
    }
    true
}

impl WorldConfig {
    /// Both tables list their keys in strictly increasing order.
    pub open spec fn wf(&self) -> bool {
        keys_ascending(self.world_sizes@) && keys_ascending(self.layers@)
    }

    /// Whether both tables list their keys in strictly increasing order.
    pub fn keys_in_order(&self) -> (r: bool)
        ensures
            r == self.wf(),
    {
        check_ascending(&self.world_sizes) && check_ascending(&self.layers)
    }
}

/// One preset world size; `custom` leaves width and height open.
#[derive(Clone, Debug)]
pub struct WorldSize {
    pub width: Option<u32>,
    pub height: Option<u32>,
    pub description: String,
}

/// One vertical layer, as percentages of the world height.
#[derive(Clone, Debug)]
pub struct LayerConfig {
    pub start_percent: u8,
    pub end_percent: u8,
    pub short_name: Option<String>,
    pub description: String,
}

} // verus!
