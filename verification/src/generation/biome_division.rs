//! Weighted choice of biomes for the horizontal biome division step.

use rand::Rng;
use vstd::prelude::*;
use vstd::string::StringExecFns;

use crate::base::biome::{BiomeDefinition, BiomeId};

verus! {

/// The random generator of a generation step.
#[verifier::external_type_specification]
#[verifier::external_body]
pub struct ExStdRng(rand::rngs::StdRng);

/// A uniformly drawn number in `[0, upper)`.
///
/// Calls `Rng::gen_range(0..upper)` of `rand`, which returns a value of the
/// range and panics on an empty range (hence `upper > 0`). Which value comes
/// out depends on the generator's state and is not stated.
#[verifier::external_body]
pub(crate) fn gen_below(rng: &mut rand::rngs::StdRng, upper: u32) -> (r: u32)
    requires
        upper > 0,
    ensures
        r < upper,
{
    rng.gen_range(0..upper)
}

/// A uniformly drawn number in `[lo, hi]`.
///
/// Calls `Rng::gen_range(lo..=hi)` of `rand`, which returns a value of the
/// range and panics on an empty range (hence `lo <= hi`). Which value comes
/// out depends on the generator's state and is not stated.
#[verifier::external_body]
pub(crate) fn gen_between(rng: &mut rand::rngs::StdRng, lo: u32, hi: u32) -> (r: u32)
    requires
        lo <= hi,
    ensures
        lo <= r <= hi,
{
    rng.gen_range(lo..=hi)
}

/// A horizontal band `[start, end)` of the world given to one biome.
#[derive(Clone, Copy, Debug, PartialEq, Eq, Structural)]
pub struct BiomeBand {
    pub biome: BiomeId,
    pub start: u32,
    pub end: u32,
}

/// Index of the first definition with id `id`.
pub open spec fn first_with_id(defs: Seq<BiomeDefinition>, id: BiomeId, i: int) -> bool {
    &&& 0 <= i < defs.len()
    &&& defs[i].id == id
    &&& forall|j: int| 0 <= j < i ==> defs[j].id != id
}

/// The ids of the definitions with a positive weight, in order.
pub open spec fn positive_weight_ids(defs: Seq<BiomeDefinition>) -> Seq<BiomeId>
    decreases defs.len(),
{
    if defs.len() == 0 {
        Seq::empty()
    } else {
        let rest = positive_weight_ids(defs.drop_last());
        if defs.last().generation_weight > 0 { rest.push(defs.last().id) } else { rest }
    }
}

/// The weight of the first definition with id `id` (0 if there is none).
pub open spec fn weight_of(defs: Seq<BiomeDefinition>, id: BiomeId) -> int {
    if exists|i: int| first_with_id(defs, id, i) {
        defs[choose|i: int| first_with_id(defs, id, i)].generation_weight as int
    } else {
        0
    }
}

/// Running sums of the weights of `ids`.
pub open spec fn running_weights(defs: Seq<BiomeDefinition>, ids: Seq<BiomeId>, n: int) -> int
    decreases n,
{
    if n <= 0 { 0 } else { running_weights(defs, ids, n - 1) + weight_of(defs, ids[n - 1]) }
}

/// The biome a roll picks: the first id whose running weight exceeds the
/// roll (the first id if none does).
pub open spec fn pick_for_roll(ids: Seq<BiomeId>, cumulative: Seq<u32>, roll: int) -> BiomeId {
    if exists|i: int| 0 <= i < cumulative.len() && roll < cumulative[i] {
        ids[choose|i: int| 0 <= i < cumulative.len() && roll < cumulative[i]
            && forall|j: int| 0 <= j < i ==> roll >= cumulative[j]]
    } else {
        ids[0]
    }
}

/// Horizontal division of the world into biome bands, with biomes drawn by
/// their configured weights; the biome of weight 0 is the ocean.
pub struct BiomeDivisionStep {
    biome_definitions: Vec<BiomeDefinition>,
    ocean_id: Option<BiomeId>,
    generatable_ids: Vec<BiomeId>,
    cumulative_weights: Vec<u32>,
}

impl BiomeDivisionStep {
    /// The biome table the step was made from.
    pub closed spec fn defs(self) -> Seq<BiomeDefinition> {
        self.biome_definitions@
    }

    /// The biome of weight 0, if any.
    pub closed spec fn ocean(self) -> Option<BiomeId> {
        self.ocean_id
    }

    /// The biomes that can be drawn, in table order.
    pub closed spec fn candidates(self) -> Seq<BiomeId> {
        self.generatable_ids@
    }

    /// Running sums of the candidates' weights.
    pub closed spec fn cumulative(self) -> Seq<u32> {
        self.cumulative_weights@
    }

    /// One running weight per candidate.
    pub open spec fn wf(self) -> bool {
        self.cumulative().len() == self.candidates().len()
    }

    /// Builds the step: the ocean is the first biome of weight 0; the
    /// candidates are the biomes of positive weight, with running weights.
    pub fn new(biome_definitions: Vec<BiomeDefinition>) -> (s: BiomeDivisionStep)
        requires
            running_weights(biome_definitions@, positive_weight_ids(biome_definitions@),
                positive_weight_ids(biome_definitions@).len() as int) <= u32::MAX,
        ensures
            s.wf(),
            s.defs() == biome_definitions@,
            match s.ocean() {
                Some(id) => exists|i: int| 0 <= i < biome_definitions.len() && biome_definitions@[i].generation_weight == 0
                    && biome_definitions@[i].id == id
                    && forall|j: int| 0 <= j < i ==> biome_definitions@[j].generation_weight != 0,
                None => forall|i: int| 0 <= i < biome_definitions.len() ==> biome_definitions@[i].generation_weight != 0,
            },
            s.candidates() == positive_weight_ids(biome_definitions@),
            forall|i: int| 0 <= i < s.cumulative().len() ==>
                #[trigger] s.cumulative()[i] == running_weights(biome_definitions@, s.candidates(), i + 1),
    {
        let n = biome_definitions.len();
        let mut ocean_id: Option<BiomeId> = None;
        let mut generatable_ids: Vec<BiomeId> = Vec::new();
        let mut i: usize = 0;
        while i < n
            invariant
                n == biome_definitions.len(),
                i <= n,
                generatable_ids@ == positive_weight_ids(biome_definitions@.subrange(0, i as int)),
                match ocean_id {
                    Some(id) => exists|k: int| 0 <= k < i && biome_definitions@[k].generation_weight == 0
                        && biome_definitions@[k].id == id
                        && forall|j: int| 0 <= j < k ==> biome_definitions@[j].generation_weight != 0,
                    None => forall|k: int| 0 <= k < i ==> biome_definitions@[k].generation_weight != 0,
                },
            decreases n - i,
        {
            let def = &biome_definitions[i];
            if def.generation_weight == 0 && ocean_id.is_none() {
                ocean_id = Some(def.id);
            }
            if def.generation_weight > 0 {
                generatable_ids.push(def.id);
            }
            proof {
                assert(biome_definitions@.subrange(0, i + 1).drop_last() =~= biome_definitions@.subrange(0, i as int));
            }
            i = i + 1;
        }
        proof { assert(biome_definitions@.subrange(0, n as int) =~= biome_definitions@); }
        let ghost ids = generatable_ids@;
        let ghost total = running_weights(biome_definitions@, ids, ids.len() as int);
        let mut cumulative_weights: Vec<u32> = Vec::new();
        let mut sum: u32 = 0;
        let mut k: usize = 0;
        while k < generatable_ids.len()
            invariant
                ids == generatable_ids@,
                ids == positive_weight_ids(biome_definitions@),
                total == running_weights(biome_definitions@, ids, ids.len() as int),
                total <= u32::MAX,
                k <= ids.len(),
                cumulative_weights.len() == k,
                sum == running_weights(biome_definitions@, ids, k as int),
                forall|j: int| 0 <= j < k ==> #[trigger] cumulative_weights@[j] == running_weights(biome_definitions@, ids, j + 1),
            decreases ids.len() - k,
        {
            let id = generatable_ids[k];
            let mut j: usize = 0;
            while j < biome_definitions.len() && biome_definitions[j].id != id
                invariant
                    j <= biome_definitions.len(),
                    forall|m: int| 0 <= m < j ==> biome_definitions@[m].id != id,
                decreases biome_definitions.len() - j,
            {
                j = j + 1;
            }
            let found: Option<u32> = if j < biome_definitions.len() {
                Some(biome_definitions[j].generation_weight)
            } else {
                None
            };
            proof {
                lemma_positive_ids_have_weight(biome_definitions@, k as int);
                lemma_running_weights_mono(biome_definitions@, ids, k as int + 1, ids.len() as int);
            }
            match found {
                Some(w) => {
                    proof {
                        assert(first_with_id(biome_definitions@, id, j as int));
                        lemma_first_with_id_unique(biome_definitions@, id, j as int);
                    }
                    sum = sum + w;
                    cumulative_weights.push(sum);
                },
                None => {
                    proof { assert(false); }
                },
            }
            k = k + 1;
        }
        BiomeDivisionStep { biome_definitions, ocean_id, generatable_ids, cumulative_weights }
    }

    /// The biome a roll in `[0, total weight)` selects.
    pub fn pick_weighted(&self, roll: u32) -> (id: BiomeId)
        requires
            self.wf(),
            self.candidates().len() > 0,
        ensures
            id == pick_for_roll(self.candidates(), self.cumulative(), roll as int),
    {
        let mut i: usize = 0;
        while i < self.cumulative_weights.len()
            invariant
                i <= self.cumulative_weights.len(),
                self.cumulative_weights.len() == self.generatable_ids.len(),
                forall|j: int| 0 <= j < i ==> roll >= self.cumulative_weights@[j],
            decreases self.cumulative_weights.len() - i,
        {
            if roll < self.cumulative_weights[i] {
                proof {
                    let c = self.cumulative();
                    assert(0 <= i < c.len() && roll < c[i as int]);
                    let k = choose|k: int| 0 <= k < c.len() && roll < c[k] && forall|j: int| 0 <= j < k ==> roll >= c[j];
                    assert(0 <= i < c.len() && roll < c[i as int] && forall|j: int| 0 <= j < i ==> roll >= c[j]);
                    if k < i { assert(roll >= c[k]); }
                    if i < k { assert(roll >= c[i as int]); }
                }
                return self.generatable_ids[i];
            }
            i = i + 1;
        }
        self.generatable_ids[0]
    }

    /// Draws a biome with probability proportional to its weight; `1` when
    /// no biome can be drawn.
    pub fn random_biome(&self, rng: &mut rand::rngs::StdRng) -> (id: BiomeId)
        requires
            self.wf(),
            self.cumulative().len() > 0 ==> self.cumulative().last() > 0,
        ensures
            self.candidates().len() == 0 ==> id == 1,
            self.candidates().len() > 0 ==> exists|roll: int| 0 <= roll < self.cumulative().last()
                && id == pick_for_roll(self.candidates(), self.cumulative(), roll),
    {
        if self.generatable_ids.len() == 0 || self.cumulative_weights.len() == 0 {
            return 1;
        }
        let total = self.cumulative_weights[self.cumulative_weights.len() - 1];
        let roll = gen_below(rng, total);
        self.pick_weighted(roll)
    }

    /// A biome [`Self::random_biome`] can return.
    pub open spec fn drawable(self, id: BiomeId) -> bool {
        &&& self.candidates().len() == 0 ==> id == 1
        &&& self.candidates().len() > 0 ==> exists|roll: int| 0 <= roll < self.cumulative().last()
            && id == pick_for_roll(self.candidates(), self.cumulative(), roll)
    }

    /// The step's display name.
    pub fn name(&self) -> (s: &'static str)
        ensures
            s@ == "环境划分"@,
    {
        "环境划分"
    }

    /// The step's description.
    pub fn description(&self) -> (s: &'static str)
        ensures
            s@ == "水平方向划分世界环境（海洋/森林/沙漠/雪地/丛林/猩红）"@,
    {
        "水平方向划分世界环境（海洋/森林/沙漠/雪地/丛林/猩红）"
    }

    /// Divides a world `world_width` columns wide into biome bands: the
    /// ocean over the first `ocean_left_width` columns and over as many at
    /// the right edge, and between them bands of drawn biomes, each 300 to
    /// 800 columns wide (narrower only where less room is left). Fails when
    /// the table has no ocean (no biome of weight 0).
    pub fn execute(&self, world_width: u32, ocean_left_width: u32, rng: &mut rand::rngs::StdRng)
        -> (r: Result<Vec<BiomeBand>, String>)
        requires
            self.wf(),
            self.cumulative().len() > 0 ==> self.cumulative().last() > 0,
            2 * ocean_left_width <= world_width,
        ensures
            self.ocean() is None ==> (r matches Err(msg) && msg@ == "biome.json 中未找到海洋环境（generation_weight=0）"@),
            self.ocean() is Some ==> r is Ok,
            r matches Ok(bands) ==> {
                let right = world_width - ocean_left_width;
                &&& bands.len() >= 2
                &&& bands@[0] == (BiomeBand { biome: self.ocean()->0, start: 0, end: ocean_left_width })
                &&& bands@[bands.len() - 1] == (BiomeBand { biome: self.ocean()->0, start: right as u32, end: world_width })
                &&& forall|i: int| 0 <= i < bands.len() - 1 ==> (#[trigger] bands@[i]).end == bands@[i + 1].start
                &&& forall|i: int| 1 <= i < bands.len() - 1 ==> {
                    let b = #[trigger] bands@[i];
                    let room = right - b.start;
                    &&& (if room < 300 { room } else { 300 }) <= b.end - b.start
                    &&& b.end - b.start <= (if room < 800 { room } else { 800 })
                    &&& self.drawable(b.biome)
                }
            },
    {
        let ocean = match self.ocean_id {
            Some(o) => o,
            None => return Err(String::from_str("biome.json 中未找到海洋环境（generation_weight=0）")),
        };
        let right = world_width - ocean_left_width;
        let mut bands: Vec<BiomeBand> = Vec::new();
        bands.push(BiomeBand { biome: ocean, start: 0, end: ocean_left_width });
        let mut x = ocean_left_width;
        while x < right
            invariant
                self.wf(),
                self.cumulative().len() > 0 ==> self.cumulative().last() > 0,
                self.ocean() == Some(ocean),
                right == world_width - ocean_left_width,
                ocean_left_width <= x <= right,
                bands.len() >= 1,
                bands@[0] == (BiomeBand { biome: ocean, start: 0, end: ocean_left_width }),
                bands@[bands.len() - 1].end == x,
                forall|i: int| 0 <= i < bands.len() - 1 ==> (#[trigger] bands@[i]).end == bands@[i + 1].start,
                forall|i: int| 1 <= i < bands.len() ==> {
                    let b = #[trigger] bands@[i];
                    let room = right - b.start;
                    &&& (if room < 300 { room } else { 300 }) <= b.end - b.start
                    &&& b.end - b.start <= (if room < 800 { room } else { 800 })
                    &&& self.drawable(b.biome)
                },
            decreases right - x,
        {
            let biome = self.random_biome(rng);
            let room = right - x;
            let min_width = if room < 300 { room } else { 300 };
            let max_width = if room < 800 { room } else { 800 };
            let width = if min_width >= max_width { min_width } else { gen_between(rng, min_width, max_width) };
            let end = if x + width < right { x + width } else { right };
            let ghost before = bands@;
            bands.push(BiomeBand { biome, start: x, end });
            assert(bands@[before.len() - 1] == before[before.len() - 1]);
            x = end;
        }
        let ghost before = bands@;
        bands.push(BiomeBand { biome: ocean, start: right, end: world_width });
        assert(bands@[before.len() - 1] == before[before.len() - 1]);
        Ok(bands)
    }

    /// The biome of weight 0 (the ocean), if the table has one.
    pub fn ocean_id(&self) -> (r: Option<BiomeId>)
        ensures
            r == self.ocean(),
    {
        self.ocean_id
    }
}

/// The weighted pick: with running weights `w_0 <= w_1 <= ...` over the
/// candidates, every roll in `[w_j, w_(j+1))` picks candidate `j`, and that
/// interval holds exactly `weight(candidate j)` rolls; so a roll uniform in
/// `[0, total)` picks each candidate with probability weight / total.
pub proof fn lemma_weighted_pick(defs: Seq<BiomeDefinition>, ids: Seq<BiomeId>, cumulative: Seq<u32>, j: int, roll: int)
    requires
        cumulative.len() == ids.len(),
        forall|i: int| 0 <= i < cumulative.len() ==> #[trigger] cumulative[i] == running_weights(defs, ids, i + 1),
        0 <= j < ids.len(),
        running_weights(defs, ids, j) <= roll < running_weights(defs, ids, j + 1),
    ensures
        pick_for_roll(ids, cumulative, roll) == ids[j],
        running_weights(defs, ids, j + 1) - running_weights(defs, ids, j) == weight_of(defs, ids[j]),
{
    assert(roll < cumulative[j]);
    assert forall|k: int| 0 <= k < j implies roll >= #[trigger] cumulative[k] by {
        lemma_running_weights_mono(defs, ids, k + 1, j);
    }
    let i = choose|i: int| 0 <= i < cumulative.len() && roll < cumulative[i]
        && forall|m: int| 0 <= m < i ==> roll >= cumulative[m];
    assert(0 <= j < cumulative.len() && roll < cumulative[j] && forall|m: int| 0 <= m < j ==> roll >= cumulative[m]);
    if i < j {
        assert(roll >= cumulative[i]);
    }
    if j < i {
        assert(roll >= cumulative[j]);
    }
}

proof fn lemma_first_with_id_unique(defs: Seq<BiomeDefinition>, id: BiomeId, i: int)
    requires
        first_with_id(defs, id, i),
    ensures
        weight_of(defs, id) == defs[i].generation_weight,
{
    let k = choose|k: int| first_with_id(defs, id, k);
    assert(first_with_id(defs, id, k));
    if k < i { assert(defs[k].id != id); }
    if i < k { assert(defs[i].id != id); }
}

/// Every candidate id names a definition of positive weight, and so has a
/// first definition whose weight is positive.
proof fn lemma_positive_ids_have_weight(defs: Seq<BiomeDefinition>, k: int)
    requires
        0 <= k < positive_weight_ids(defs).len(),
    ensures
        exists|i: int| 0 <= i < defs.len() && defs[i].id == positive_weight_ids(defs)[k],
    decreases defs.len(),
{
    let rest = positive_weight_ids(defs.drop_last());
    if k < rest.len() {
        lemma_positive_ids_have_weight(defs.drop_last(), k);
        let i = choose|i: int| 0 <= i < defs.drop_last().len() && defs.drop_last()[i].id == rest[k];
        assert(defs[i].id == positive_weight_ids(defs)[k]);
    } else {
        assert(defs[defs.len() - 1].id == positive_weight_ids(defs)[k]);
    }
}

proof fn lemma_running_weights_mono(defs: Seq<BiomeDefinition>, ids: Seq<BiomeId>, i: int, j: int)
    requires
        0 <= i <= j,
    ensures
        running_weights(defs, ids, i) <= running_weights(defs, ids, j),
    decreases j - i,
{
    if i < j {
        lemma_running_weights_mono(defs, ids, i, j - 1);
    }
}

} // verus!
