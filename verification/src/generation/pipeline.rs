//! The position bookkeeping of the generation pipeline.
//!
//! The pipeline runs registered phase algorithms sub-step by sub-step. This
//! module keeps the part that decides *what* runs: the registered phases,
//! the cursor `(phase, sub-step)` of the next sub-step, the master seed and
//! the seed each sub-step gets. Running a sub-step is the caller's work: it
//! asks [`GenerationPipeline::plan_next_step`], executes that sub-step with a
//! generator seeded from the plan, and on success calls
//! [`GenerationPipeline::commit_step`]. Stepping back rewinds the cursor and
//! replays from the start up to the target the pipeline names.

use vstd::prelude::*;

use crate::generation::algorithm::{PhaseHeader, StepMeta};
use crate::text::{decimal, usize_to_decimal};
use vstd::string::StringExecFns;

verus! {

/// Sum of the first `n` entries of `counts`.
pub open spec fn prefix_sum(counts: Seq<usize>, n: int) -> int
    decreases n,
{
    if n <= 0 { 0 } else { prefix_sum(counts, n - 1) + counts[n - 1] }
}

/// Prefix sums never decrease.
pub proof fn lemma_prefix_sum_mono(counts: Seq<usize>, i: int, j: int)
    requires
        0 <= i <= j <= counts.len(),
    ensures
        prefix_sum(counts, i) <= prefix_sum(counts, j),
    decreases j - i,
{
    if i < j {
        lemma_prefix_sum_mono(counts, i, j - 1);
    }
}

/// 2^64.
pub open spec fn u64_modulus() -> int {
    0x1_0000_0000_0000_0000
}

/// The seed of sub-step `step_index`: the master seed offset by the step
/// index, mixed with the world size (`width * 2^32 + height`) so that the
/// same seed on another world size gives another world; all modulo 2^64.
pub open spec fn step_seed(master: u64, step_index: int, width: u32, height: u32) -> int {
    ((master + step_index) * 6_364_136_223_846_793_005int + 1_442_695_040_888_963_407int
        + (width * 0x1_0000_0000int + height) * 2_862_933_555_777_941_757int) % u64_modulus()
}

/// Different world sizes give different sub-step seeds: with the same
/// master seed and step index, two sizes that lead to the same seed are the
/// same size.
pub proof fn lemma_step_seed_separates_sizes(master: u64, step_index: int, w1: u32, h1: u32, w2: u32, h2: u32)
    requires
        step_seed(master, step_index, w1, h1) == step_seed(master, step_index, w2, h2),
    ensures
        w1 == w2,
        h1 == h2,
{
    let m = u64_modulus();
    let k = (master + step_index) * 6_364_136_223_846_793_005int + 1_442_695_040_888_963_407int;
    let m1 = w1 * 0x1_0000_0000int + h1;
    let m2 = w2 * 0x1_0000_0000int + h2;
    let c = 2_862_933_555_777_941_757int;
    let x = k + m1 * c;
    let y = k + m2 * c;
    vstd::arithmetic::div_mod::lemma_fundamental_div_mod(x, m);
    vstd::arithmetic::div_mod::lemma_fundamental_div_mod(y, m);
    let t = x / m - y / m;
    let d = m1 - m2;
    assert(d * c == m * t) by (nonlinear_arith)
        requires
            x == m * (x / m) + x % m,
            y == m * (y / m) + y % m,
            x % m == y % m,
            x == k + m1 * c,
            y == k + m2 * c,
            d == m1 - m2,
            t == x / m - y / m;
    let inv = 16_133_697_096_952_638_549int;
    let u = 2_503_948_805_982_125_087int;
    assert(c * inv == 1 + m * u);
    let q = t * inv - d * u;
    assert(d == m * q) by (nonlinear_arith)
        requires
            d * c == m * t,
            c * inv == 1 + m * u,
            q == t * inv - d * u;
    assert(-m < d < m);
    if q > 0 {
        assert(m * q >= m) by (nonlinear_arith)
            requires q >= 1, m > 0;
    } else if q < 0 {
        assert(m * q <= -m) by (nonlinear_arith)
            requires q <= -1, m > 0;
    }
    assert(d == 0);
}

proof fn lemma_wrapping_add_is_mod(x: u64, y: u64)
    ensures
        vstd::wrapping::u64_specs::wrapping_add(x, y) as int == (x + y) % u64_modulus(),
{
    if x + y > u64::MAX {
        let v = x + y - u64_modulus();
        vstd::arithmetic::div_mod::lemma_mod_add_multiples_vanish(v, u64_modulus());
        vstd::arithmetic::div_mod::lemma_small_mod(v as nat, u64_modulus() as nat);
    } else {
        vstd::arithmetic::div_mod::lemma_small_mod((x + y) as nat, u64_modulus() as nat);
    }
}

/// The per-sub-step seed derived from the master seed, the sub-step's flat
/// index and the world size.
pub fn derive_step_seed(master: u64, step_index: usize, world_width: u32, world_height: u32) -> (r: u64)
    ensures
        r as int == step_seed(master, step_index as int, world_width, world_height),
{
    let size_mix: u64 = (world_width as u64) << 32u64 | (world_height as u64);
    let w64 = world_width as u64;
    let h64 = world_height as u64;
    assert(size_mix == w64 * 0x1_0000_0000u64 + h64) by (bit_vector)
        requires
            size_mix == (w64 << 32u64) | h64,
            w64 <= 0xffff_ffffu64,
            h64 <= 0xffff_ffffu64;
    let a = master.wrapping_add(step_index as u64);
    let b = a.wrapping_mul(6_364_136_223_846_793_005);
    let c = b.wrapping_add(1_442_695_040_888_963_407);
    let d = size_mix.wrapping_mul(2_862_933_555_777_941_757);
    let r = c.wrapping_add(d);
    proof {
        let m = u64_modulus();
        lemma_wrapping_add_is_mod(master, step_index as u64);
        lemma_wrapping_add_is_mod(b, 1_442_695_040_888_963_407);
        lemma_wrapping_add_is_mod(c, d);
        let s = master + step_index;
        vstd::arithmetic::div_mod::lemma_mul_mod_noop_left(s, 6_364_136_223_846_793_005int, m);
        let p = s * 6_364_136_223_846_793_005int;
        vstd::arithmetic::div_mod::lemma_add_mod_noop(p, 1_442_695_040_888_963_407int, m);
        vstd::arithmetic::div_mod::lemma_small_mod(1_442_695_040_888_963_407nat, m as nat);
        vstd::arithmetic::div_mod::lemma_mod_twice(p, m);
        let q = p + 1_442_695_040_888_963_407int;
        let e = size_mix * 2_862_933_555_777_941_757int;
        vstd::arithmetic::div_mod::lemma_add_mod_noop(q, e, m);
        vstd::arithmetic::div_mod::lemma_mod_twice(q, m);
        vstd::arithmetic::div_mod::lemma_mod_twice(e, m);
        assert(c as int == q % m);
        assert(d as int == e % m);
    }
    r
}

/// Display status of a sub-step or phase relative to the cursor.
#[derive(Clone, Copy, Debug, PartialEq, Eq, Structural)]
pub enum StepStatus {
    Completed,
    Current,
    Pending,
}

/// One sub-step as shown in the control panel.
#[derive(Clone, Debug)]
pub struct SubStepInfo {
    /// `"<phase number>.<sub-step index>"`, such as `"1.0"`.
    pub display_id: String,
    pub name: String,
    pub description: String,
    pub doc_url: Option<String>,
    pub status: StepStatus,
}

/// One phase as shown in the control panel.
#[derive(Clone, Debug)]
pub struct PhaseInfo {
    /// Phase number, counted from 1.
    pub display_index: u32,
    pub algorithm_id: String,
    pub name: String,
    pub description: String,
    pub has_params: bool,
    pub sub_steps: Vec<SubStepInfo>,
    pub status: StepStatus,
}

/// The sub-step to run next.
#[derive(Clone, Copy, Debug, PartialEq, Eq, Structural)]
pub struct StepPlan {
    pub phase_index: usize,
    pub sub_index: usize,
    /// Position of the sub-step in the flat order of all sub-steps.
    pub flat_index: usize,
    /// Seed for this sub-step's random generator.
    pub step_seed: u64,
}

/// Registered phases, master seed and the cursor of the next sub-step.
pub struct GenerationPipeline {
    phases: Vec<PhaseHeader>,
    step_counts: Vec<usize>,
    total_steps_cache: usize,
    seed: u64,
    current_phase: usize,
    current_sub: usize,
}

impl GenerationPipeline {
    /// The cursor and the cached counts are consistent.
    pub closed spec fn wf(self) -> bool {
        &&& self.step_counts.len() == self.phases.len()
        &&& forall|i: int| 0 <= i < self.phases.len() ==> #[trigger] self.step_counts@[i] == self.phases@[i].steps.len()
            && self.step_counts@[i] > 0
        &&& self.total_steps_cache == prefix_sum(self.step_counts@, self.step_counts.len() as int)
        &&& self.current_phase <= self.phases.len()
        &&& self.current_phase < self.phases.len() ==> self.current_sub < self.step_counts@[self.current_phase as int]
        &&& self.current_phase == self.phases.len() ==> self.current_sub == 0
    }

    /// Number of sub-steps of each phase, in registration order.
    pub closed spec fn counts(self) -> Seq<usize> {
        self.step_counts@
    }

    /// The registered phases, in registration order.
    pub closed spec fn headers(self) -> Seq<PhaseHeader> {
        self.phases@
    }

    /// The master seed.
    pub closed spec fn spec_seed(self) -> u64 {
        self.seed
    }

    /// Phase of the next sub-step (the phase count once all have run).
    pub closed spec fn phase(self) -> int {
        self.current_phase as int
    }

    /// Index of the next sub-step within its phase.
    pub closed spec fn sub(self) -> int {
        self.current_sub as int
    }

    /// Number of sub-steps already executed.
    pub open spec fn executed(self) -> int {
        prefix_sum(self.counts(), self.phase()) + self.sub()
    }

    /// Number of registered sub-steps.
    pub open spec fn total(self) -> int {
        prefix_sum(self.counts(), self.counts().len() as int)
    }

    /// The facts the cursor always satisfies.
    pub proof fn lemma_cursor(&self)
        requires
            self.wf(),
        ensures
            self.counts().len() == self.headers().len(),
            forall|i: int| 0 <= i < self.headers().len() ==> #[trigger] self.counts()[i] == self.headers()[i].steps.len()
                && self.counts()[i] > 0,
            0 <= self.phase() <= self.counts().len(),
            self.phase() < self.counts().len() ==> 0 <= self.sub() < self.counts()[self.phase()],
            self.phase() == self.counts().len() ==> self.sub() == 0,
            0 <= self.executed() <= self.total() <= usize::MAX,
            (self.executed() == self.total()) <==> (self.phase() == self.counts().len()),
    {
        let n = self.counts().len() as int;
        if self.phase() < n {
            lemma_prefix_sum_mono(self.counts(), self.phase() + 1, n);
        }
        lemma_prefix_sum_mono(self.counts(), self.phase(), n);
        lemma_prefix_sum_mono(self.counts(), 0, self.phase());
    }

    /// Replaying reaches the same place: two pipelines with the same phases
    /// that have executed the same number of sub-steps stand on the same
    /// phase and sub-step, so [`Self::plan_next_step`] plans the same
    /// sub-step for both, with the same seed when their master seeds agree.
    pub proof fn lemma_cursor_follows_progress(a: &Self, b: &Self)
        requires
            a.wf(),
            b.wf(),
            a.counts() == b.counts(),
            a.executed() == b.executed(),
        ensures
            a.phase() == b.phase(),
            a.sub() == b.sub(),
    {
        a.lemma_cursor();
        b.lemma_cursor();
        let c = a.counts();
        if a.phase() < b.phase() {
            lemma_prefix_sum_mono(c, a.phase() + 1, b.phase());
            assert(prefix_sum(c, a.phase() + 1) == prefix_sum(c, a.phase()) + c[a.phase()]);
        } else if b.phase() < a.phase() {
            lemma_prefix_sum_mono(c, b.phase() + 1, a.phase());
            assert(prefix_sum(c, b.phase() + 1) == prefix_sum(c, b.phase()) + c[b.phase()]);
        }
    }

    /// An empty pipeline with master seed `seed`.
    pub fn new(seed: u64) -> (p: GenerationPipeline)
        ensures
            p.wf(),
            p.counts() == Seq::<usize>::empty(),
            p.headers() == Seq::<PhaseHeader>::empty(),
            p.spec_seed() == seed,
            p.phase() == 0,
            p.sub() == 0,
    {
        GenerationPipeline {
            phases: Vec::new(),
            step_counts: Vec::new(),
            total_steps_cache: 0,
            seed,
            current_phase: 0,
            current_sub: 0,
        }
    }

    /// Appends a phase; the cursor keeps its place (a pipeline that had run
    /// to the end now stands at the start of the new phase).
    pub fn register(&mut self, header: PhaseHeader)
        requires
            old(self).wf(),
            header.steps.len() > 0,
            old(self).total() + header.steps.len() <= usize::MAX,
        ensures
            final(self).wf(),
            final(self).headers() == old(self).headers().push(header),
            final(self).counts() == old(self).counts().push(header.steps.len()),
            final(self).spec_seed() == old(self).spec_seed(),
            final(self).phase() == old(self).phase(),
            final(self).sub() == old(self).sub(),
    {
        let count = header.steps.len();
        let ghost old_counts = self.step_counts@;
        self.total_steps_cache = self.total_steps_cache + count;
        self.step_counts.push(count);
        self.phases.push(header);
        proof {
            assert(prefix_sum(self.step_counts@, old_counts.len() as int) == prefix_sum(old_counts, old_counts.len() as int)) by {
                lemma_prefix_sum_prefix(old_counts, self.step_counts@, old_counts.len() as int);
            }
        }
    }

    /// Number of registered sub-steps.
    pub fn total_sub_steps(&self) -> (n: usize)
        requires
            self.wf(),
        ensures
            n == self.total(),
    {
        self.total_steps_cache
    }

    /// Number of sub-steps already executed.
    pub fn executed_sub_steps(&self) -> (n: usize)
        requires
            self.wf(),
        ensures
            n == self.executed(),
    {
        proof {
            self.lemma_cursor();
        }
        let mut full: usize = 0;
        let mut i: usize = 0;
        while i < self.current_phase
            invariant
                i <= self.current_phase <= self.step_counts.len(),
                full == prefix_sum(self.step_counts@, i as int),
                prefix_sum(self.step_counts@, self.current_phase as int) <= usize::MAX,
            decreases self.current_phase - i,
        {
            proof { lemma_prefix_sum_mono(self.step_counts@, i as int + 1, self.current_phase as int); }
            full = full + self.step_counts[i];
            i = i + 1;
        }
        full + self.current_sub
    }

    /// Whether every registered sub-step has run.
    pub fn is_complete(&self) -> (r: bool)
        requires
            self.wf(),
        ensures
            r == (self.phase() == self.counts().len()),
            r == (self.executed() == self.total()),
    {
        proof {
            self.lemma_cursor();
        }
        self.current_phase >= self.phases.len()
    }

    /// The master seed.
    pub fn seed(&self) -> (s: u64)
        ensures
            s == self.spec_seed(),
    {
        self.seed
    }

    /// Replaces the master seed; the cursor is unchanged.
    pub fn set_seed(&mut self, seed: u64)
        requires
            old(self).wf(),
        ensures
            final(self).wf(),
            final(self).spec_seed() == seed,
            final(self).headers() == old(self).headers(),
            final(self).counts() == old(self).counts(),
            final(self).phase() == old(self).phase(),
            final(self).sub() == old(self).sub(),
    {
        self.seed = seed;
    }

    /// Phase of the next sub-step.
    pub fn current_phase_index(&self) -> (i: usize)
        ensures
            i == self.phase(),
    {
        self.current_phase
    }

    /// Index of the next sub-step within its phase.
    pub fn current_sub_index(&self) -> (i: usize)
        ensures
            i == self.sub(),
    {
        self.current_sub
    }

    /// Phase and sub-step index of the sub-step at flat position `flat`;
    /// `(phase count, 0)` when `flat` is past the last sub-step.
    pub fn flat_to_position(&self, flat: usize) -> (r: (usize, usize))
        requires
            self.wf(),
        ensures
            flat < self.total() ==> locates(self.counts(), flat as int, r.0 as int, r.1 as int),
            flat >= self.total() ==> r == (self.counts().len() as usize, 0usize),
    {
        let mut remaining = flat;
        let mut pi: usize = 0;
        while pi < self.step_counts.len()
            invariant
                self.wf(),
                pi <= self.step_counts.len(),
                remaining == flat - prefix_sum(self.step_counts@, pi as int),
                flat >= prefix_sum(self.step_counts@, pi as int),
            decreases self.step_counts.len() - pi,
        {
            let count = self.step_counts[pi];
            if remaining < count {
                proof { lemma_prefix_sum_mono(self.step_counts@, pi as int + 1, self.step_counts.len() as int); }
                return (pi, remaining);
            }
            remaining = remaining - count;
            pi = pi + 1;
        }
        (self.phases.len(), 0)
    }

    /// The sub-step to run next, with its seed for a world of the given size;
    /// `None` once every sub-step has run.
    pub fn plan_next_step(&self, world_width: u32, world_height: u32) -> (r: Option<StepPlan>)
        requires
            self.wf(),
        ensures
            match r {
                None => self.executed() == self.total(),
                Some(plan) => {
                    &&& self.executed() < self.total()
                    &&& plan.phase_index == self.phase()
                    &&& plan.sub_index == self.sub()
                    &&& plan.flat_index == self.executed()
                    &&& plan.step_seed as int == step_seed(self.spec_seed(), self.executed(), world_width, world_height)
                },
            },
    {
        proof { self.lemma_cursor(); }
        if self.is_complete() {
            return None;
        }
        let flat_index = self.executed_sub_steps();
        let step_seed = derive_step_seed(self.seed, flat_index, world_width, world_height);
        Some(StepPlan { phase_index: self.current_phase, sub_index: self.current_sub, flat_index, step_seed })
    }

    /// Records that the planned sub-step ran: the cursor moves to the next
    /// sub-step, rolling over into the next phase.
    pub fn commit_step(&mut self)
        requires
            old(self).wf(),
            old(self).executed() < old(self).total(),
        ensures
            final(self).wf(),
            final(self).executed() == old(self).executed() + 1,
            final(self).headers() == old(self).headers(),
            final(self).counts() == old(self).counts(),
            final(self).spec_seed() == old(self).spec_seed(),
    {
        proof { self.lemma_cursor(); }
        self.current_sub = self.current_sub + 1;
        if self.current_sub >= self.step_counts[self.current_phase] {
            self.current_phase = self.current_phase + 1;
            self.current_sub = 0;
        }
    }

    /// Moves the cursor back to the first sub-step.
    pub fn rewind(&mut self)
        requires
            old(self).wf(),
        ensures
            final(self).wf(),
            final(self).executed() == 0,
            final(self).phase() == 0,
            final(self).sub() == 0,
            final(self).headers() == old(self).headers(),
            final(self).counts() == old(self).counts(),
            final(self).spec_seed() == old(self).spec_seed(),
    {
        self.current_phase = 0;
        self.current_sub = 0;
    }

    /// Target of a small step back: one sub-step before the cursor, or
    /// `None` at the start.
    pub fn backward_sub_target(&self) -> (r: Option<usize>)
        requires
            self.wf(),
        ensures
            self.executed() == 0 ==> r is None,
            self.executed() > 0 ==> r == Some((self.executed() - 1) as usize),
    {
        let executed = self.executed_sub_steps();
        if executed == 0 {
            return None;
        }
        Some(executed - 1)
    }

    /// Target of a big step back: the start of the current phase, or the
    /// start of the previous phase when the cursor already stands at the
    /// start of one; `None` at the very start.
    pub fn backward_phase_target(&self) -> (r: Option<usize>)
        requires
            self.wf(),
        ensures
            self.executed() == 0 ==> r is None,
            self.executed() > 0 ==> r == Some((
                if self.executed() > prefix_sum(self.counts(), self.phase()) {
                    prefix_sum(self.counts(), self.phase())
                } else if self.phase() > 0 {
                    prefix_sum(self.counts(), self.phase() - 1)
                } else {
                    0
                }) as usize),
    {
        proof { self.lemma_cursor(); }
        let executed = self.executed_sub_steps();
        if executed == 0 {
            return None;
        }
        let start = self.prefix_count(self.current_phase);
        if executed > start {
            Some(start)
        } else if self.current_phase > 0 {
            Some(self.prefix_count(self.current_phase - 1))
        } else {
            Some(0)
        }
    }

    /// Number of sub-steps in the first `n` phases.
    fn prefix_count(&self, n: usize) -> (r: usize)
        requires
            self.wf(),
            n <= self.counts().len(),
        ensures
            r == prefix_sum(self.counts(), n as int),
    {
        proof { self.lemma_cursor(); }
        let mut sum: usize = 0;
        let mut i: usize = 0;
        while i < n
            invariant
                self.wf(),
                i <= n <= self.step_counts.len(),
                sum == prefix_sum(self.step_counts@, i as int),
                prefix_sum(self.step_counts@, self.step_counts.len() as int) <= usize::MAX,
            decreases n - i,
        {
            proof { lemma_prefix_sum_mono(self.step_counts@, i as int + 1, self.step_counts.len() as int); }
            sum = sum + self.step_counts[i];
            i = i + 1;
        }
        sum
    }

    /// The phase whose settings the configuration panel shows: the phase of
    /// the last executed sub-step when the cursor sits at a phase boundary,
    /// the cursor's phase otherwise (clamped to the last phase).
    pub fn current_algorithm_index(&self) -> (r: Option<usize>)
        requires
            self.wf(),
        ensures
            self.counts().len() == 0 ==> r is None,
            self.counts().len() > 0 ==> r == Some((
                if self.sub() > 0 || self.phase() == 0 {
                    if self.phase() < self.counts().len() - 1 { self.phase() } else { self.counts().len() - 1 }
                } else {
                    self.phase() - 1
                }) as usize),
    {
        if self.phases.len() == 0 {
            return None;
        }
        let last = self.phases.len() - 1;
        let idx = if self.current_sub > 0 || self.current_phase == 0 {
            if self.current_phase < last { self.current_phase } else { last }
        } else {
            self.current_phase - 1
        };
        Some(idx)
    }

    /// `"<phase name> - <sub-step name>"` of the last executed sub-step.
    pub fn last_executed_name(&self) -> (r: Option<String>)
        requires
            self.wf(),
        ensures
            self.executed() == 0 ==> r is None,
            self.executed() > 0 ==> exists|p: int, s: int| #[trigger] locates(self.counts(), self.executed() - 1, p, s)
                && (r matches Some(name) && name@ == self.headers()[p].name@ + " - "@ + self.headers()[p].steps@[s].name@),
    {
        proof { self.lemma_cursor(); }
        let executed = self.executed_sub_steps();
        if executed == 0 {
            return None;
        }
        let (p, s) = self.flat_to_position(executed - 1);
        let mut name = self.phases[p].name.clone();
        name.append(" - ");
        name.append(self.phases[p].steps[s].name.as_str());
        Some(name)
    }

    /// `"<phase number>.<display index>"` of the next sub-step, or `None`
    /// once every sub-step has run.
    pub fn current_step_display_id(&self) -> (r: Option<String>)
        requires
            self.wf(),
        ensures
            self.phase() == self.counts().len() ==> r is None,
            self.phase() < self.counts().len() ==> (r matches Some(id) && id@ == decimal((self.phase() + 1) as nat) + "."@
                + decimal(self.headers()[self.phase()].steps@[self.sub()].display_index as nat)),
    {
        proof { self.lemma_cursor(); }
        if self.current_phase >= self.phases.len() {
            return None;
        }
        let mut id = usize_to_decimal(self.current_phase + 1);
        id.append(".");
        let idx = usize_to_decimal(self.phases[self.current_phase].steps[self.current_sub].display_index as usize);
        id.append(idx.as_str());
        Some(id)
    }

    /// The phase and sub-step list shown by the control panel, with each
    /// entry's status relative to the cursor.
    pub fn phase_info_list(&self) -> (r: Vec<PhaseInfo>)
        requires
            self.wf(),
        ensures
            r.len() == self.headers().len(),
            forall|pi: int| 0 <= pi < r.len() ==> #[trigger] phase_info_matches(r@[pi], self.headers()[pi], pi,
                prefix_sum(self.counts(), pi), prefix_sum(self.counts(), pi + 1), self.executed()),
    {
        proof { self.lemma_cursor(); }
        let executed = self.executed_sub_steps();
        let mut out: Vec<PhaseInfo> = Vec::new();
        let mut flat: usize = 0;
        let mut pi: usize = 0;
        while pi < self.phases.len()
            invariant
                self.wf(),
                pi <= self.phases.len(),
                self.step_counts.len() == self.phases.len(),
                executed == self.executed(),
                flat == prefix_sum(self.step_counts@, pi as int),
                prefix_sum(self.step_counts@, self.step_counts.len() as int) <= usize::MAX,
                out.len() == pi,
                forall|k: int| 0 <= k < pi ==> #[trigger] phase_info_matches(out@[k], self.phases@[k], k,
                    prefix_sum(self.step_counts@, k), prefix_sum(self.step_counts@, k + 1), executed as int),
            decreases self.phases.len() - pi,
        {
            proof {
                self.lemma_cursor();
                lemma_prefix_sum_mono(self.step_counts@, pi as int + 1, self.step_counts.len() as int);
            }
            let header = &self.phases[pi];
            let phase_start = flat;
            let mut subs: Vec<SubStepInfo> = Vec::new();
            let mut si: usize = 0;
            while si < header.steps.len()
                invariant
                    pi < self.phases.len(),
                    header == self.phases@[pi as int],
                    header.steps.len() == self.step_counts@[pi as int],
                    si <= header.steps.len(),
                    flat == phase_start + si,
                    phase_start == prefix_sum(self.step_counts@, pi as int),
                    phase_start + header.steps.len() <= usize::MAX,
                    subs.len() == si,
                    forall|k: int| 0 <= k < si ==> #[trigger] sub_step_info_matches(subs@[k], *header, pi as int, k,
                        phase_start + k, executed as int),
                decreases header.steps.len() - si,
            {
                let status = if flat < executed {
                    StepStatus::Completed
                } else if flat == executed {
                    StepStatus::Current
                } else {
                    StepStatus::Pending
                };
                let mut display_id = usize_to_decimal(pi + 1);
                display_id.append(".");
                let sub_id = usize_to_decimal(si);
                display_id.append(sub_id.as_str());
                let step = &header.steps[si];
                subs.push(SubStepInfo {
                    display_id,
                    name: step.name.clone(),
                    description: step.description.clone(),
                    doc_url: match &step.doc_url {
                        Some(u) => Some(u.clone()),
                        None => None,
                    },
                    status,
                });
                flat = flat + 1;
                si = si + 1;
            }
            let phase_end = flat;
            let status = if phase_end <= executed {
                StepStatus::Completed
            } else if phase_start >= executed {
                StepStatus::Pending
            } else {
                StepStatus::Current
            };
            out.push(PhaseInfo {
                display_index: (pi + 1) as u32,
                algorithm_id: header.id.clone(),
                name: header.name.clone(),
                description: header.description.clone(),
                has_params: header.has_params,
                sub_steps: subs,
                status,
            });
            pi = pi + 1;
        }
        out
    }
}

/// Status of the sub-step at flat position `flat` when `executed` sub-steps ran.
pub open spec fn step_status(flat: int, executed: int) -> StepStatus {
    if flat < executed {
        StepStatus::Completed
    } else if flat == executed {
        StepStatus::Current
    } else {
        StepStatus::Pending
    }
}

/// Status of a phase covering flat positions `[start, end)`.
pub open spec fn phase_status(start: int, end: int, executed: int) -> StepStatus {
    if end <= executed {
        StepStatus::Completed
    } else if start >= executed {
        StepStatus::Pending
    } else {
        StepStatus::Current
    }
}

/// `(p, s)` is sub-step `s` of phase `p`, at flat position `flat`.
pub open spec fn locates(counts: Seq<usize>, flat: int, p: int, s: int) -> bool {
    &&& 0 <= p < counts.len()
    &&& 0 <= s < counts[p]
    &&& prefix_sum(counts, p) + s == flat
}

/// `info` describes sub-step `si` of phase `pi` (header `h`) when
/// `executed` sub-steps ran.
pub open spec fn sub_step_info_matches(info: SubStepInfo, h: PhaseHeader, pi: int, si: int, flat: int, executed: int) -> bool {
    &&& info.display_id@ == decimal((pi + 1) as nat) + "."@ + decimal(si as nat)
    &&& info.name == h.steps@[si].name
    &&& info.description == h.steps@[si].description
    &&& info.doc_url == h.steps@[si].doc_url
    &&& info.status == step_status(flat, executed)
}

/// `info` describes phase `pi` (header `h`, flat positions `[start, end)`)
/// when `executed` sub-steps ran.
pub open spec fn phase_info_matches(info: PhaseInfo, h: PhaseHeader, pi: int, start: int, end: int, executed: int) -> bool {
    &&& info.display_index == (pi + 1) as u32
    &&& info.algorithm_id == h.id
    &&& info.name == h.name
    &&& info.description == h.description
    &&& info.has_params == h.has_params
    &&& info.status == phase_status(start, end, executed)
    &&& info.sub_steps.len() == h.steps.len()
    &&& forall|si: int| 0 <= si < h.steps.len() ==> #[trigger] sub_step_info_matches(info.sub_steps@[si], h, pi, si, start + si, executed)
}

/// `counts2` extends `counts1`, so their prefix sums agree up to `n`.
proof fn lemma_prefix_sum_prefix(counts1: Seq<usize>, counts2: Seq<usize>, n: int)
    requires
        0 <= n <= counts1.len() <= counts2.len(),
        forall|i: int| 0 <= i < counts1.len() ==> counts1[i] == counts2[i],
    ensures
        prefix_sum(counts1, n) == prefix_sum(counts2, n),
    decreases n,
{
    if n > 0 {
        lemma_prefix_sum_prefix(counts1, counts2, n - 1);
    }
}

} // verus!
