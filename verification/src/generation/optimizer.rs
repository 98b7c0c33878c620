//! Run-time measurement helpers of the engine: per-step timing statistics
//! and the throttle that decides when to refresh the world texture.
//!
//! Durations are counted in nanoseconds.

use vstd::prelude::*;
use vstd::string::StringExecFns;

verus! {

/// The largest representable duration (`Duration::MAX`), in nanoseconds.
pub const DURATION_MAX_NANOS: u128 = 18_446_744_073_709_551_615u128 * 1_000_000_000u128 + 999_999_999u128;

/// A point in time of the monotonic clock.
#[verifier::external_type_specification]
#[verifier::external_body]
pub struct ExInstant(std::time::Instant);

/// The current instant.
///
/// Calls `std::time::Instant::now`; nothing is stated of the value (it
/// depends on the clock).
#[verifier::external_body]
fn instant_now() -> std::time::Instant {
    std::time::Instant::now()
}

/// Nanoseconds elapsed since `start`.
///
/// Calls `Instant::elapsed` and `Duration::as_nanos`; nothing is stated of
/// the value beyond its type (it depends on the clock).
#[verifier::external_body]
fn instant_elapsed_nanos(start: &std::time::Instant) -> u128 {
    start.elapsed().as_nanos()
}

/// Timing statistics of one sub-step.
#[derive(Debug)]
pub struct StepProfile {
    pub name: String,
    /// Number of recorded runs.
    pub run_count: u32,
    /// Sum of all recorded durations.
    pub total_duration: u128,
    /// Shortest recorded duration ([`DURATION_MAX_NANOS`] before any run).
    pub min_duration: u128,
    /// Longest recorded duration (0 before any run).
    pub max_duration: u128,
}

/// The smaller of two durations.
pub open spec fn min_u128(a: u128, b: u128) -> u128 {
    if a <= b { a } else { b }
}

/// The larger of two durations.
pub open spec fn max_u128(a: u128, b: u128) -> u128 {
    if a >= b { a } else { b }
}

/// A profile named `name` with no runs.
pub open spec fn fresh_profile(name: Seq<char>, p: StepProfile) -> bool {
    &&& p.name@ == name
    &&& p.run_count == 0
    &&& p.total_duration == 0
    &&& p.min_duration == DURATION_MAX_NANOS
    &&& p.max_duration == 0
}

/// `after` is `before` with one more run of duration `d`.
pub open spec fn recorded(before: StepProfile, after: StepProfile, d: u128) -> bool {
    &&& after.name@ == before.name@
    &&& after.run_count == before.run_count + 1
    &&& after.total_duration == before.total_duration + d
    &&& after.min_duration == min_u128(before.min_duration, d)
    &&& after.max_duration == max_u128(before.max_duration, d)
}

/// The average duration of a profile: total over runs, 0 before any run.
pub open spec fn average(p: StepProfile) -> u128 {
    if p.run_count == 0 { 0 } else { (p.total_duration / p.run_count as u128) as u128 }
}

impl Clone for StepProfile {
    fn clone(&self) -> (p: StepProfile)
        ensures
            p == *self,
    {
        StepProfile {
            name: self.name.clone(),
            run_count: self.run_count,
            total_duration: self.total_duration,
            min_duration: self.min_duration,
            max_duration: self.max_duration,
        }
    }
}

impl StepProfile {
    fn new(name: &str) -> (p: StepProfile)
        ensures
            fresh_profile(name@, p),
    {
        StepProfile {
            name: String::from_str(name),
            run_count: 0,
            total_duration: 0,
            min_duration: DURATION_MAX_NANOS,
            max_duration: 0,
        }
    }

    fn record(&mut self, duration: u128)
        requires
            old(self).run_count < u32::MAX,
            old(self).total_duration + duration <= DURATION_MAX_NANOS,
        ensures
            recorded(*old(self), *final(self), duration),
    {
        self.run_count = self.run_count + 1;
        self.total_duration = self.total_duration + duration;
        if duration < self.min_duration {
            self.min_duration = duration;
        }
        if duration > self.max_duration {
            self.max_duration = duration;
        }
    }

    /// Average duration per run (0 before any run).
    pub fn avg_duration(&self) -> (d: u128)
        ensures
            d == average(*self),
    {
        if self.run_count == 0 {
            0
        } else {
            self.total_duration / (self.run_count as u128)
        }
    }
}

/// Keys of `entries` strictly increase.
pub open spec fn keys_increasing(entries: Seq<(usize, StepProfile)>) -> bool {
    forall|i: int, j: int| 0 <= i < j < entries.len() ==> entries[i].0 < entries[j].0
}

/// Position of the first entry with key at least `k` (in a key-sorted list).
pub open spec fn lower_bound(entries: Seq<(usize, StepProfile)>, k: usize) -> int
    decreases entries.len(),
{
    if entries.len() == 0 {
        0
    } else if entries.last().0 < k {
        entries.len() as int
    } else {
        lower_bound(entries.drop_last(), k)
    }
}

/// Position of the first entry with the largest average duration.
pub open spec fn first_slowest(s: Seq<(usize, StepProfile)>) -> int
    decreases s.len(),
{
    if s.len() <= 1 {
        0
    } else {
        let j = first_slowest(s.drop_last());
        if average(s.last().1) > average(s[j].1) { s.len() - 1 } else { j }
    }
}

/// The `n` profiles with the largest average durations, slowest first;
/// among equal averages the earlier entry comes first.
pub open spec fn slowest(s: Seq<(usize, StepProfile)>, n: nat) -> Seq<StepProfile>
    decreases n,
{
    if n == 0 || s.len() == 0 {
        Seq::empty()
    } else {
        let i = first_slowest(s);
        seq![s[i].1] + slowest(s.remove(i), (n - 1) as nat)
    }
}

/// [`first_slowest`] is a position whose average is at least every other.
pub proof fn lemma_first_slowest(s: Seq<(usize, StepProfile)>)
    requires
        s.len() > 0,
    ensures
        0 <= first_slowest(s) < s.len(),
        forall|k: int| 0 <= k < s.len() ==> average(#[trigger] s[k].1) <= average(s[first_slowest(s)].1),
    decreases s.len(),
{
    if s.len() > 1 {
        let t = s.drop_last();
        lemma_first_slowest(t);
        assert forall|k: int| 0 <= k < s.len() implies average(#[trigger] s[k].1) <= average(s[first_slowest(s)].1) by {
            if k < t.len() {
                assert(s[k] == t[k]);
            }
        }
    }
}

/// The result of [`slowest`] takes `min(n, s.len())` profiles, each from
/// `s`, with averages that never increase.
pub proof fn lemma_slowest(s: Seq<(usize, StepProfile)>, n: nat)
    ensures
        slowest(s, n).len() == if n <= s.len() { n as int } else { s.len() as int },
        forall|k: int| 0 <= k < slowest(s, n).len() ==> exists|j: int| 0 <= j < s.len() && s[j].1 == #[trigger] slowest(s, n)[k],
        forall|a: int, b: int| 0 <= a < b < slowest(s, n).len() ==> average(#[trigger] slowest(s, n)[a])
            >= average(#[trigger] slowest(s, n)[b]),
    decreases n,
{
    if n > 0 && s.len() > 0 {
        let i = first_slowest(s);
        lemma_first_slowest(s);
        let rest = s.remove(i);
        lemma_slowest(rest, (n - 1) as nat);
        let tail = slowest(rest, (n - 1) as nat);
        let r = slowest(s, n);
        assert(r == seq![s[i].1] + tail);
        assert forall|k: int| 0 <= k < r.len() implies exists|j: int| 0 <= j < s.len() && s[j].1 == #[trigger] r[k] by {
            if k == 0 {
                assert(s[i].1 == r[0]);
            } else {
                assert(r[k] == tail[k - 1]);
                let j = choose|j: int| 0 <= j < rest.len() && rest[j].1 == tail[k - 1];
                if j < i {
                    assert(rest[j] == s[j]);
                } else {
                    assert(rest[j] == s[j + 1]);
                }
            }
        }
        assert forall|a: int, b: int| 0 <= a < b < r.len() implies average(#[trigger] r[a]) >= average(#[trigger] r[b]) by {
            assert(r[b] == tail[b - 1]);
            let j = choose|j: int| 0 <= j < rest.len() && rest[j].1 == tail[b - 1];
            if j < i {
                assert(rest[j] == s[j]);
                assert(average(s[j].1) <= average(s[i].1));
            } else {
                assert(rest[j] == s[j + 1]);
                assert(average(s[j + 1].1) <= average(s[i].1));
            }
            if a > 0 {
                assert(r[a] == tail[a - 1]);
            }
        }
    }
}

/// Timing statistics of all sub-steps, plus recent frame times.
pub struct PerfProfiler {
    steps: Vec<(usize, StepProfile)>,
    recent_frame_times: Vec<u128>,
    max_recent_frames: usize,
    total_duration: u128,
    start_time: Option<std::time::Instant>,
}

impl Default for PerfProfiler {
    /// Same as [`PerfProfiler::new`].
    fn default() -> (p: PerfProfiler)
        ensures
            p.wf(),
            p.entries() == Seq::<(usize, StepProfile)>::empty(),
            p.frames() == Seq::<u128>::empty(),
            p.frame_capacity() == 120,
            p.total() == 0,
            !p.started(),
    {
        PerfProfiler::new()
    }
}

impl PerfProfiler {
    /// Profiles by flat sub-step index, in increasing index order.
    pub closed spec fn entries(self) -> Seq<(usize, StepProfile)> {
        self.steps@
    }

    /// The most recent frame durations, oldest first.
    pub closed spec fn frames(self) -> Seq<u128> {
        self.recent_frame_times@
    }

    /// How many frame durations are kept.
    pub closed spec fn frame_capacity(self) -> nat {
        self.max_recent_frames as nat
    }

    /// Sum of all recorded step durations.
    pub closed spec fn total(self) -> u128 {
        self.total_duration
    }

    /// A generation run has been started (and not reset since).
    pub closed spec fn started(self) -> bool {
        self.start_time is Some
    }

    /// The profiler's lists are consistent.
    pub open spec fn wf(self) -> bool {
        &&& keys_increasing(self.entries())
        &&& self.frames().len() <= self.frame_capacity()
    }

    /// An empty profiler keeping the last 120 frame times.
    pub fn new() -> (p: PerfProfiler)
        ensures
            p.wf(),
            p.entries() == Seq::<(usize, StepProfile)>::empty(),
            p.frames() == Seq::<u128>::empty(),
            p.frame_capacity() == 120,
            p.total() == 0,
            !p.started(),
    {
        PerfProfiler {
            steps: Vec::new(),
            recent_frame_times: Vec::new(),
            max_recent_frames: 120,
            total_duration: 0,
            start_time: None,
        }
    }

    /// Marks the start of a generation run (wall-clock timing).
    pub fn start_generation(&mut self)
        ensures
            final(self).started(),
            final(self).entries() == old(self).entries(),
            final(self).frames() == old(self).frames(),
            final(self).frame_capacity() == old(self).frame_capacity(),
            final(self).total() == old(self).total(),
    {
        self.start_time = Some(instant_now());
    }
    /// Whether [`Self::record_step`] can take `duration` for sub-step
    /// `flat_index`: the running totals stay within the largest duration and
    /// the step's run count within `u32`.
    pub fn can_record_step(&self, flat_index: usize, duration: u128) -> (r: bool)
        requires
            self.wf(),
        ensures
            r == (self.total() + duration <= DURATION_MAX_NANOS && forall|i: int| 0 <= i < self.entries().len()
                && #[trigger] self.entries()[i].0 == flat_index ==> self.entries()[i].1.run_count < u32::MAX
                && self.entries()[i].1.total_duration + duration <= DURATION_MAX_NANOS),
    {
        if duration > DURATION_MAX_NANOS || self.total_duration > DURATION_MAX_NANOS - duration {
            return false;
        }
        let mut i: usize = 0;
        while i < self.steps.len()
            invariant
                i <= self.steps.len(),
                self.total() + duration <= DURATION_MAX_NANOS,
                forall|j: int| 0 <= j < i && #[trigger] self.entries()[j].0 == flat_index ==> self.entries()[j].1.run_count
                    < u32::MAX && self.entries()[j].1.total_duration + duration <= DURATION_MAX_NANOS,
            decreases self.steps.len() - i,
        {
            let (key, ref profile) = self.steps[i];
            if key == flat_index && (profile.run_count == u32::MAX || profile.total_duration > DURATION_MAX_NANOS - duration) {
                assert(self.entries()[i as int].0 == flat_index);
                assert(!(self.entries()[i as int].1.run_count < u32::MAX
                    && self.entries()[i as int].1.total_duration + duration <= DURATION_MAX_NANOS));
                return false;
            }
            i = i + 1;
        }
        true
    }


    /// Adds one run of sub-step `flat_index` (named `name` on first sight)
    /// lasting `duration`.
    pub fn record_step(&mut self, flat_index: usize, name: &str, duration: u128)
        requires
            old(self).wf(),
            old(self).total() + duration <= DURATION_MAX_NANOS,
            forall|i: int| 0 <= i < old(self).entries().len() && #[trigger] old(self).entries()[i].0 == flat_index
                ==> old(self).entries()[i].1.run_count < u32::MAX
                    && old(self).entries()[i].1.total_duration + duration <= DURATION_MAX_NANOS,
        ensures
            final(self).wf(),
            final(self).total() == old(self).total() + duration,
            final(self).frames() == old(self).frames(),
            final(self).frame_capacity() == old(self).frame_capacity(),
            final(self).started() == old(self).started(),
            ({
                let s = old(self).entries();
                let p = lower_bound(s, flat_index);
                if p < s.len() && s[p].0 == flat_index {
                    &&& final(self).entries().len() == s.len()
                    &&& final(self).entries()[p].0 == flat_index
                    &&& recorded(s[p].1, final(self).entries()[p].1, duration)
                    &&& forall|i: int| 0 <= i < s.len() && i != p ==> #[trigger] final(self).entries()[i] == s[i]
                } else {
                    &&& final(self).entries().len() == s.len() + 1
                    &&& final(self).entries()[p].0 == flat_index
                    &&& exists|fresh: StepProfile| fresh_profile(name@, fresh)
                        && recorded(fresh, final(self).entries()[p].1, duration)
                    &&& forall|i: int| 0 <= i < p ==> #[trigger] final(self).entries()[i] == s[i]
                    &&& forall|i: int| p < i <= s.len() ==> #[trigger] final(self).entries()[i] == s[i - 1]
                }
            }),
    {
        self.total_duration = self.total_duration + duration;
        let ghost s = self.steps@;
        let mut i: usize = 0;
        while i < self.steps.len() && self.steps[i].0 < flat_index
            invariant
                self.steps@ == s,
                keys_increasing(s),
                i <= s.len(),
                forall|j: int| 0 <= j < i ==> s[j].0 < flat_index,
            decreases s.len() - i,
        {
            i = i + 1;
        }
        proof { lemma_lower_bound(s, flat_index, i as int); }
        if i < self.steps.len() && self.steps[i].0 == flat_index {
            let (key, mut profile) = self.steps.remove(i);
            profile.record(duration);
            self.steps.insert(i, (key, profile));
        } else {
            let mut profile = StepProfile::new(name);
            profile.record(duration);
            self.steps.insert(i, (flat_index, profile));
        }
    }

    /// Appends a frame duration, dropping the oldest beyond the capacity.
    pub fn record_frame(&mut self, duration: u128)
        requires
            old(self).wf(),
        ensures
            final(self).wf(),
            final(self).frames() == (if old(self).frames().len() + 1 > old(self).frame_capacity() {
                old(self).frames().push(duration).drop_first()
            } else {
                old(self).frames().push(duration)
            }),
            final(self).entries() == old(self).entries(),
            final(self).frame_capacity() == old(self).frame_capacity(),
            final(self).total() == old(self).total(),
            final(self).started() == old(self).started(),
    {
        self.recent_frame_times.push(duration);
        if self.recent_frame_times.len() > self.max_recent_frames {
            self.recent_frame_times.remove(0);
        }
    }

    /// The kept frame durations, oldest first.
    pub fn recent_frame_durations(&self) -> (r: &[u128])
        ensures
            r@ == self.frames(),
    {
        self.recent_frame_times.as_slice()
    }

    /// Time since the generation run started, or the sum of the recorded
    /// step durations when no run is timed.
    pub fn total_generation_time(&self) -> (d: u128)
        ensures
            !self.started() ==> d == self.total(),
    {
        match &self.start_time {
            Some(start) => instant_elapsed_nanos(start),
            None => self.total_duration,
        }
    }

    /// All profiles with their sub-step index, in increasing index order.
    pub fn all_steps_sorted(&self) -> (r: Vec<(usize, StepProfile)>)
        ensures
            r@ == self.entries(),
    {
        let mut out: Vec<(usize, StepProfile)> = Vec::new();
        let mut i: usize = 0;
        while i < self.steps.len()
            invariant
                i <= self.steps.len(),
                out.len() == i,
                forall|k: int| 0 <= k < i ==> #[trigger] out@[k] == self.steps@[k],
            decreases self.steps.len() - i,
        {
            out.push((self.steps[i].0, self.steps[i].1.clone()));
            i = i + 1;
        }
        assert(out@ =~= self.steps@);
        out
    }

    /// The `n` profiles with the largest average durations, slowest first
    /// (at most as many as there are profiles).
    pub fn slowest_steps(&self, n: usize) -> (r: Vec<StepProfile>)
        ensures
            r@ == slowest(self.entries(), n as nat),
            r.len() == if n <= self.entries().len() { n as int } else { self.entries().len() as int },
            forall|a: int, b: int| 0 <= a < b < r.len() ==> average(#[trigger] r@[a]) >= average(#[trigger] r@[b]),
    {
        proof {
            lemma_slowest(self.entries(), n as nat);
        }
        let mut rest = self.all_steps_sorted();
        let mut out: Vec<StepProfile> = Vec::new();
        let mut k: usize = 0;
        while k < n && rest.len() > 0
            invariant
                k <= n,
                out@ + slowest(rest@, (n - k) as nat) == slowest(self.entries(), n as nat),
            decreases n - k,
        {
            let mut best: usize = 0;
            let mut i: usize = 1;
            while i < rest.len()
                invariant
                    1 <= i <= rest.len(),
                    best == first_slowest(rest@.take(i as int)),
                    best < i,
                decreases rest.len() - i,
            {
                assert(rest@.take(i as int + 1).drop_last() == rest@.take(i as int));
                if rest[i].1.avg_duration() > rest[best].1.avg_duration() {
                    best = i;
                }
                i = i + 1;
            }
            assert(rest@.take(rest.len() as int) == rest@);
            let ghost before = rest@;
            let entry = rest.remove(best);
            let ghost out_before = out@;
            out.push(entry.1);
            assert(slowest(before, (n - k) as nat) == seq![before[best as int].1] + slowest(rest@, (n - k - 1) as nat));
            assert(out@ == out_before + seq![before[best as int].1]);
            k = k + 1;
        }
        assert(slowest(rest@, (n - k) as nat) == Seq::<StepProfile>::empty());
        assert(out@ == out@ + Seq::<StepProfile>::empty());
        out
    }

    /// Clears all statistics and the run start.
    pub fn reset(&mut self)
        ensures
            reset_of(*old(self), *final(self)),
    {
        self.steps.clear();
        self.recent_frame_times.clear();
        self.total_duration = 0;
        self.start_time = None;
    }
}

/// The texture-refresh thresholds of the engine configuration.
#[derive(Clone, Copy, Debug)]
pub struct ThrottleConfig {
    /// Worlds with fewer pixels use `refresh_small`.
    pub small_threshold: usize,
    /// Worlds with fewer pixels (but not small) use `refresh_medium`.
    pub large_threshold: usize,
    pub refresh_small: usize,
    pub refresh_medium: usize,
    pub refresh_large: usize,
}

/// How the recent frame time compares with the refresh targets.
#[derive(Clone, Copy, Debug, PartialEq, Eq, Structural)]
pub enum FrameLoad {
    /// Frames are slow (the engine uses "above 20 ms").
    Slow,
    Normal,
    /// Frames are fast (the engine uses "below 8 ms").
    Fast,
}

/// The refresh interval chosen for a world of `pixels` pixels.
pub open spec fn interval_for(cfg: ThrottleConfig, pixels: int) -> usize {
    if pixels < cfg.small_threshold {
        cfg.refresh_small
    } else if pixels < cfg.large_threshold {
        cfg.refresh_medium
    } else {
        cfg.refresh_large
    }
}

/// Decides on which frames the world texture is refreshed during a run.
pub struct TextureUpdateThrottle {
    frame_counter: usize,
    refresh_interval: usize,
    world_pixels: usize,
}

impl TextureUpdateThrottle {
    /// Frames counted since the last reset.
    pub closed spec fn counter(self) -> usize {
        self.frame_counter
    }

    /// Refresh every this many frames.
    pub closed spec fn interval(self) -> usize {
        self.refresh_interval
    }

    /// Pixels of the world the throttle was made for.
    pub closed spec fn pixels(self) -> usize {
        self.world_pixels
    }

    /// A throttle for a `world_width` by `world_height` world, with the
    /// interval picked by the world's pixel count.
    pub fn from_config(cfg: &ThrottleConfig, world_width: u32, world_height: u32) -> (t: TextureUpdateThrottle)
        requires
            world_width * world_height <= usize::MAX,
        ensures
            t.counter() == 0,
            t.pixels() == world_width * world_height,
            t.interval() == interval_for(*cfg, world_width * world_height),
    {
        let world_pixels = (world_width as usize) * (world_height as usize);
        let refresh_interval = if world_pixels < cfg.small_threshold {
            cfg.refresh_small
        } else if world_pixels < cfg.large_threshold {
            cfg.refresh_medium
        } else {
            cfg.refresh_large
        };
        TextureUpdateThrottle { frame_counter: 0, refresh_interval, world_pixels }
    }

    /// Frames counted since the last reset.
    pub fn frame_count(&self) -> (n: usize)
        ensures
            n == self.counter(),
    {
        self.frame_counter
    }

    /// Counts a frame; refresh on the final frame and on every
    /// `interval`-th frame.
    pub fn tick(&mut self, is_final: bool) -> (refresh: bool)
        requires
            old(self).counter() < usize::MAX,
            is_final || old(self).interval() > 0,
        ensures
            ticked(*old(self), *final(self), is_final, refresh),
    {
        self.frame_counter = self.frame_counter + 1;
        is_final || self.frame_counter % self.refresh_interval == 0
    }

    /// Restarts the frame count.
    pub fn reset(&mut self)
        ensures
            final(self).counter() == 0,
            final(self).interval() == old(self).interval(),
            final(self).pixels() == old(self).pixels(),
    {
        self.frame_counter = 0;
    }

    /// The current refresh interval.
    pub fn refresh_interval(&self) -> (n: usize)
        ensures
            n == self.interval(),
    {
        self.refresh_interval
    }

    /// Pixels of the world.
    pub fn world_pixels(&self) -> (n: usize)
        ensures
            n == self.pixels(),
    {
        self.world_pixels
    }

    /// Slow frames lengthen the interval by one (up to 16); fast frames
    /// shorten it by one while it is above 2.
    pub fn adjust_interval(&mut self, load: FrameLoad)
        requires
            old(self).interval() < usize::MAX,
        ensures
            final(self).counter() == old(self).counter(),
            final(self).pixels() == old(self).pixels(),
            final(self).interval() == (match load {
                FrameLoad::Slow => if old(self).interval() + 1 < 16 { (old(self).interval() + 1) as usize } else { 16 },
                FrameLoad::Fast => if old(self).interval() > 2 { (old(self).interval() - 1) as usize } else { old(self).interval() },
                FrameLoad::Normal => old(self).interval(),
            }),
    {
        match load {
            FrameLoad::Slow => {
                let next = self.refresh_interval + 1;
                self.refresh_interval = if next < 16 { next } else { 16 };
            },
            FrameLoad::Fast => {
                if self.refresh_interval > 2 {
                    self.refresh_interval = self.refresh_interval - 1;
                }
            },
            FrameLoad::Normal => {},
        }
    }
}

/// In a key-sorted list, [`lower_bound`] is the first position whose key is
/// at least `k`.
pub proof fn lemma_lower_bound(s: Seq<(usize, StepProfile)>, k: usize, i: int)
    requires
        keys_increasing(s),
        0 <= i <= s.len(),
        forall|j: int| 0 <= j < i ==> s[j].0 < k,
        i < s.len() ==> s[i].0 >= k,
    ensures
        lower_bound(s, k) == i,
    decreases s.len(),
{
    if s.len() > 0 {
        if s.last().0 < k {
            if i < s.len() {
                assert(s[i].0 <= s.last().0);
            }
        } else {
            if i == s.len() {
                assert(s[s.len() - 1].0 < k);
            }
            let t = s.drop_last();
            assert forall|a: int, b: int| 0 <= a < b < t.len() implies t[a].0 < t[b].0 by {
                assert(s[a].0 < s[b].0);
            }
            lemma_lower_bound(t, k, i);
        }
    }
}

/// Sum of the durations `ds`.
pub open spec fn duration_sum(ds: Seq<u128>) -> int
    decreases ds.len(),
{
    if ds.len() == 0 { 0 } else { duration_sum(ds.drop_last()) + ds.last() }
}

/// The shortest of the durations `ds` ([`DURATION_MAX_NANOS`] when none).
pub open spec fn duration_min(ds: Seq<u128>) -> u128
    decreases ds.len(),
{
    if ds.len() == 0 { DURATION_MAX_NANOS } else { min_u128(duration_min(ds.drop_last()), ds.last()) }
}

/// The longest of the durations `ds` (0 when none).
pub open spec fn duration_max(ds: Seq<u128>) -> u128
    decreases ds.len(),
{
    if ds.len() == 0 { 0 } else { max_u128(duration_max(ds.drop_last()), ds.last()) }
}

/// `ps` is the history of one step profile: each state is the previous one
/// with one more run, lasting the matching duration of `ds`.
pub open spec fn profile_history(ps: Seq<StepProfile>, ds: Seq<u128>) -> bool {
    &&& ps.len() == ds.len() + 1
    &&& forall|i: int| 0 <= i < ds.len() ==> recorded(ps[i], ps[i + 1], #[trigger] ds[i])
}

/// `n` durations lie between `n` times their minimum and `n` times their
/// maximum in sum.
proof fn lemma_sum_between(ds: Seq<u128>)
    ensures
        ds.len() * duration_min(ds) <= duration_sum(ds) <= ds.len() * duration_max(ds),
    decreases ds.len(),
{
    if ds.len() > 0 {
        let t = ds.drop_last();
        lemma_sum_between(t);
        let n = t.len() as int;
        let m0 = duration_min(t) as int;
        let x0 = duration_max(t) as int;
        let m = duration_min(ds) as int;
        let x = duration_max(ds) as int;
        let d = ds.last() as int;
        let s0 = duration_sum(t);
        assert((n + 1) * m <= s0 + d) by (nonlinear_arith)
            requires n >= 0, n * m0 <= s0, m <= m0, m <= d;
        assert(s0 + d <= (n + 1) * x) by (nonlinear_arith)
            requires n >= 0, s0 <= n * x0, x0 <= x, d <= x;
        assert(ds.len() == n + 1);
        assert(duration_sum(ds) == s0 + d);
    } else {
        assert(ds.len() * duration_min(ds) == 0) by (nonlinear_arith)
            requires ds.len() == 0;
        assert(ds.len() * duration_max(ds) == 0) by (nonlinear_arith)
            requires ds.len() == 0;
    }
}

/// Over any series of runs recorded on a fresh step profile, the profile
/// keeps its name, counts the runs, sums their durations, holds their
/// shortest and longest, and its average lies between those two.
pub proof fn lemma_profile_history(ps: Seq<StepProfile>, ds: Seq<u128>)
    requires
        profile_history(ps, ds),
        fresh_profile(ps[0].name@, ps[0]),
    ensures
        ps[ds.len() as int].name@ == ps[0].name@,
        ps[ds.len() as int].run_count == ds.len(),
        ps[ds.len() as int].total_duration == duration_sum(ds),
        ps[ds.len() as int].min_duration == duration_min(ds),
        ps[ds.len() as int].max_duration == duration_max(ds),
        ds.len() >= 1 ==> ps[ds.len() as int].min_duration <= average(ps[ds.len() as int])
            <= ps[ds.len() as int].max_duration,
    decreases ds.len(),
{
    if ds.len() > 0 {
        let n = ds.len() as int;
        let ps0 = ps.take(n);
        let ds0 = ds.drop_last();
        assert forall|i: int| 0 <= i < ds0.len() implies recorded(ps0[i], ps0[i + 1], #[trigger] ds0[i]) by {
            assert(recorded(ps[i], ps[i + 1], ds[i]));
        }
        lemma_profile_history(ps0, ds0);
        assert(recorded(ps[n - 1], ps[n], ds[n - 1]));
        assert(ps0[n - 1] == ps[n - 1]);
        let last = ps[n];
        lemma_sum_between(ds);
        let c = last.run_count as int;
        let t = last.total_duration as int;
        let lo = last.min_duration as int;
        let hi = last.max_duration as int;
        assert(c * lo <= t <= c * hi);
        vstd::arithmetic::div_mod::lemma_div_is_ordered(c * lo, t, c);
        vstd::arithmetic::div_mod::lemma_div_is_ordered(t, c * hi, c);
        vstd::arithmetic::div_mod::lemma_div_multiples_vanish(lo, c);
        vstd::arithmetic::div_mod::lemma_div_multiples_vanish(hi, c);
    }
}

/// `ps` is a history of profiler states in which each state adds the
/// matching duration of `ds` to the recorded total, as
/// [`PerfProfiler::record_step`] does, and keeps whether a run is timed.
pub open spec fn total_history(ps: Seq<PerfProfiler>, ds: Seq<u128>) -> bool {
    &&& ps.len() == ds.len() + 1
    &&& forall|i: int| 0 <= i < ds.len() ==> ps[i + 1].total() == ps[i].total() + #[trigger] ds[i]
        && ps[i + 1].started() == ps[i].started()
}

/// Recording steps on a new or reset profiler, with no timed run, makes
/// its total generation time the sum of the recorded durations.
pub proof fn lemma_total_history(ps: Seq<PerfProfiler>, ds: Seq<u128>)
    requires
        total_history(ps, ds),
        ps[0].total() == 0,
        !ps[0].started(),
    ensures
        ps[ds.len() as int].total() == duration_sum(ds),
        !ps[ds.len() as int].started(),
    decreases ds.len(),
{
    if ds.len() > 0 {
        let n = ds.len() as int;
        let ps0 = ps.take(n);
        let ds0 = ds.drop_last();
        assert forall|i: int| 0 <= i < ds0.len() implies ps0[i + 1].total() == ps0[i].total() + #[trigger] ds0[i]
            && ps0[i + 1].started() == ps0[i].started() by {
            assert(ps[i + 1].total() == ps[i].total() + ds[i]);
        }
        lemma_total_history(ps0, ds0);
        assert(ps[n].total() == ps[n - 1].total() + ds[n - 1]);
    }
}

/// `after` is `before` reset: no steps, no frames, no total, no timed run,
/// the same frame capacity.
pub open spec fn reset_of(before: PerfProfiler, after: PerfProfiler) -> bool {
    &&& after.wf()
    &&& after.entries() == Seq::<(usize, StepProfile)>::empty()
    &&& after.frames() == Seq::<u128>::empty()
    &&& after.frame_capacity() == before.frame_capacity()
    &&& after.total() == 0
    &&& !after.started()
}

/// Resetting twice is resetting once.
pub proof fn lemma_reset_twice(a: PerfProfiler, b: PerfProfiler, c: PerfProfiler)
    requires
        reset_of(a, b),
        reset_of(b, c),
    ensures
        c.entries() == b.entries(),
        c.frames() == b.frames(),
        c.frame_capacity() == b.frame_capacity(),
        c.total() == b.total(),
        c.started() == b.started(),
{
}

/// `after` is `before` after one [`TextureUpdateThrottle::tick`] with
/// `is_final` that answered `refresh`.
pub open spec fn ticked(before: TextureUpdateThrottle, after: TextureUpdateThrottle, is_final: bool, refresh: bool) -> bool {
    &&& after.counter() == before.counter() + 1
    &&& after.interval() == before.interval()
    &&& after.pixels() == before.pixels()
    &&& refresh == (is_final || after.counter() % before.interval() == 0)
}

proof fn lemma_tick_prefix(ts: Seq<TextureUpdateThrottle>, fs: Seq<bool>, rs: Seq<bool>, j: int)
    requires
        ts.len() == fs.len() + 1,
        rs.len() == fs.len(),
        ts[0].counter() == 0,
        forall|i: int| 0 <= i < fs.len() ==> ticked(ts[i], ts[i + 1], #[trigger] fs[i], rs[i]),
        0 <= j <= fs.len(),
    ensures
        ts[j].counter() == j,
        ts[j].interval() == ts[0].interval(),
        ts[j].pixels() == ts[0].pixels(),
    decreases j,
{
    if j > 0 {
        lemma_tick_prefix(ts, fs, rs, j - 1);
        assert(ticked(ts[j - 1], ts[j], fs[j - 1], rs[j - 1]));
    }
}

/// Ticks on a fresh or reset throttle (frame count 0) with interval `r`:
/// after `k` ticks the count is `k`, the interval and pixels are kept, and
/// tick number `j` (from 1) asks for a refresh exactly when it is final or
/// `j` is a multiple of `r`; so after a reset the next `r - 1` plain ticks
/// do not refresh and the `r`-th does.
pub proof fn lemma_tick_series(ts: Seq<TextureUpdateThrottle>, fs: Seq<bool>, rs: Seq<bool>)
    requires
        ts.len() == fs.len() + 1,
        rs.len() == fs.len(),
        ts[0].counter() == 0,
        ts[0].interval() >= 1,
        forall|i: int| 0 <= i < fs.len() ==> ticked(ts[i], ts[i + 1], #[trigger] fs[i], rs[i]),
    ensures
        forall|j: int| 0 <= j <= fs.len() ==> (#[trigger] ts[j]).counter() == j && ts[j].interval() == ts[0].interval()
            && ts[j].pixels() == ts[0].pixels(),
        forall|j: int| 0 <= j < fs.len() ==> #[trigger] rs[j] == (fs[j] || (j + 1) % (ts[0].interval() as int) == 0),
{
    assert forall|j: int| 0 <= j <= fs.len() implies (#[trigger] ts[j]).counter() == j && ts[j].interval() == ts[0].interval()
        && ts[j].pixels() == ts[0].pixels() by {
        lemma_tick_prefix(ts, fs, rs, j);
    }
    assert forall|j: int| 0 <= j < fs.len() implies #[trigger] rs[j] == (fs[j] || (j + 1) % (ts[0].interval() as int) == 0) by {
        lemma_tick_prefix(ts, fs, rs, j);
        lemma_tick_prefix(ts, fs, rs, j + 1);
        assert(ticked(ts[j], ts[j + 1], fs[j], rs[j]));
    }
}

/// Pixel count at which filling in parallel is assumed to pay off when no
/// measured size showed it.
pub const FALLBACK_PARALLEL_THRESHOLD: i64 = 50_000;

/// The size where parallel work first paid off: among `(size, serial
/// nanoseconds, parallel nanoseconds)` measurements in the order taken, the
/// size of the first whose parallel time is below its serial time;
/// [`FALLBACK_PARALLEL_THRESHOLD`] when none is.
pub fn parallel_threshold_from(measured: &Vec<(usize, u128, u128)>) -> (t: i64)
    requires
        forall|i: int| 0 <= i < measured.len() ==> (#[trigger] measured@[i]).0 <= i64::MAX,
    ensures
        (forall|i: int| 0 <= i < measured.len() ==> (#[trigger] measured@[i]).2 >= measured@[i].1)
            ==> t == FALLBACK_PARALLEL_THRESHOLD,
        forall|i: int| 0 <= i < measured.len() && (#[trigger] measured@[i]).2 < measured@[i].1
            && (forall|j: int| 0 <= j < i ==> (#[trigger] measured@[j]).2 >= measured@[j].1)
            ==> t == measured@[i].0,
{
    let mut k: usize = 0;
    while k < measured.len()
        invariant
            k <= measured.len(),
            forall|i: int| 0 <= i < measured.len() ==> (#[trigger] measured@[i]).0 <= i64::MAX,
            forall|j: int| 0 <= j < k ==> (#[trigger] measured@[j]).2 >= measured@[j].1,
        decreases measured.len() - k,
    {
        let (size, serial, parallel) = measured[k];
        if parallel < serial {
            return size as i64;
        }
        k = k + 1;
    }
    FALLBACK_PARALLEL_THRESHOLD
}

} // verus!
