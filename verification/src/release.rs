//! The memory release controller: when, and how much, free memory goes back to the operating
//! system.
//!
//! The controller makes no calls and reads no clock. The host samples [`ReleaseInputs`], calls
//! [`ReleaseController::tick`] with the time, and carries out the [`ReleasePlan`].
use vstd::prelude::*;
use crate::arena::{ArenaPolicy, DecayConfig};
use crate::ids::ArenaId;
use crate::overflow;

verus! {

/// The memory-pressure watermarks, in basis points of the memory limit.
#[derive(Clone, Copy, PartialEq, Eq, Debug, Structural)]
pub struct PressureThresholds {
    /// Utilization from which pressure is [`PressureMode::Soft`].
    pub soft_bp: u32,
    /// Utilization from which pressure is [`PressureMode::Hard`].
    pub hard_bp: u32,
    /// How far below a watermark utilization must fall before the mode steps down.
    pub hysteresis_bp: u32,
}

impl PressureThresholds {
    /// Soft at 75 percent, hard at 90, with a margin of 5.
    pub open spec fn preset() -> PressureThresholds {
        PressureThresholds { soft_bp: 7_500, hard_bp: 9_000, hysteresis_bp: 500 }
    }
}

impl Default for PressureThresholds {
    fn default() -> (res: PressureThresholds)
        ensures
            res == PressureThresholds::preset(),
    {
        PressureThresholds { soft_bp: 7_500, hard_bp: 9_000, hysteresis_bp: 500 }
    }
}

/// How scarce memory is.
#[derive(Clone, Copy, PartialEq, Eq, Debug, Structural)]
pub enum PressureMode {
    /// No pressure.
    Normal,
    /// Approaching the budget.
    Soft,
    /// Near the limit.
    Hard,
    /// An allocation failed, or the limit is reached.
    Emergency,
}

impl Default for PressureMode {
    fn default() -> (res: PressureMode)
        ensures
            res == PressureMode::Normal,
    {
        PressureMode::Normal
    }
}

impl PressureMode {
    /// The place on the scale from normal to emergency.
    pub open spec fn rank(self) -> int {
        match self {
            PressureMode::Normal => 0,
            PressureMode::Soft => 1,
            PressureMode::Hard => 2,
            PressureMode::Emergency => 3,
        }
    }

    /// The place on the scale from normal (0) to emergency (3).
    pub fn severity(self) -> (res: u8)
        ensures
            res == self.rank(),
    {
        match self {
            PressureMode::Normal => 0,
            PressureMode::Soft => 1,
            PressureMode::Hard => 2,
            PressureMode::Emergency => 3,
        }
    }

    /// The mode's name in statistics.
    pub open spec fn name(self) -> Seq<char> {
        match self {
            PressureMode::Normal => "normal"@,
            PressureMode::Soft => "soft"@,
            PressureMode::Hard => "hard"@,
            PressureMode::Emergency => "emergency"@,
        }
    }

    /// The mode's name in statistics.
    pub fn as_str(self) -> (res: &'static str)
        ensures
            res@ == self.name(),
    {
        match self {
            PressureMode::Normal => "normal",
            PressureMode::Soft => "soft",
            PressureMode::Hard => "hard",
            PressureMode::Emergency => "emergency",
        }
    }
}

/// How slow a step may be.
#[derive(Clone, Copy, PartialEq, Eq, Debug, Structural)]
pub enum LatencyClass {
    /// Bounded work without waiting.
    FastOnly,
    /// Bounded work that may take a lock.
    BoundedSlow,
    /// Work that may block on the operating system.
    MayBlock,
}

impl Default for LatencyClass {
    fn default() -> (res: LatencyClass)
        ensures
            res == LatencyClass::FastOnly,
    {
        LatencyClass::FastOnly
    }
}

impl LatencyClass {
    /// The place on the scale from fast to blocking.
    pub open spec fn slowness(self) -> int {
        match self {
            LatencyClass::FastOnly => 0,
            LatencyClass::BoundedSlow => 1,
            LatencyClass::MayBlock => 2,
        }
    }

    /// The place on the scale from fast (0) to blocking (2).
    pub fn rank(self) -> (res: u8)
        ensures
            res == self.slowness(),
    {
        match self {
            LatencyClass::FastOnly => 0,
            LatencyClass::BoundedSlow => 1,
            LatencyClass::MayBlock => 2,
        }
    }

    /// Whether a step of this class is permitted under a ceiling.
    pub fn permitted_under(self, tolerance: LatencyClass) -> (res: bool)
        ensures
            res == (self.slowness() <= tolerance.slowness()),
    {
        self.rank() <= tolerance.rank()
    }
}

/// What the controller reads, once per tick.
#[derive(Clone, Copy, PartialEq, Eq, Debug, Structural)]
pub struct ReleaseInputs {
    /// Bytes live in the application.
    pub live_bytes: u64,
    /// Resident set size, 0 if unknown.
    pub rss_bytes: u64,
    /// Free backed bytes that may hold old data.
    pub dirty_bytes: u64,
    /// The part of the dirty bytes that lies on hot hugepages.
    pub hot_dirty_bytes: u64,
    /// Free, lazily purged bytes.
    pub muzzy_bytes: u64,
    /// Free bytes already returned.
    pub released_bytes: u64,
    /// Idle cache bytes that could be drained.
    pub idle_cache_bytes: u64,
    /// Backed bytes of empty hugepages.
    pub empty_backed_hugepage_bytes: u64,
    /// Bytes of cold sparse hugepages that could be subreleased.
    pub cold_sparse_bytes: u64,
    /// Hugepage coverage ratio in basis points.
    pub hugepage_coverage_ratio_bp: u32,
    /// Bytes ever allocated.
    pub allocated_bytes_total: u64,
    /// Bytes ever freed.
    pub freed_bytes_total: u64,
    /// Refill misses per 1000 refills.
    pub refill_miss_rate_ppk: u32,
    /// Current memory charge, 0 if unknown.
    pub cgroup_current: u64,
    /// Memory limit, 0 if there is none.
    pub cgroup_max: u64,
    /// Memory-pressure notifications so far.
    pub pressure_notifications: u64,
    /// An allocation has just failed.
    pub alloc_failed: bool,
    /// The processors are under pressure.
    pub cpu_pressure: bool,
}

impl Default for ReleaseInputs {
    fn default() -> (res: ReleaseInputs)
        ensures
            res == (ReleaseInputs {
                live_bytes: 0,
                rss_bytes: 0,
                dirty_bytes: 0,
                hot_dirty_bytes: 0,
                muzzy_bytes: 0,
                released_bytes: 0,
                idle_cache_bytes: 0,
                empty_backed_hugepage_bytes: 0,
                cold_sparse_bytes: 0,
                hugepage_coverage_ratio_bp: 0,
                allocated_bytes_total: 0,
                freed_bytes_total: 0,
                refill_miss_rate_ppk: 0,
                cgroup_current: 0,
                cgroup_max: 0,
                pressure_notifications: 0,
                alloc_failed: false,
                cpu_pressure: false,
            }),
    {
        ReleaseInputs {
            live_bytes: 0,
            rss_bytes: 0,
            dirty_bytes: 0,
            hot_dirty_bytes: 0,
            muzzy_bytes: 0,
            released_bytes: 0,
            idle_cache_bytes: 0,
            empty_backed_hugepage_bytes: 0,
            cold_sparse_bytes: 0,
            hugepage_coverage_ratio_bp: 0,
            allocated_bytes_total: 0,
            freed_bytes_total: 0,
            refill_miss_rate_ppk: 0,
            cgroup_current: 0,
            cgroup_max: 0,
            pressure_notifications: 0,
            alloc_failed: false,
            cpu_pressure: false,
        }
    }
}

/// `n`, at most the largest `u64`.
pub open spec fn cap64(n: int) -> int {
    if n > u64::MAX {
        u64::MAX as int
    } else {
        n
    }
}

/// `a - b`, at least 0.
pub open spec fn monus(a: int, b: int) -> int {
    if a > b {
        a - b
    } else {
        0
    }
}

/// The smaller of two.
pub open spec fn least(a: int, b: int) -> int {
    if a <= b {
        a
    } else {
        b
    }
}

/// The larger of two.
pub open spec fn greatest(a: int, b: int) -> int {
    if a >= b {
        a
    } else {
        b
    }
}

/// `a * b / d`, which fits 128 bits.
fn mul_div(a: u64, b: u64, d: u64) -> (res: u128)
    requires
        d > 0,
    ensures
        res == (a * b) / (d as int),
{
    assert(a * b <= 0xffff_ffff_ffff_ffff * 0xffff_ffff_ffff_ffff) by (nonlinear_arith)
        requires
            a <= 0xffff_ffff_ffff_ffff,
            b <= 0xffff_ffff_ffff_ffff,
    ;
    (a as u128 * b as u128) / (d as u128)
}

/// A 128-bit number, at most the largest `u64`.
fn to_u64(n: u128) -> (res: u64)
    ensures
        res == cap64(n as int),
{
    if n > u64::MAX as u128 {
        u64::MAX
    } else {
        n as u64
    }
}

impl ReleaseInputs {
    /// The dirty bytes that do not lie on hot hugepages.
    pub open spec fn purgeable(self) -> int {
        monus(self.dirty_bytes as int, self.hot_dirty_bytes as int)
    }

    /// Memory charge in basis points of the limit; 0 without a limit.
    pub open spec fn utilization(self) -> int {
        if self.cgroup_max == 0 {
            0
        } else {
            least((self.cgroup_current * 10_000) / (self.cgroup_max as int), u32::MAX as int)
        }
    }

    /// The limit is reached.
    pub open spec fn critical(self) -> bool {
        self.cgroup_max != 0 && self.cgroup_current >= self.cgroup_max
    }

    /// Everything that could be released, at most the largest `u64`.
    pub open spec fn releasable(self) -> int {
        cap64(
            self.idle_cache_bytes + self.dirty_bytes + self.muzzy_bytes
                + self.empty_backed_hugepage_bytes,
        )
    }

    /// The dirty bytes that do not lie on hot hugepages.
    pub fn purgeable_dirty(&self) -> (res: u64)
        ensures
            res == self.purgeable(),
    {
        self.dirty_bytes.saturating_sub(self.hot_dirty_bytes)
    }

    /// Memory charge in basis points of the limit; 0 without a limit.
    pub fn utilization_bp(&self) -> (res: u32)
        ensures
            res == self.utilization(),
    {
        if self.cgroup_max == 0 {
            return 0;
        }
        let bp: u128 = mul_div(self.cgroup_current, 10_000, self.cgroup_max);
        if bp > u32::MAX as u128 {
            u32::MAX
        } else {
            bp as u32
        }
    }

    /// Whether the limit is reached.
    pub fn cgroup_critical(&self) -> (res: bool)
        ensures
            res == self.critical(),
    {
        self.cgroup_max != 0 && self.cgroup_current >= self.cgroup_max
    }
}

/// The byte budget of one tick, by kind of work, in order of priority.
#[derive(Clone, Copy, PartialEq, Eq, Debug, Structural)]
pub struct ReleasePlan {
    /// The pressure it was computed under.
    pub mode: PressureMode,
    /// Free bytes withheld from release.
    pub demand_reserve_bytes: u64,
    /// Idle cache bytes to drain.
    pub drain_caches_bytes: u64,
    /// Bytes of empty hugepages to release.
    pub release_empty_hugepages_bytes: u64,
    /// Dirty bytes to purge.
    pub purge_dirty_bytes: u64,
    /// Dirty bytes to turn muzzy.
    pub dirty_to_muzzy_bytes: u64,
    /// Bytes of cold sparse hugepages to subrelease.
    pub subrelease_cold_sparse_bytes: u64,
    /// Muzzy bytes to release.
    pub release_muzzy_bytes: u64,
    /// Bytes to shrink by in an emergency.
    pub emergency_shrink_bytes: u64,
    /// Whether no empty hugepage may be kept back.
    pub disable_hugecache_reserve: bool,
}

impl ReleasePlan {
    /// A plan that asks for nothing.
    pub open spec fn nothing(mode: PressureMode, reserve: u64) -> ReleasePlan {
        ReleasePlan {
            mode,
            demand_reserve_bytes: reserve,
            drain_caches_bytes: 0,
            release_empty_hugepages_bytes: 0,
            purge_dirty_bytes: 0,
            dirty_to_muzzy_bytes: 0,
            subrelease_cold_sparse_bytes: 0,
            release_muzzy_bytes: 0,
            emergency_shrink_bytes: 0,
            disable_hugecache_reserve: false,
        }
    }

    /// The bytes of all kinds of work together.
    pub open spec fn sum(self) -> int {
        self.drain_caches_bytes + self.release_empty_hugepages_bytes + self.purge_dirty_bytes
            + self.dirty_to_muzzy_bytes + self.subrelease_cold_sparse_bytes
            + self.release_muzzy_bytes + self.emergency_shrink_bytes
    }

    /// The bytes of all kinds of work together, at most the largest `u64`.
    pub fn total_bytes(&self) -> (res: u64)
        ensures
            res == cap64(self.sum()),
    {
        self.drain_caches_bytes.saturating_add(self.release_empty_hugepages_bytes).saturating_add(
            self.purge_dirty_bytes,
        ).saturating_add(self.dirty_to_muzzy_bytes).saturating_add(
            self.subrelease_cold_sparse_bytes,
        ).saturating_add(self.release_muzzy_bytes).saturating_add(self.emergency_shrink_bytes)
    }

    /// Whether the plan asks for nothing.
    pub fn is_empty(&self) -> (res: bool)
        ensures
            res == (self.sum() == 0 && !self.disable_hugecache_reserve),
    {
        self.total_bytes() == 0 && !self.disable_hugecache_reserve
    }
}

impl Default for ReleasePlan {
    fn default() -> (res: ReleasePlan)
        ensures
            res == ReleasePlan::nothing(PressureMode::Normal, 0),
    {
        ReleasePlan {
            mode: PressureMode::Normal,
            demand_reserve_bytes: 0,
            drain_caches_bytes: 0,
            release_empty_hugepages_bytes: 0,
            purge_dirty_bytes: 0,
            dirty_to_muzzy_bytes: 0,
            subrelease_cold_sparse_bytes: 0,
            release_muzzy_bytes: 0,
            emergency_shrink_bytes: 0,
            disable_hugecache_reserve: false,
        }
    }
}

/// A snapshot of the controller's counters.
#[derive(Clone, Copy, PartialEq, Eq, Debug, Structural)]
pub struct ReleaseStats {
    /// The current pressure.
    pub mode: PressureMode,
    /// Bytes that the rate cap has kept from being released so far.
    pub backlog_bytes: u64,
    /// Bytes ever planned.
    pub planned_bytes_total: u64,
    /// Ticks so far.
    pub ticks: u64,
    /// The demand reserve of the last tick.
    pub demand_reserve_bytes: u64,
    /// Ticks that planned any work.
    pub active_ticks: u64,
    /// The allocation rate last observed, in bytes per second.
    pub alloc_rate_bps: u64,
    /// The free rate last observed, in bytes per second.
    pub free_rate_bps: u64,
}

/// How far ahead the demand reserve looks, in milliseconds.
pub const RESERVE_WINDOW_MS: u64 = 1_000;

/// How long the peak of free memory is remembered, in milliseconds.
pub const PEAK_DECAY_MS: u64 = 8_000;

/// What an application that allocates at `rate` will want within the reserve window, more when
/// refills miss often, at most what was free lately; halved under soft pressure, quartered
/// under hard, nothing in an emergency.
#[verifier::opaque]
pub open spec fn reserve_for(rate: int, peak: int, miss_ppk: int, mode: PressureMode) -> int {
    let base = (rate * RESERVE_WINDOW_MS) / 1_000;
    let capped = least(base + (base * miss_ppk) / 1_000, peak);
    match mode {
        PressureMode::Normal => capped,
        PressureMode::Soft => capped / 2,
        PressureMode::Hard => capped / 4,
        PressureMode::Emergency => 0,
    }
}

/// The free bytes to withhold from release, so that the application does not fault back what
/// was just released.
pub fn demand_reserve(
    alloc_rate_bps: u64,
    recent_peak_free: u64,
    refill_miss_rate_ppk: u32,
    mode: PressureMode,
) -> (res: u64)
    ensures
        res == reserve_for(
            alloc_rate_bps as int,
            recent_peak_free as int,
            refill_miss_rate_ppk as int,
            mode,
        ),
{
    proof {
        reveal(reserve_for);
    }
    let base: u64 = mul_div(alloc_rate_bps, RESERVE_WINDOW_MS, 1_000) as u64;
    let extra: u128 = mul_div(base, refill_miss_rate_ppk as u64, 1_000);
    proof {
        assert((base * refill_miss_rate_ppk) / 1_000 <= 0xffff_ffff_ffff_ffff * 0xffff_ffff)
            by (nonlinear_arith)
            requires
                base <= 0xffff_ffff_ffff_ffff,
                refill_miss_rate_ppk <= 0xffff_ffff,
        ;
    }
    let scaled: u128 = base as u128 + extra;
    let capped: u64 = if scaled <= recent_peak_free as u128 {
        scaled as u64
    } else {
        recent_peak_free
    };
    match mode {
        PressureMode::Normal => capped,
        PressureMode::Soft => capped / 2,
        PressureMode::Hard => capped / 4,
        PressureMode::Emergency => 0,
    }
}

/// `delta` over `elapsed` milliseconds, per second; 0 over no time.
#[verifier::opaque]
pub open spec fn per_second(delta: int, elapsed: int) -> int {
    if elapsed == 0 {
        0
    } else {
        cap64((delta * 1_000) / elapsed)
    }
}

/// Bytes per second from a delta over an interval; 0 over no time.
fn rate_per_sec(delta_bytes: u64, elapsed_ms: u64) -> (res: u64)
    ensures
        res == per_second(delta_bytes as int, elapsed_ms as int),
{
    proof {
        reveal(per_second);
    }
    if elapsed_ms == 0 {
        return 0;
    }
    to_u64(mul_div(delta_bytes, 1_000, elapsed_ms))
}

/// What a rate allows over an interval. Only the first tick is granted a window without one.
#[verifier::opaque]
pub open spec fn allowance(rate: int, elapsed: int, first: bool) -> int {
    if elapsed == 0 && !first {
        0
    } else {
        cap64(
            (rate * (if elapsed == 0 {
                RESERVE_WINDOW_MS as int
            } else {
                elapsed
            })) / 1_000,
        )
    }
}

/// Bytes that a per-second rate permits over an interval; nothing over no time, but for a
/// first tick, which is granted one window so that the controller can act at once.
fn rate_budget(rate_bps: u64, elapsed_ms: u64, first: bool) -> (res: u64)
    ensures
        res == allowance(rate_bps as int, elapsed_ms as int, first),
{
    proof {
        reveal(allowance);
    }
    if elapsed_ms == 0 && !first {
        return 0;
    }
    let ms: u64 = if elapsed_ms == 0 {
        RESERVE_WINDOW_MS
    } else {
        elapsed_ms
    };
    to_u64(mul_div(rate_bps, ms, 1_000))
}

/// What is granted of `want` when `before` bytes of higher priority come first.
pub open spec fn share(want: int, before: int, budget: int) -> int {
    least(want, monus(budget, before))
}

/// The plan cut to `budget` bytes in all, from the highest priority down.
#[verifier::opaque]
pub open spec fn funded(p: ReleasePlan, budget: int) -> ReleasePlan {
    let a = p.drain_caches_bytes as int;
    let b = a + p.release_empty_hugepages_bytes;
    let c = b + p.purge_dirty_bytes;
    let d = c + p.dirty_to_muzzy_bytes;
    let e = d + p.subrelease_cold_sparse_bytes;
    let f = e + p.release_muzzy_bytes;
    ReleasePlan {
        drain_caches_bytes: share(a, 0, budget) as u64,
        release_empty_hugepages_bytes: share(
            p.release_empty_hugepages_bytes as int,
            a,
            budget,
        ) as u64,
        purge_dirty_bytes: share(p.purge_dirty_bytes as int, b, budget) as u64,
        dirty_to_muzzy_bytes: share(p.dirty_to_muzzy_bytes as int, c, budget) as u64,
        subrelease_cold_sparse_bytes: share(
            p.subrelease_cold_sparse_bytes as int,
            d,
            budget,
        ) as u64,
        release_muzzy_bytes: share(p.release_muzzy_bytes as int, e, budget) as u64,
        emergency_shrink_bytes: share(p.emergency_shrink_bytes as int, f, budget) as u64,
        ..p
    }
}

/// The smaller of two.
fn min_u64(a: u64, b: u64) -> (res: u64)
    ensures
        res == least(a as int, b as int),
{
    if a <= b {
        a
    } else {
        b
    }
}

/// Cut the plan to `budget` bytes in all, from the highest priority down.
fn scale_plan_to_budget(plan: &mut ReleasePlan, budget: u64)
    ensures
        *final(plan) == funded(*old(plan), budget as int),
{
    proof {
        reveal(funded);
    }
    let mut remaining: u64 = budget;
    let take: u64 = min_u64(plan.drain_caches_bytes, remaining);
    plan.drain_caches_bytes = take;
    remaining = remaining - take;
    let take: u64 = min_u64(plan.release_empty_hugepages_bytes, remaining);
    plan.release_empty_hugepages_bytes = take;
    remaining = remaining - take;
    let take: u64 = min_u64(plan.purge_dirty_bytes, remaining);
    plan.purge_dirty_bytes = take;
    remaining = remaining - take;
    let take: u64 = min_u64(plan.dirty_to_muzzy_bytes, remaining);
    plan.dirty_to_muzzy_bytes = take;
    remaining = remaining - take;
    let take: u64 = min_u64(plan.subrelease_cold_sparse_bytes, remaining);
    plan.subrelease_cold_sparse_bytes = take;
    remaining = remaining - take;
    let take: u64 = min_u64(plan.release_muzzy_bytes, remaining);
    plan.release_muzzy_bytes = take;
    remaining = remaining - take;
    let take: u64 = min_u64(plan.emergency_shrink_bytes, remaining);
    plan.emergency_shrink_bytes = take;
}

/// A plan cut to a budget asks for exactly the budget, or for all it wanted if that is less.
pub proof fn law_funded_plan_meets_the_budget(p: ReleasePlan, budget: int)
    requires
        0 <= budget,
    ensures
        funded(p, budget).sum() == least(p.sum(), budget),
        funded(p, budget).drain_caches_bytes <= p.drain_caches_bytes,
        funded(p, budget).release_empty_hugepages_bytes <= p.release_empty_hugepages_bytes,
        funded(p, budget).purge_dirty_bytes <= p.purge_dirty_bytes,
        funded(p, budget).dirty_to_muzzy_bytes <= p.dirty_to_muzzy_bytes,
        funded(p, budget).subrelease_cold_sparse_bytes <= p.subrelease_cold_sparse_bytes,
        funded(p, budget).release_muzzy_bytes <= p.release_muzzy_bytes,
        funded(p, budget).emergency_shrink_bytes <= p.emergency_shrink_bytes,
{
    reveal(funded);
}

/// The demand reserve grows with the allocation rate and with refill misses, shrinks as
/// pressure rises, never exceeds what was free lately, and is nothing in an emergency or when
/// the application is idle.
pub proof fn law_demand_reserve(
    rate: int,
    more: int,
    peak: int,
    miss: int,
    worse_miss: int,
    mode: PressureMode,
    worse: PressureMode,
)
    requires
        0 <= rate <= more,
        0 <= peak,
        0 <= miss <= worse_miss,
        mode.rank() <= worse.rank(),
    ensures
        reserve_for(rate, peak, miss, mode) <= reserve_for(more, peak, miss, mode),
        reserve_for(rate, peak, miss, mode) <= reserve_for(rate, peak, worse_miss, mode),
        reserve_for(rate, peak, miss, worse) <= reserve_for(rate, peak, miss, mode),
        0 <= reserve_for(rate, peak, miss, mode) <= peak,
        reserve_for(0, peak, miss, mode) == 0,
        reserve_for(rate, peak, miss, PressureMode::Emergency) == 0,
{
    reveal(reserve_for);
    assert((rate * 1_000) / 1_000 == rate);
    assert((more * 1_000) / 1_000 == more);
    assert((rate * miss) / 1_000 <= (more * miss) / 1_000) by (nonlinear_arith)
        requires
            0 <= rate <= more,
            0 <= miss,
    ;
    assert(0 <= (rate * miss) / 1_000 <= (rate * worse_miss) / 1_000) by (nonlinear_arith)
        requires
            0 <= rate,
            0 <= miss <= worse_miss,
    ;
    assert((0 * miss) / 1_000 == 0) by (nonlinear_arith);
}

/// Everything the controller remembers.
#[derive(Clone, Copy, PartialEq, Eq, Debug, Structural)]
pub struct ControllerState {
    /// Decay configuration.
    pub config: DecayConfig,
    /// Pressure watermarks.
    pub thresholds: PressureThresholds,
    /// The slowest work to plan.
    pub max_latency: LatencyClass,
    /// The reserve for emergencies, set once.
    pub emergency_reserve_bytes: u64,
    /// The current pressure.
    pub mode: PressureMode,
    /// When the last tick was.
    pub last_tick_ms: u64,
    /// Whether there was a tick.
    pub started: bool,
    /// Since when there has been dirty memory, if there is.
    pub dirty_since_ms: u64,
    /// Whether there was dirty memory at the last tick.
    pub dirty_present: bool,
    /// Since when there has been muzzy memory, if there is.
    pub muzzy_since_ms: u64,
    /// Whether there was muzzy memory at the last tick.
    pub muzzy_present: bool,
    /// Bytes ever allocated, at the last tick.
    pub last_allocated_total: u64,
    /// Bytes ever freed, at the last tick.
    pub last_freed_total: u64,
    /// Pressure notifications, at the last tick.
    pub last_pressure_notifications: u64,
    /// The peak of releasable memory that is remembered.
    pub recent_peak_free: u64,
    /// When that peak was.
    pub peak_anchor_ms: u64,
    /// The allocation rate last observed.
    pub alloc_rate_bps: u64,
    /// The free rate last observed.
    pub free_rate_bps: u64,
    /// Bytes that the rate cap has kept from being released so far.
    pub backlog_bytes: u64,
    /// Bytes ever planned.
    pub planned_bytes_total: u64,
    /// The demand reserve of the last tick.
    pub demand_reserve_bytes: u64,
    /// Ticks so far.
    pub ticks: u64,
    /// Ticks that planned any work.
    pub active_ticks: u64,
    /// The arena to serve next.
    pub next_arena: u32,
}

/// The pressure that utilization `u` alone implies.
pub open spec fn watermark_mode(t: PressureThresholds, u: int) -> PressureMode {
    if u >= t.hard_bp {
        PressureMode::Hard
    } else if u >= t.soft_bp {
        PressureMode::Soft
    } else {
        PressureMode::Normal
    }
}

/// What each kind of work would take, before the rate cap. Nothing but an emergency moves when
/// purging is off or the processors are pressed; and no step is slower than the ceiling.
#[verifier::opaque]
pub open spec fn ladder(
    config: DecayConfig,
    ceiling: LatencyClass,
    mode: PressureMode,
    i: ReleaseInputs,
    reserve: u64,
    dirty_aged: bool,
    muzzy_aged: bool,
) -> ReleasePlan {
    let emergency = mode == PressureMode::Emergency;
    let slow = ceiling.slowness() >= LatencyClass::BoundedSlow.slowness();
    let block = ceiling.slowness() >= LatencyClass::MayBlock.slowness();
    if !emergency && (!config.background_purge_enabled || i.cpu_pressure) {
        ReleasePlan::nothing(mode, reserve)
    } else {
        ReleasePlan {
            mode,
            demand_reserve_bytes: reserve,
            drain_caches_bytes: if mode == PressureMode::Normal {
                i.idle_cache_bytes / 4
            } else if mode == PressureMode::Soft {
                i.idle_cache_bytes / 2
            } else {
                i.idle_cache_bytes
            },
            release_empty_hugepages_bytes: if !block || mode == PressureMode::Normal {
                0
            } else if emergency {
                i.empty_backed_hugepage_bytes
            } else {
                monus(i.empty_backed_hugepage_bytes as int, reserve as int) as u64
            },
            purge_dirty_bytes: if dirty_aged && block {
                i.purgeable() as u64
            } else {
                0
            },
            dirty_to_muzzy_bytes: if dirty_aged && slow && !block {
                i.purgeable() as u64
            } else {
                0
            },
            subrelease_cold_sparse_bytes: if slow && mode.rank() >= PressureMode::Hard.rank() {
                i.cold_sparse_bytes
            } else {
                0
            },
            release_muzzy_bytes: if muzzy_aged && !emergency && block {
                i.muzzy_bytes
            } else {
                0
            },
            emergency_shrink_bytes: if emergency && block {
                i.muzzy_bytes
            } else {
                0
            },
            disable_hugecache_reserve: emergency,
        }
    }
}

impl ControllerState {
    /// A controller that has not ticked yet.
    pub open spec fn initial(
        config: DecayConfig,
        thresholds: PressureThresholds,
        max_latency: LatencyClass,
        emergency_reserve_bytes: u64,
    ) -> ControllerState {
        ControllerState {
            config,
            thresholds,
            max_latency,
            emergency_reserve_bytes,
            mode: PressureMode::Normal,
            last_tick_ms: 0,
            started: false,
            dirty_since_ms: 0,
            dirty_present: false,
            muzzy_since_ms: 0,
            muzzy_present: false,
            last_allocated_total: 0,
            last_freed_total: 0,
            last_pressure_notifications: 0,
            recent_peak_free: 0,
            peak_anchor_ms: 0,
            alloc_rate_bps: 0,
            free_rate_bps: 0,
            backlog_bytes: 0,
            planned_bytes_total: 0,
            demand_reserve_bytes: 0,
            ticks: 0,
            active_ticks: 0,
            next_arena: 0,
        }
    }

    /// Milliseconds since the last tick; 0 at the first and when the clock steps back.
    pub open spec fn elapsed(self, now: u64) -> int {
        if self.started {
            monus(now as int, self.last_tick_ms as int)
        } else {
            0
        }
    }

    /// Whether the remembered peak gives way to what is free now: a new high, or too old.
    pub open spec fn reanchors(self, now: u64, free: int) -> bool {
        free >= self.recent_peak_free || monus(now as int, self.peak_anchor_ms as int)
            >= PEAK_DECAY_MS
    }

    /// The peak of free memory as of `now`: the remembered one, relaxed evenly towards what is
    /// free now as it ages.
    #[verifier::opaque]
    pub open spec fn peak(self, now: u64, free: int) -> int {
        if self.reanchors(now, free) {
            free
        } else {
            let age = least(monus(now as int, self.peak_anchor_ms as int), PEAK_DECAY_MS as int);
            free + ((self.recent_peak_free - free) * (PEAK_DECAY_MS - age)) / (PEAK_DECAY_MS as int)
        }
    }

    /// The pressure after reading `i`. An allocation failure or a reached limit is an
    /// emergency. Otherwise the watermarks decide, with at least soft pressure on a new
    /// notification; the mode rises at once, and falls only past the margin.
    #[verifier::opaque]
    pub open spec fn next_mode(self, i: ReleaseInputs) -> PressureMode {
        let u = i.utilization();
        let t = self.thresholds;
        let raw = watermark_mode(t, u);
        let raw = if raw == PressureMode::Normal && i.pressure_notifications
            > self.last_pressure_notifications {
            PressureMode::Soft
        } else {
            raw
        };
        if i.alloc_failed || i.critical() {
            PressureMode::Emergency
        } else if raw.rank() >= self.mode.rank() {
            raw
        } else if self.mode == PressureMode::Hard && u >= monus(
            t.hard_bp as int,
            t.hysteresis_bp as int,
        ) {
            PressureMode::Hard
        } else if self.mode == PressureMode::Soft && u >= monus(
            t.soft_bp as int,
            t.hysteresis_bp as int,
        ) {
            PressureMode::Soft
        } else {
            raw
        }
    }

    /// The allocation rate over the interval that ends `now`.
    pub open spec fn alloc_rate(self, now: u64, i: ReleaseInputs) -> int {
        per_second(
            monus(i.allocated_bytes_total as int, self.last_allocated_total as int),
            self.elapsed(now),
        )
    }

    /// The free rate over the interval that ends `now`.
    pub open spec fn free_rate(self, now: u64, i: ReleaseInputs) -> int {
        per_second(
            monus(i.freed_bytes_total as int, self.last_freed_total as int),
            self.elapsed(now),
        )
    }

    /// The demand reserve.
    pub open spec fn reserve(self, now: u64, i: ReleaseInputs) -> int {
        reserve_for(
            self.alloc_rate(now, i),
            self.peak(now, i.releasable()),
            i.refill_miss_rate_ppk as int,
            self.next_mode(i),
        )
    }

    /// Since when there has been dirty memory without a break.
    pub open spec fn dirty_since(self, now: u64, i: ReleaseInputs) -> u64 {
        if i.dirty_bytes == 0 || !self.dirty_present {
            now
        } else {
            self.dirty_since_ms
        }
    }

    /// Since when there has been muzzy memory without a break.
    pub open spec fn muzzy_since(self, now: u64, i: ReleaseInputs) -> u64 {
        if i.muzzy_bytes == 0 || !self.muzzy_present {
            now
        } else {
            self.muzzy_since_ms
        }
    }

    /// Whether something that has been there since `since` has decayed: long enough, or the
    /// pressure is hard.
    pub open spec fn aged(self, now: u64, since: u64, decay: u64, i: ReleaseInputs) -> bool {
        self.next_mode(i).rank() >= PressureMode::Hard.rank() || monus(now as int, since as int)
            >= decay
    }

    /// What the tick would release without the rate cap.
    pub open spec fn wanted(self, now: u64, i: ReleaseInputs) -> ReleasePlan {
        ladder(
            self.config,
            self.max_latency,
            self.next_mode(i),
            i,
            self.reserve(now, i) as u64,
            self.aged(now, self.dirty_since(now, i), self.config.dirty_decay_ms, i),
            self.aged(now, self.muzzy_since(now, i), self.config.muzzy_decay_ms, i),
        )
    }

    /// Whether the rate cap applies.
    pub open spec fn capped(self, i: ReleaseInputs) -> bool {
        self.config.release_rate_bytes_per_sec != 0 && self.next_mode(i) != PressureMode::Emergency
    }

    /// What is owed: what there is to release now, or the backlog if that is more.
    pub open spec fn owed(self, now: u64, i: ReleaseInputs) -> int {
        greatest(cap64(self.wanted(now, i).sum()), self.backlog_bytes as int)
    }

    /// The plan of the tick.
    pub open spec fn plan(self, now: u64, i: ReleaseInputs) -> ReleasePlan {
        if self.capped(i) {
            funded(
                self.wanted(now, i),
                least(
                    allowance(
                        self.config.release_rate_bytes_per_sec as int,
                        self.elapsed(now),
                        !self.started,
                    ),
                    self.owed(now, i),
                ),
            )
        } else {
            self.wanted(now, i)
        }
    }

    /// What stays owed after the tick: what was owed and not planned, at most what there is.
    pub open spec fn backlog(self, now: u64, i: ReleaseInputs) -> int {
        if self.capped(i) {
            least(
                monus(self.owed(now, i), cap64(self.plan(now, i).sum())),
                cap64(self.wanted(now, i).sum()),
            )
        } else {
            0
        }
    }

    /// The arena whose turn it is, of `count`.
    pub open spec fn turn(self, count: int) -> int {
        self.next_arena as int % count
    }

    /// The controller once that arena had its turn.
    pub open spec fn after_turn(self, count: int) -> ControllerState {
        ControllerState { next_arena: ((self.next_arena + 1) % count) as u32, ..self }
    }

    /// The controller after the tick.
    pub open spec fn after(self, now: u64, i: ReleaseInputs) -> ControllerState {
        let free = i.releasable();
        let p = self.plan(now, i);
        ControllerState {
            mode: self.next_mode(i),
            last_tick_ms: now,
            started: true,
            dirty_since_ms: self.dirty_since(now, i),
            dirty_present: i.dirty_bytes != 0,
            muzzy_since_ms: self.muzzy_since(now, i),
            muzzy_present: i.muzzy_bytes != 0,
            last_allocated_total: i.allocated_bytes_total,
            last_freed_total: i.freed_bytes_total,
            last_pressure_notifications: i.pressure_notifications,
            recent_peak_free: if self.reanchors(now, free) {
                free as u64
            } else {
                self.recent_peak_free
            },
            peak_anchor_ms: if self.reanchors(now, free) {
                now
            } else {
                self.peak_anchor_ms
            },
            alloc_rate_bps: self.alloc_rate(now, i) as u64,
            free_rate_bps: self.free_rate(now, i) as u64,
            backlog_bytes: self.backlog(now, i) as u64,
            planned_bytes_total: cap64(self.planned_bytes_total + cap64(p.sum())) as u64,
            demand_reserve_bytes: self.reserve(now, i) as u64,
            ticks: cap64(self.ticks + 1) as u64,
            active_ticks: if p.sum() == 0 && !p.disable_hugecache_reserve {
                self.active_ticks
            } else {
                cap64(self.active_ticks + 1) as u64
            },
            ..self
        }
    }
}

/// The release controller.
pub struct ReleaseController {
    s: ControllerState,
}

impl View for ReleaseController {
    type V = ControllerState;

    closed spec fn view(&self) -> ControllerState {
        self.s
    }
}

impl ReleaseController {
    /// A controller with the default watermarks, no latency ceiling and no emergency reserve.
    pub fn new(config: DecayConfig) -> (res: ReleaseController)
        ensures
            res@ == ControllerState::initial(
                config,
                PressureThresholds::preset(),
                LatencyClass::MayBlock,
                0,
            ),
    {
        ReleaseController::with(config, PressureThresholds::default(), LatencyClass::MayBlock, 0)
    }

    /// A controller with everything specified.
    pub fn with(
        config: DecayConfig,
        thresholds: PressureThresholds,
        max_latency: LatencyClass,
        emergency_reserve_bytes: u64,
    ) -> (res: ReleaseController)
        ensures
            res@ == ControllerState::initial(
                config,
                thresholds,
                max_latency,
                emergency_reserve_bytes,
            ),
    {
        ReleaseController {
            s: ControllerState {
                config,
                thresholds,
                max_latency,
                emergency_reserve_bytes,
                mode: PressureMode::Normal,
                last_tick_ms: 0,
                started: false,
                dirty_since_ms: 0,
                dirty_present: false,
                muzzy_since_ms: 0,
                muzzy_present: false,
                last_allocated_total: 0,
                last_freed_total: 0,
                last_pressure_notifications: 0,
                recent_peak_free: 0,
                peak_anchor_ms: 0,
                alloc_rate_bps: 0,
                free_rate_bps: 0,
                backlog_bytes: 0,
                planned_bytes_total: 0,
                demand_reserve_bytes: 0,
                ticks: 0,
                active_ticks: 0,
                next_arena: 0,
            },
        }
    }

    /// A controller for an arena: its decay and its latency ceiling, the default watermarks
    /// and no emergency reserve.
    pub fn for_arena(policy: &ArenaPolicy) -> (res: ReleaseController)
        ensures
            res@ == ControllerState::initial(
                policy.decay,
                PressureThresholds::preset(),
                policy.latency,
                0,
            ),
    {
        ReleaseController::with(policy.decay, PressureThresholds::default(), policy.latency, 0)
    }

    /// The decay configuration.
    pub fn config(&self) -> (res: DecayConfig)
        ensures
            res == self@.config,
    {
        self.s.config
    }

    /// The current pressure.
    pub fn mode(&self) -> (res: PressureMode)
        ensures
            res == self@.mode,
    {
        self.s.mode
    }

    /// Bytes that the rate cap has kept from being released so far.
    pub fn backlog_bytes(&self) -> (res: u64)
        ensures
            res == self@.backlog_bytes,
    {
        self.s.backlog_bytes
    }

    /// The slowest work that is planned.
    pub fn max_latency(&self) -> (res: LatencyClass)
        ensures
            res == self@.max_latency,
    {
        self.s.max_latency
    }

    /// The reserve for emergencies, which no tick changes.
    pub fn emergency_reserve_bytes(&self) -> (res: u64)
        ensures
            res == self@.emergency_reserve_bytes,
    {
        self.s.emergency_reserve_bytes
    }

    /// A snapshot of the counters.
    pub fn stats(&self) -> (res: ReleaseStats)
        ensures
            res == (ReleaseStats {
                mode: self@.mode,
                backlog_bytes: self@.backlog_bytes,
                planned_bytes_total: self@.planned_bytes_total,
                ticks: self@.ticks,
                demand_reserve_bytes: self@.demand_reserve_bytes,
                active_ticks: self@.active_ticks,
                alloc_rate_bps: self@.alloc_rate_bps,
                free_rate_bps: self@.free_rate_bps,
            }),
    {
        ReleaseStats {
            mode: self.s.mode,
            backlog_bytes: self.s.backlog_bytes,
            planned_bytes_total: self.s.planned_bytes_total,
            ticks: self.s.ticks,
            demand_reserve_bytes: self.s.demand_reserve_bytes,
            active_ticks: self.s.active_ticks,
            alloc_rate_bps: self.s.alloc_rate_bps,
            free_rate_bps: self.s.free_rate_bps,
        }
    }

    /// The arena to serve next, in turn. With no arenas, the default one, and the turn stays.
    pub fn next_fair_arena(&mut self, arena_count: u32) -> (res: ArenaId)
        ensures
            arena_count == 0 ==> res == ArenaId(0) && final(self)@ == old(self)@,
            arena_count != 0 ==> {
                &&& res.0 == old(self)@.turn(arena_count as int)
                &&& final(self)@ == old(self)@.after_turn(arena_count as int)
            },
    {
        if arena_count == 0 {
            return ArenaId::default_arena();
        }
        let idx: u32 = self.s.next_arena % arena_count;
        proof {
            overflow::lemma_next_turn(self.s.next_arena as int, arena_count as int);
        }
        self.s.next_arena = if idx == arena_count - 1 {
            0
        } else {
            idx + 1
        };
        ArenaId(idx)
    }

    /// One step of the pump: update the pressure, compute the demand reserve, and plan what to
    /// release, within the rate cap. What the cap keeps back stays owed.
    #[verifier::spinoff_prover]
    pub fn tick(&mut self, now_ms: u64, inputs: ReleaseInputs) -> (res: ReleasePlan)
        ensures
            res == old(self)@.plan(now_ms, inputs),
            final(self)@ == old(self)@.after(now_ms, inputs),
    {
        let ghost before = self.s;
        let mode: PressureMode = self.classify_mode(&inputs);
        let elapsed_ms: u64 = if self.s.started {
            now_ms.saturating_sub(self.s.last_tick_ms)
        } else {
            0
        };
        let free_now: u64 = inputs.idle_cache_bytes.saturating_add(
            inputs.dirty_bytes,
        ).saturating_add(inputs.muzzy_bytes).saturating_add(inputs.empty_backed_hugepage_bytes);
        let recent_peak: u64 = self.update_peak(now_ms, free_now);
        let alloc_rate_bps: u64 = rate_per_sec(
            inputs.allocated_bytes_total.saturating_sub(self.s.last_allocated_total),
            elapsed_ms,
        );
        let free_rate_bps: u64 = rate_per_sec(
            inputs.freed_bytes_total.saturating_sub(self.s.last_freed_total),
            elapsed_ms,
        );
        self.s.alloc_rate_bps = alloc_rate_bps;
        self.s.free_rate_bps = free_rate_bps;
        if inputs.dirty_bytes == 0 {
            self.s.dirty_present = false;
            self.s.dirty_since_ms = now_ms;
        } else if !self.s.dirty_present {
            self.s.dirty_present = true;
            self.s.dirty_since_ms = now_ms;
        }
        if inputs.muzzy_bytes == 0 {
            self.s.muzzy_present = false;
            self.s.muzzy_since_ms = now_ms;
        } else if !self.s.muzzy_present {
            self.s.muzzy_present = true;
            self.s.muzzy_since_ms = now_ms;
        }
        self.s.mode = mode;
        let reserve: u64 = demand_reserve(
            alloc_rate_bps,
            recent_peak,
            inputs.refill_miss_rate_ppk,
            mode,
        );
        self.s.demand_reserve_bytes = reserve;
        let hard: bool = mode.severity() >= PressureMode::Hard.severity();
        let dirty_aged: bool = hard || now_ms.saturating_sub(self.s.dirty_since_ms)
            >= self.s.config.dirty_decay_ms;
        let muzzy_aged: bool = hard || now_ms.saturating_sub(self.s.muzzy_since_ms)
            >= self.s.config.muzzy_decay_ms;
        let mut plan: ReleasePlan = self.plan_ladder(&inputs, reserve, dirty_aged, muzzy_aged);
        proof {
            assert(plan == before.wanted(now_ms, inputs));
        }
        let supply: u64 = plan.total_bytes();
        let desired: u64 = if supply >= self.s.backlog_bytes {
            supply
        } else {
            self.s.backlog_bytes
        };
        if self.s.config.release_rate_bytes_per_sec != 0 && mode != PressureMode::Emergency {
            let budget: u64 = rate_budget(
                self.s.config.release_rate_bytes_per_sec,
                elapsed_ms,
                !self.s.started,
            );
            let granted: u64 = min_u64(budget, desired);
            scale_plan_to_budget(&mut plan, granted);
            self.s.backlog_bytes = min_u64(desired.saturating_sub(plan.total_bytes()), supply);
        } else {
            self.s.backlog_bytes = 0;
        }
        self.s.last_tick_ms = now_ms;
        self.s.last_allocated_total = inputs.allocated_bytes_total;
        self.s.last_freed_total = inputs.freed_bytes_total;
        self.s.last_pressure_notifications = inputs.pressure_notifications;
        self.s.started = true;
        self.s.ticks = self.s.ticks.saturating_add(1);
        self.s.planned_bytes_total = self.s.planned_bytes_total.saturating_add(plan.total_bytes());
        if !plan.is_empty() {
            self.s.active_ticks = self.s.active_ticks.saturating_add(1);
        }
        plan
    }

    /// Remember a new or replaced peak of free memory, and answer the peak as of now.
    fn update_peak(&mut self, now_ms: u64, free_now: u64) -> (res: u64)
        ensures
            res == old(self)@.peak(now_ms, free_now as int),
            final(self)@ == (ControllerState {
                recent_peak_free: if old(self)@.reanchors(now_ms, free_now as int) {
                    free_now
                } else {
                    old(self)@.recent_peak_free
                },
                peak_anchor_ms: if old(self)@.reanchors(now_ms, free_now as int) {
                    now_ms
                } else {
                    old(self)@.peak_anchor_ms
                },
                ..old(self)@
            }),
    {
        proof {
            reveal(ControllerState::peak);
        }
        if free_now >= self.s.recent_peak_free || now_ms.saturating_sub(self.s.peak_anchor_ms)
            >= PEAK_DECAY_MS {
            self.s.recent_peak_free = free_now;
            self.s.peak_anchor_ms = now_ms;
            return free_now;
        }
        let age: u64 = now_ms.saturating_sub(self.s.peak_anchor_ms);
        let excess: u64 = self.s.recent_peak_free - free_now;
        let remaining: u128 = mul_div(excess, PEAK_DECAY_MS - age, PEAK_DECAY_MS);
        proof {
            assert((excess * (PEAK_DECAY_MS - age)) / 8_000 <= excess) by (nonlinear_arith)
                requires
                    0 <= excess,
                    0 <= PEAK_DECAY_MS - age <= 8_000,
            ;
        }
        free_now + remaining as u64
    }

    /// The pressure after reading the inputs.
    fn classify_mode(&self, inputs: &ReleaseInputs) -> (res: PressureMode)
        ensures
            res == self@.next_mode(*inputs),
    {
        proof {
            reveal(ControllerState::next_mode);
        }
        let pressure_rose: bool = inputs.pressure_notifications
            > self.s.last_pressure_notifications;
        if inputs.alloc_failed || inputs.cgroup_critical() {
            return PressureMode::Emergency;
        }
        let u: u32 = inputs.utilization_bp();
        let mut raw: PressureMode = if u >= self.s.thresholds.hard_bp {
            PressureMode::Hard
        } else if u >= self.s.thresholds.soft_bp {
            PressureMode::Soft
        } else {
            PressureMode::Normal
        };
        if pressure_rose && raw.severity() < PressureMode::Soft.severity() {
            raw = PressureMode::Soft;
        }
        if raw.severity() >= self.s.mode.severity() {
            return raw;
        }
        let stay: bool = match self.s.mode {
            PressureMode::Emergency => false,
            PressureMode::Hard => u >= self.s.thresholds.hard_bp.saturating_sub(
                self.s.thresholds.hysteresis_bp,
            ),
            PressureMode::Soft => u >= self.s.thresholds.soft_bp.saturating_sub(
                self.s.thresholds.hysteresis_bp,
            ),
            PressureMode::Normal => false,
        };
        if stay {
            self.s.mode
        } else {
            raw
        }
    }

    /// What each kind of work would take under the current pressure, before the rate cap.
    fn plan_ladder(
        &self,
        inputs: &ReleaseInputs,
        reserve: u64,
        dirty_aged: bool,
        muzzy_aged: bool,
    ) -> (res: ReleasePlan)
        ensures
            res == ladder(
                self@.config,
                self@.max_latency,
                self@.mode,
                *inputs,
                reserve,
                dirty_aged,
                muzzy_aged,
            ),
    {
        proof {
            reveal(ladder);
        }
        let mut plan: ReleasePlan = ReleasePlan::default();
        plan.mode = self.s.mode;
        plan.demand_reserve_bytes = reserve;
        let sev: u8 = self.s.mode.severity();
        let emergency: bool = self.s.mode == PressureMode::Emergency;
        if !self.s.config.background_purge_enabled && !emergency {
            return plan;
        }
        if inputs.cpu_pressure && !emergency {
            return plan;
        }
        let may_block: bool = LatencyClass::MayBlock.permitted_under(self.s.max_latency);
        let may_slow: bool = LatencyClass::BoundedSlow.permitted_under(self.s.max_latency);
        if LatencyClass::FastOnly.permitted_under(self.s.max_latency) {
            plan.drain_caches_bytes = if sev == 0 {
                inputs.idle_cache_bytes / 4
            } else if sev == 1 {
                inputs.idle_cache_bytes / 2
            } else {
                inputs.idle_cache_bytes
            };
        }
        if sev >= PressureMode::Soft.severity() && may_block {
            let reserve_for_hp: u64 = if emergency {
                0
            } else {
                reserve
            };
            plan.release_empty_hugepages_bytes = inputs.empty_backed_hugepage_bytes.saturating_sub(
                reserve_for_hp,
            );
        }
        if emergency {
            plan.disable_hugecache_reserve = true;
        }
        if dirty_aged && may_block {
            plan.purge_dirty_bytes = inputs.purgeable_dirty();
        }
        if dirty_aged && may_slow {
            plan.dirty_to_muzzy_bytes = inputs.purgeable_dirty().saturating_sub(
                plan.purge_dirty_bytes,
            );
        }
        if sev >= PressureMode::Hard.severity() && may_slow {
            plan.subrelease_cold_sparse_bytes = inputs.cold_sparse_bytes;
        }
        if muzzy_aged && !emergency && may_block {
            plan.release_muzzy_bytes = inputs.muzzy_bytes;
        }
        if emergency && may_block {
            plan.emergency_shrink_bytes = inputs.muzzy_bytes;
        }
        plan
    }
}

/// Ticking again at the same time, or with a clock that stepped back, plans nothing while the
/// rate cap applies.
pub proof fn law_repeated_tick_grants_nothing(s: ControllerState, now: u64, i: ReleaseInputs)
    requires
        s.started,
        now <= s.last_tick_ms,
        s.capped(i),
    ensures
        s.plan(now, i).sum() == 0,
{
    reveal(allowance);
    law_funded_plan_meets_the_budget(s.wanted(now, i), 0);
    assert(s.owed(now, i) >= 0);
}

/// While the rate cap applies, a tick plans at most what the interval allows.
pub proof fn law_plan_is_within_the_rate(s: ControllerState, now: u64, i: ReleaseInputs)
    requires
        s.capped(i),
    ensures
        s.plan(now, i).sum() <= allowance(
            s.config.release_rate_bytes_per_sec as int,
            s.elapsed(now),
            !s.started,
        ),
{
    reveal(allowance);
    let rate = s.config.release_rate_bytes_per_sec as int;
    let e = s.elapsed(now);
    assert(0 <= (rate * e) / 1_000) by (nonlinear_arith)
        requires
            0 <= rate,
            0 <= e,
    ;
    law_funded_plan_meets_the_budget(
        s.wanted(now, i),
        least(allowance(rate, e, !s.started), s.owed(now, i)),
    );
}

/// Allocation is met with restraint: from the same state, on inputs that differ only in that
/// more has been allocated, the tick withholds at least as much and releases no more empty
/// hugepages.
pub proof fn law_more_allocation_releases_no_more(
    s: ControllerState,
    now: u64,
    i: ReleaseInputs,
    j: ReleaseInputs,
)
    requires
        j == (ReleaseInputs { allocated_bytes_total: j.allocated_bytes_total, ..i }),
        i.allocated_bytes_total <= j.allocated_bytes_total,
    ensures
        s.next_mode(j) == s.next_mode(i),
        s.reserve(now, i) <= s.reserve(now, j),
        s.plan(now, i).demand_reserve_bytes <= s.plan(now, j).demand_reserve_bytes,
        s.plan(now, j).release_empty_hugepages_bytes <= s.plan(
            now,
            i,
        ).release_empty_hugepages_bytes,
{
    reveal(ControllerState::next_mode);
    let x = monus(i.allocated_bytes_total as int, s.last_allocated_total as int);
    let y = monus(j.allocated_bytes_total as int, s.last_allocated_total as int);
    let e = s.elapsed(now);
    assert(0 <= s.alloc_rate(now, i) <= s.alloc_rate(now, j)) by {
        reveal(per_second);
        if e != 0 {
            assert(0 <= (x * 1_000) / e <= (y * 1_000) / e) by (nonlinear_arith)
                requires
                    0 <= x <= y,
                    0 < e,
            ;
        }
    }
    law_peak_lies_between(s, now, i.releasable());
    let peak = s.peak(now, i.releasable());
    let miss = i.refill_miss_rate_ppk as int;
    let mode = s.next_mode(i);
    law_demand_reserve(s.alloc_rate(now, i), s.alloc_rate(now, j), peak, miss, miss, mode, mode);
    law_demand_reserve(s.alloc_rate(now, j), s.alloc_rate(now, j), peak, miss, miss, mode, mode);
    reveal(ladder);
    reveal(funded);
}

/// The backlog never exceeds what there is to release, and an emergency or an unlimited rate
/// leaves none.
pub proof fn law_backlog_is_backed_by_supply(s: ControllerState, now: u64, i: ReleaseInputs)
    ensures
        s.backlog(now, i) <= s.wanted(now, i).sum(),
        !s.capped(i) ==> s.backlog(now, i) == 0 && s.plan(now, i) == s.wanted(now, i),
{
}

/// An emergency withholds nothing: no demand reserve, every empty hugepage, no rate cap.
pub proof fn law_emergency_withholds_nothing(s: ControllerState, now: u64, i: ReleaseInputs)
    requires
        s.next_mode(i) == PressureMode::Emergency,
    ensures
        s.reserve(now, i) == 0,
        s.plan(now, i).disable_hugecache_reserve,
        s.plan(now, i).drain_caches_bytes == i.idle_cache_bytes,
        s.max_latency == LatencyClass::MayBlock ==> s.plan(now, i).release_empty_hugepages_bytes
            == i.empty_backed_hugepage_bytes,
        s.backlog(now, i) == 0,
{
    reveal(reserve_for);
    reveal(ladder);
}

/// A tick that neither sees a new high nor an aged-out peak does not disturb it: the peak that
/// a later tick computes is the same whether or not this one took place, so how often the
/// pump ticks does not matter.
pub proof fn law_peak_decay_is_independent_of_cadence(
    s: ControllerState,
    now: u64,
    i: ReleaseInputs,
    later: u64,
    free: int,
)
    requires
        !s.reanchors(now, i.releasable()),
    ensures
        s.after(now, i).peak(later, free) == s.peak(later, free),
        s.after(now, i).reanchors(later, free) == s.reanchors(later, free),
{
    reveal(ControllerState::peak);
}

/// The peak is never below what is free now, nor above the remembered one.
pub proof fn law_peak_lies_between(s: ControllerState, now: u64, free: int)
    requires
        0 <= free,
    ensures
        free <= s.peak(now, free),
        s.peak(now, free) <= greatest(free, s.recent_peak_free as int),
{
    reveal(ControllerState::peak);
    let age = least(monus(now as int, s.peak_anchor_ms as int), PEAK_DECAY_MS as int);
    if !s.reanchors(now, free) {
        let x = s.recent_peak_free - free;
        let y = PEAK_DECAY_MS - age;
        assert(0 <= (x * y) / 8_000 <= x) by (nonlinear_arith)
            requires
                0 <= x,
                0 <= y <= 8_000,
        ;
    }
}

/// What the controller was built with never changes, the emergency reserve least of all.
pub proof fn law_tick_keeps_the_configuration(s: ControllerState, now: u64, i: ReleaseInputs)
    ensures
        s.after(now, i).config == s.config,
        s.after(now, i).thresholds == s.thresholds,
        s.after(now, i).max_latency == s.max_latency,
        s.after(now, i).emergency_reserve_bytes == s.emergency_reserve_bytes,
{
}

/// Nothing slower than the ceiling is ever planned.
pub proof fn law_plan_respects_the_latency_ceiling(s: ControllerState, now: u64, i: ReleaseInputs)
    ensures
        s.max_latency != LatencyClass::MayBlock ==> {
            &&& s.plan(now, i).release_empty_hugepages_bytes == 0
            &&& s.plan(now, i).purge_dirty_bytes == 0
            &&& s.plan(now, i).release_muzzy_bytes == 0
            &&& s.plan(now, i).emergency_shrink_bytes == 0
        },
        s.max_latency == LatencyClass::FastOnly ==> {
            &&& s.plan(now, i).dirty_to_muzzy_bytes == 0
            &&& s.plan(now, i).subrelease_cold_sparse_bytes == 0
        },
{
    reveal(ladder);
    reveal(funded);
}

/// Short of an emergency, the empty hugepages that are released leave the demand reserve: what
/// the application is about to want is not given back only to be faulted in again.
pub proof fn law_release_leaves_the_reserve(s: ControllerState, now: u64, i: ReleaseInputs)
    requires
        s.next_mode(i) != PressureMode::Emergency,
    ensures
        s.plan(now, i).release_empty_hugepages_bytes <= monus(
            i.empty_backed_hugepage_bytes as int,
            s.reserve(now, i) as u64 as int,
        ),
{
    reveal(ladder);
    reveal(funded);
}

/// Without pressure no hugepage is broken up or given back.
pub proof fn law_normal_mode_preserves_hugepages(s: ControllerState, now: u64, i: ReleaseInputs)
    requires
        s.next_mode(i) == PressureMode::Normal,
    ensures
        s.plan(now, i).release_empty_hugepages_bytes == 0,
        s.plan(now, i).subrelease_cold_sparse_bytes == 0,
        s.plan(now, i).emergency_shrink_bytes == 0,
        !s.plan(now, i).disable_hugecache_reserve,
{
    reveal(ladder);
    reveal(funded);
}

/// Cold sparse hugepages are subreleased under hard pressure or worse only.
pub proof fn law_subrelease_needs_hard_pressure(s: ControllerState, now: u64, i: ReleaseInputs)
    ensures
        s.plan(now, i).subrelease_cold_sparse_bytes > 0 ==> s.next_mode(i).rank()
            >= PressureMode::Hard.rank(),
{
    reveal(ladder);
    reveal(funded);
}

/// Dirty memory on hot hugepages is never purged, and none is before it has decayed.
pub proof fn law_purge_waits_and_spares_hot_pages(s: ControllerState, now: u64, i: ReleaseInputs)
    ensures
        s.plan(now, i).purge_dirty_bytes + s.plan(now, i).dirty_to_muzzy_bytes <= i.purgeable(),
        !s.aged(now, s.dirty_since(now, i), s.config.dirty_decay_ms, i) ==> s.plan(
            now,
            i,
        ).purge_dirty_bytes == 0 && s.plan(now, i).dirty_to_muzzy_bytes == 0,
        !s.aged(now, s.muzzy_since(now, i), s.config.muzzy_decay_ms, i) ==> s.plan(
            now,
            i,
        ).release_muzzy_bytes == 0,
{
    reveal(ladder);
    reveal(funded);
}

/// With background purging off, or with the processors pressed, nothing is planned short of an
/// emergency.
pub proof fn law_routine_work_can_be_held_back(s: ControllerState, now: u64, i: ReleaseInputs)
    requires
        !s.config.background_purge_enabled || i.cpu_pressure,
        s.next_mode(i) != PressureMode::Emergency,
    ensures
        s.plan(now, i).sum() == 0,
        !s.plan(now, i).disable_hugecache_reserve,
{
    reveal(ladder);
    reveal(funded);
}

/// Pressure rises at once: to an emergency when an allocation failed or the limit is reached, to
/// what the watermarks say, and to soft at least on a new notification.
pub proof fn law_pressure_rises_at_once(s: ControllerState, i: ReleaseInputs)
    ensures
        i.alloc_failed || i.critical() <==> s.next_mode(i) == PressureMode::Emergency,
        s.next_mode(i).rank() >= watermark_mode(s.thresholds, i.utilization()).rank(),
        i.pressure_notifications > s.last_pressure_notifications ==> s.next_mode(i).rank()
            >= PressureMode::Soft.rank(),
{
    reveal(ControllerState::next_mode);
}

/// Pressure falls only past the margin below its watermark, so that a reading at the watermark
/// does not make it flap.
pub proof fn law_pressure_falls_past_the_margin(s: ControllerState, i: ReleaseInputs)
    requires
        s.next_mode(i).rank() < s.mode.rank(),
        s.mode != PressureMode::Emergency,
    ensures
        s.mode == PressureMode::Hard ==> i.utilization() < monus(
            s.thresholds.hard_bp as int,
            s.thresholds.hysteresis_bp as int,
        ),
        s.mode == PressureMode::Soft ==> i.utilization() < monus(
            s.thresholds.soft_bp as int,
            s.thresholds.hysteresis_bp as int,
        ),
{
    reveal(ControllerState::next_mode);
}

} // verus!
