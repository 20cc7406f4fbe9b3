//! What the release controller is for: memory is kept while it is young or about to be wanted,
//! and goes back when it is old or when there is pressure.
use vstd::prelude::*;
use crate::release;
use crate::release::{
    ControllerState, LatencyClass, PressureMode, PressureThresholds, ReleaseInputs, ReleasePlan,
    PEAK_DECAY_MS,
};
use crate::arena::DecayConfig;

verus! {

/// The controller after some ticks, each at its time and on its inputs.
pub open spec fn ticked(s: ControllerState, ticks: Seq<(u64, ReleaseInputs)>) -> ControllerState
    decreases ticks.len(),
{
    if ticks.len() == 0 {
        s
    } else {
        ticked(s, ticks.drop_last()).after(ticks.last().0, ticks.last().1)
    }
}

/// The clock did not step back, up to `now`.
pub open spec fn clock_ok(ticks: Seq<(u64, ReleaseInputs)>, now: u64) -> bool {
    &&& forall|a: int, b: int|
        #![trigger ticks[a], ticks[b]]
        0 <= a <= b < ticks.len() ==> ticks[a].0 <= ticks[b].0
    &&& forall|a: int| #![trigger ticks[a]] 0 <= a < ticks.len() ==> ticks[a].0 <= now
}

/// There was dirty memory at every tick from the `m`th on.
pub open spec fn dirty_from(ticks: Seq<(u64, ReleaseInputs)>, m: int) -> bool {
    forall|k: int| #![trigger ticks[k]] m <= k < ticks.len() ==> ticks[k].1.dirty_bytes > 0
}

/// There was muzzy memory at every tick from the `m`th on.
pub open spec fn muzzy_from(ticks: Seq<(u64, ReleaseInputs)>, m: int) -> bool {
    forall|k: int| #![trigger ticks[k]] m <= k < ticks.len() ==> ticks[k].1.muzzy_bytes > 0
}

/// The pressure of a plan is short of hard.
pub open spec fn eased(p: ReleasePlan) -> bool {
    p.mode == PressureMode::Normal || p.mode == PressureMode::Soft
}

/// Work may be planned: purging is on and the processors are not pressed.
pub open spec fn may_work(config: DecayConfig, i: ReleaseInputs) -> bool {
    config.background_purge_enabled && !i.cpu_pressure
}

/// Ticks leave what the controller was built with.
proof fn lemma_config(s: ControllerState, ticks: Seq<(u64, ReleaseInputs)>)
    ensures
        ticked(s, ticks).config == s.config,
        ticked(s, ticks).thresholds == s.thresholds,
        ticked(s, ticks).max_latency == s.max_latency,
        ticked(s, ticks).started == (s.started || ticks.len() > 0),
    decreases ticks.len(),
{
    if ticks.len() > 0 {
        lemma_config(s, ticks.drop_last());
    }
}

/// The controller remembers when the present stretch of dirty memory began: it answers the tick
/// at which it did, or as many as there were ticks when the last one saw none.
proof fn lemma_dirty_stretch(s: ControllerState, ticks: Seq<(u64, ReleaseInputs)>) -> (m: int)
    requires
        !s.dirty_present,
    ensures
        0 <= m <= ticks.len(),
        dirty_from(ticks, m),
        m > 0 ==> ticks[m - 1].1.dirty_bytes == 0,
        ticked(s, ticks).dirty_present == (m < ticks.len()),
        m < ticks.len() ==> ticked(s, ticks).dirty_since_ms == ticks[m].0,
    decreases ticks.len(),
{
    if ticks.len() == 0 {
        0
    } else {
        let before = ticks.drop_last();
        let n = lemma_dirty_stretch(s, before);
        if ticks.last().1.dirty_bytes == 0 {
            ticks.len() as int
        } else {
            assert forall|k: int| #![trigger ticks[k]] n <= k < ticks.len() implies ticks[k].1.dirty_bytes
                > 0 by {
                if k < before.len() {
                    assert(before[k] == ticks[k]);
                }
            }
            if n > 0 {
                assert(before[n - 1] == ticks[n - 1]);
            }
            n
        }
    }
}

/// The same of muzzy memory.
proof fn lemma_muzzy_stretch(s: ControllerState, ticks: Seq<(u64, ReleaseInputs)>) -> (m: int)
    requires
        !s.muzzy_present,
    ensures
        0 <= m <= ticks.len(),
        muzzy_from(ticks, m),
        m > 0 ==> ticks[m - 1].1.muzzy_bytes == 0,
        ticked(s, ticks).muzzy_present == (m < ticks.len()),
        m < ticks.len() ==> ticked(s, ticks).muzzy_since_ms == ticks[m].0,
    decreases ticks.len(),
{
    if ticks.len() == 0 {
        0
    } else {
        let before = ticks.drop_last();
        let n = lemma_muzzy_stretch(s, before);
        if ticks.last().1.muzzy_bytes == 0 {
            ticks.len() as int
        } else {
            assert forall|k: int| #![trigger ticks[k]] n <= k < ticks.len() implies ticks[k].1.muzzy_bytes
                > 0 by {
                if k < before.len() {
                    assert(before[k] == ticks[k]);
                }
            }
            if n > 0 {
                assert(before[n - 1] == ticks[n - 1]);
            }
            n
        }
    }
}

/// Dirty memory that has just appeared is kept: short of hard pressure, a tick that sees some
/// where the tick before saw none purges nothing and turns nothing muzzy.
pub proof fn law_new_dirty_memory_is_kept(
    s: ControllerState,
    before: u64,
    i: ReleaseInputs,
    now: u64,
    j: ReleaseInputs,
)
    requires
        i.dirty_bytes == 0,
        s.config.dirty_decay_ms > 0,
        eased(s.after(before, i).plan(now, j)),
    ensures
        s.after(before, i).plan(now, j).purge_dirty_bytes == 0,
        s.after(before, i).plan(now, j).dirty_to_muzzy_bytes == 0,
{
    reveal(release::ladder);
    reveal(release::funded);
}

/// The same of muzzy memory: what has just become muzzy is not released.
pub proof fn law_new_muzzy_memory_is_kept(
    s: ControllerState,
    before: u64,
    i: ReleaseInputs,
    now: u64,
    j: ReleaseInputs,
)
    requires
        i.muzzy_bytes == 0,
        s.config.muzzy_decay_ms > 0,
        eased(s.after(before, i).plan(now, j)),
    ensures
        s.after(before, i).plan(now, j).release_muzzy_bytes == 0,
{
    reveal(release::ladder);
    reveal(release::funded);
}

/// Dirty memory is purged, or turned muzzy, only when it is old: short of hard pressure, every
/// tick within the decay time before this one saw dirty memory, and so did one further back.
pub proof fn law_young_dirty_memory_is_kept(
    config: DecayConfig,
    thresholds: PressureThresholds,
    ceiling: LatencyClass,
    reserve: u64,
    ticks: Seq<(u64, ReleaseInputs)>,
    now: u64,
    i: ReleaseInputs,
)
    requires
        clock_ok(ticks, now),
        ({
            let s = ticked(ControllerState::initial(config, thresholds, ceiling, reserve), ticks);
            &&& s.plan(now, i).purge_dirty_bytes > 0 || s.plan(now, i).dirty_to_muzzy_bytes > 0
            &&& eased(s.plan(now, i))
        }),
    ensures
        i.dirty_bytes > 0,
        forall|k: int|
            #![trigger ticks[k]]
            0 <= k < ticks.len() && ticks[k].0 + config.dirty_decay_ms > now
                ==> ticks[k].1.dirty_bytes > 0,
        config.dirty_decay_ms > 0 ==> exists|m: int|
            #![trigger ticks[m]]
            0 <= m < ticks.len() && ticks[m].0 + config.dirty_decay_ms <= now && dirty_from(
                ticks,
                m,
            ),
{
    let s0 = ControllerState::initial(config, thresholds, ceiling, reserve);
    let s = ticked(s0, ticks);
    lemma_config(s0, ticks);
    let m = lemma_dirty_stretch(s0, ticks);
    reveal(release::ladder);
    reveal(release::funded);
    if m < ticks.len() {
        assert(ticks[m].0 + config.dirty_decay_ms <= now);
        assert forall|k: int|
            #![trigger ticks[k]]
            0 <= k < ticks.len() && ticks[k].0 + config.dirty_decay_ms > now implies ticks[k].1.dirty_bytes
            > 0 by {
            if k < m {
                assert(ticks[k].0 <= ticks[m].0);
            }
        }
    } else {
        assert(config.dirty_decay_ms == 0);
    }
}

/// Old dirty memory is purged: when every tick since one that lies the decay time back saw some,
/// and work may be planned at any latency and at any rate, all of it goes that does not lie on
/// hot hugepages. Where work may not block but may be slow, it is turned muzzy.
pub proof fn law_old_dirty_memory_is_purged(
    config: DecayConfig,
    thresholds: PressureThresholds,
    ceiling: LatencyClass,
    reserve: u64,
    ticks: Seq<(u64, ReleaseInputs)>,
    now: u64,
    i: ReleaseInputs,
    m: int,
)
    requires
        clock_ok(ticks, now),
        0 <= m < ticks.len(),
        dirty_from(ticks, m),
        ticks[m].0 + config.dirty_decay_ms <= now,
        i.hot_dirty_bytes <= i.dirty_bytes,
        i.dirty_bytes > 0,
        may_work(config, i),
        config.release_rate_bytes_per_sec == 0,
    ensures
        ({
            let s = ticked(ControllerState::initial(config, thresholds, ceiling, reserve), ticks);
            &&& ceiling == LatencyClass::MayBlock ==> s.plan(now, i).purge_dirty_bytes
                == i.dirty_bytes - i.hot_dirty_bytes
            &&& ceiling == LatencyClass::BoundedSlow ==> s.plan(now, i).dirty_to_muzzy_bytes
                == i.dirty_bytes - i.hot_dirty_bytes
        }),
{
    let s0 = ControllerState::initial(config, thresholds, ceiling, reserve);
    lemma_config(s0, ticks);
    let n = lemma_dirty_stretch(s0, ticks);
    if n > m {
        assert(ticks[n - 1].1.dirty_bytes > 0);
    }
    assert(ticks[n].0 <= ticks[m].0);
    reveal(release::ladder);
}

/// Muzzy memory is released only when it is old, in the same sense.
pub proof fn law_young_muzzy_memory_is_kept(
    config: DecayConfig,
    thresholds: PressureThresholds,
    ceiling: LatencyClass,
    reserve: u64,
    ticks: Seq<(u64, ReleaseInputs)>,
    now: u64,
    i: ReleaseInputs,
)
    requires
        clock_ok(ticks, now),
        ({
            let s = ticked(ControllerState::initial(config, thresholds, ceiling, reserve), ticks);
            s.plan(now, i).release_muzzy_bytes > 0 && eased(s.plan(now, i))
        }),
    ensures
        i.muzzy_bytes > 0,
        forall|k: int|
            #![trigger ticks[k]]
            0 <= k < ticks.len() && ticks[k].0 + config.muzzy_decay_ms > now
                ==> ticks[k].1.muzzy_bytes > 0,
        config.muzzy_decay_ms > 0 ==> exists|m: int|
            #![trigger ticks[m]]
            0 <= m < ticks.len() && ticks[m].0 + config.muzzy_decay_ms <= now && muzzy_from(
                ticks,
                m,
            ),
{
    let s0 = ControllerState::initial(config, thresholds, ceiling, reserve);
    let s = ticked(s0, ticks);
    lemma_config(s0, ticks);
    let m = lemma_muzzy_stretch(s0, ticks);
    reveal(release::ladder);
    reveal(release::funded);
    if m < ticks.len() {
        assert(ticks[m].0 + config.muzzy_decay_ms <= now);
        assert forall|k: int|
            #![trigger ticks[k]]
            0 <= k < ticks.len() && ticks[k].0 + config.muzzy_decay_ms > now implies ticks[k].1.muzzy_bytes
            > 0 by {
            if k < m {
                assert(ticks[k].0 <= ticks[m].0);
            }
        }
    } else {
        assert(config.muzzy_decay_ms == 0);
    }
}

/// Old muzzy memory is released, all of it, where work may block and is not limited.
pub proof fn law_old_muzzy_memory_is_released(
    config: DecayConfig,
    thresholds: PressureThresholds,
    reserve: u64,
    ticks: Seq<(u64, ReleaseInputs)>,
    now: u64,
    i: ReleaseInputs,
    m: int,
)
    requires
        clock_ok(ticks, now),
        0 <= m < ticks.len(),
        muzzy_from(ticks, m),
        ticks[m].0 + config.muzzy_decay_ms <= now,
        i.muzzy_bytes > 0,
        may_work(config, i),
        config.release_rate_bytes_per_sec == 0,
    ensures
        ({
            let p = ticked(
                ControllerState::initial(config, thresholds, LatencyClass::MayBlock, reserve),
                ticks,
            ).plan(now, i);
            p.release_muzzy_bytes + p.emergency_shrink_bytes == i.muzzy_bytes
        }),
{
    let s0 = ControllerState::initial(config, thresholds, LatencyClass::MayBlock, reserve);
    lemma_config(s0, ticks);
    let n = lemma_muzzy_stretch(s0, ticks);
    if n > m {
        assert(ticks[n - 1].1.muzzy_bytes > 0);
    }
    assert(ticks[n].0 <= ticks[m].0);
    reveal(release::ladder);
}

/// Hard pressure does not wait for the decay: all dirty memory that does not lie on hot
/// hugepages and all muzzy memory goes, all cold sparse hugepages are subreleased and all idle
/// caches drained, where work may block and is not limited.
pub proof fn law_hard_pressure_does_not_wait(s: ControllerState, now: u64, i: ReleaseInputs)
    requires
        !eased(s.plan(now, i)),
        s.max_latency == LatencyClass::MayBlock,
        may_work(s.config, i),
        s.config.release_rate_bytes_per_sec == 0,
        i.hot_dirty_bytes <= i.dirty_bytes,
    ensures
        s.plan(now, i).purge_dirty_bytes == i.dirty_bytes - i.hot_dirty_bytes,
        s.plan(now, i).release_muzzy_bytes + s.plan(now, i).emergency_shrink_bytes == i.muzzy_bytes,
        s.plan(now, i).subrelease_cold_sparse_bytes == i.cold_sparse_bytes,
        s.plan(now, i).drain_caches_bytes == i.idle_cache_bytes,
{
    reveal(release::ladder);
}

/// Caches are drained by more as pressure rises: to a quarter, to a half, and entirely; and
/// under pressure the empty hugepages go that the demand reserve does not keep back.
pub proof fn law_caches_drain_with_pressure(s: ControllerState, now: u64, i: ReleaseInputs)
    requires
        may_work(s.config, i),
        s.config.release_rate_bytes_per_sec == 0,
    ensures
        ({
            let p = s.plan(now, i);
            let idle = i.idle_cache_bytes as int;
            &&& p.mode == PressureMode::Normal ==> 4 * p.drain_caches_bytes <= idle < 4
                * p.drain_caches_bytes + 4
            &&& p.mode == PressureMode::Soft ==> 2 * p.drain_caches_bytes <= idle < 2
                * p.drain_caches_bytes + 2
            &&& !eased(p) ==> p.drain_caches_bytes == idle
            &&& p.mode != PressureMode::Normal && s.max_latency == LatencyClass::MayBlock && p.mode
                != PressureMode::Emergency && p.demand_reserve_bytes
                <= i.empty_backed_hugepage_bytes ==> p.release_empty_hugepages_bytes
                + p.demand_reserve_bytes == i.empty_backed_hugepage_bytes
        }),
{
    reveal(release::ladder);
}

/// A budget goes by priority: what comes later gets nothing before all that comes earlier is
/// granted in full, and nothing is granted more than it wanted. Short of an emergency with a rate
/// cap, that is how the plan of a tick comes of what there is to release.
pub proof fn law_budget_goes_by_priority(wanted: ReleasePlan, budget: int)
    requires
        0 <= budget,
    ensures
        ({
            let p = release::funded(wanted, budget);
            &&& p.drain_caches_bytes <= wanted.drain_caches_bytes
            &&& p.release_empty_hugepages_bytes <= wanted.release_empty_hugepages_bytes
            &&& p.purge_dirty_bytes <= wanted.purge_dirty_bytes
            &&& p.dirty_to_muzzy_bytes <= wanted.dirty_to_muzzy_bytes
            &&& p.subrelease_cold_sparse_bytes <= wanted.subrelease_cold_sparse_bytes
            &&& p.release_muzzy_bytes <= wanted.release_muzzy_bytes
            &&& p.emergency_shrink_bytes <= wanted.emergency_shrink_bytes
            &&& p.release_empty_hugepages_bytes > 0 ==> p.drain_caches_bytes
                == wanted.drain_caches_bytes
            &&& p.purge_dirty_bytes > 0 ==> p.drain_caches_bytes == wanted.drain_caches_bytes
                && p.release_empty_hugepages_bytes == wanted.release_empty_hugepages_bytes
            &&& p.dirty_to_muzzy_bytes > 0 ==> p.purge_dirty_bytes == wanted.purge_dirty_bytes
                && p.release_empty_hugepages_bytes == wanted.release_empty_hugepages_bytes
            &&& p.subrelease_cold_sparse_bytes > 0 ==> p.dirty_to_muzzy_bytes
                == wanted.dirty_to_muzzy_bytes && p.purge_dirty_bytes == wanted.purge_dirty_bytes
            &&& p.release_muzzy_bytes > 0 ==> p.subrelease_cold_sparse_bytes
                == wanted.subrelease_cold_sparse_bytes
            &&& p.emergency_shrink_bytes > 0 ==> p.release_muzzy_bytes == wanted.release_muzzy_bytes
            &&& p.mode == wanted.mode
            &&& p.demand_reserve_bytes == wanted.demand_reserve_bytes
        }),
{
    reveal(release::funded);
}

/// What the rate keeps back is owed: the plan and what stays owed after the tick are together at
/// least what there was to release, as far as that can be counted.
pub proof fn law_what_is_kept_back_is_owed(s: ControllerState, now: u64, i: ReleaseInputs)
    requires
        s.wanted(now, i).sum() <= u64::MAX,
        s.config.release_rate_bytes_per_sec != 0,
    ensures
        s.plan(now, i).sum() <= s.wanted(now, i).sum(),
        s.plan(now, i).mode != PressureMode::Emergency ==> s.after(now, i).backlog_bytes + s.plan(
            now,
            i,
        ).sum() >= s.wanted(now, i).sum(),
        s.after(now, i).backlog_bytes <= s.wanted(now, i).sum(),
{
    reveal(release::ladder);
    reveal(release::funded);
}

/// Pressure goes by the share of the limit that is in use: from normal, or once an emergency is
/// over, without a failure, it is hard from the upper watermark on, soft from the lower one on,
/// and normal below; where it would be normal, a new notification makes it soft.
pub proof fn law_pressure_follows_the_watermarks(s: ControllerState, i: ReleaseInputs)
    requires
        s.mode == PressureMode::Normal || s.mode == PressureMode::Emergency,
        !i.alloc_failed,
        i.cgroup_current < i.cgroup_max,
        s.thresholds.soft_bp <= s.thresholds.hard_bp,
    ensures
        s.next_mode(i) == PressureMode::Hard <==> i.cgroup_current * 10_000 >= s.thresholds.hard_bp
            * i.cgroup_max,
        s.next_mode(i) == PressureMode::Soft <==> i.cgroup_current * 10_000 < s.thresholds.hard_bp
            * i.cgroup_max && (s.thresholds.soft_bp * i.cgroup_max <= i.cgroup_current * 10_000
            || i.pressure_notifications > s.last_pressure_notifications),
        s.next_mode(i) == PressureMode::Normal <==> i.cgroup_current * 10_000
            < s.thresholds.soft_bp * i.cgroup_max && i.pressure_notifications
            <= s.last_pressure_notifications,
{
    reveal(ControllerState::next_mode);
    lemma_share(i, s.thresholds.hard_bp as int);
    lemma_share(i, s.thresholds.soft_bp as int);
    let a = s.thresholds.soft_bp as int;
    let b = s.thresholds.hard_bp as int;
    let m = i.cgroup_max as int;
    assert(a * m <= b * m) by (nonlinear_arith)
        requires
            a <= b,
            0 <= m,
    ;
}

/// A share of the limit in basis points is reached when the product says so.
proof fn lemma_share(i: ReleaseInputs, bp: int)
    requires
        i.cgroup_current < i.cgroup_max,
    ensures
        i.utilization() >= bp <==> i.cgroup_current * 10_000 >= bp * i.cgroup_max,
{
    let x = i.cgroup_current * 10_000;
    let m = i.cgroup_max as int;
    assert(x / m < 10_000) by (nonlinear_arith)
        requires
            x < 10_000 * m,
            m > 0,
    ;
    assert(x / m >= bp <==> x >= bp * m) by (nonlinear_arith)
        requires
            m > 0,
    ;
}

/// Pressure lingers: hard pressure stays hard, and soft pressure does not turn normal, until the
/// share of the limit in use is more than the margin below the watermark.
pub proof fn law_pressure_lingers_within_the_margin(s: ControllerState, i: ReleaseInputs)
    requires
        s.mode == PressureMode::Hard || s.mode == PressureMode::Soft,
        i.pressure_notifications <= s.last_pressure_notifications,
        !i.alloc_failed,
        i.cgroup_current < i.cgroup_max,
        s.thresholds.hysteresis_bp <= s.thresholds.soft_bp <= s.thresholds.hard_bp,
    ensures
        ({
            let t = s.thresholds;
            let used = i.cgroup_current * 10_000;
            let all = i.cgroup_max as int;
            &&& s.mode == PressureMode::Hard ==> (s.next_mode(i) == PressureMode::Hard <==> used >= (
            t.hard_bp - t.hysteresis_bp) * all)
            &&& s.mode == PressureMode::Soft ==> (s.next_mode(i) == PressureMode::Normal <==> used < (
            t.soft_bp - t.hysteresis_bp) * all)
        }),
{
    reveal(ControllerState::next_mode);
    let t = s.thresholds;
    lemma_share(i, t.hard_bp as int);
    lemma_share(i, t.soft_bp as int);
    lemma_share(i, t.hard_bp - t.hysteresis_bp);
    lemma_share(i, t.soft_bp - t.hysteresis_bp);
}

/// The reserve is what the application would allocate within a second at its present rate, more
/// by the share of refills that missed, unless less than that was free lately; soft pressure
/// halves it and hard pressure quarters it.
pub proof fn law_reserve_is_the_coming_demand(
    rate: int,
    peak: int,
    miss_ppk: int,
)
    requires
        0 <= rate,
        0 <= peak,
        0 <= miss_ppk,
    ensures
        ({
            let r = release::reserve_for(rate, peak, miss_ppk, PressureMode::Normal);
            let soft = release::reserve_for(rate, peak, miss_ppk, PressureMode::Soft);
            let hard = release::reserve_for(rate, peak, miss_ppk, PressureMode::Hard);
            &&& r <= peak
            &&& r < peak ==> 1_000 * r <= rate * (1_000 + miss_ppk) < 1_000 * r + 1_000
            &&& r == peak ==> 1_000 * r <= rate * (1_000 + miss_ppk)
            &&& 2 * soft <= r < 2 * soft + 2
            &&& 4 * hard <= r < 4 * hard + 4
        }),
{
    reveal(release::reserve_for);
    assert((rate * 1_000) / 1_000 == rate);
    assert(rate * (1_000 + miss_ppk) == 1_000 * rate + rate * miss_ppk) by (nonlinear_arith);
    assert(0 <= rate * miss_ppk) by (nonlinear_arith)
        requires
            0 <= rate,
            0 <= miss_ppk,
    ;
}

/// The rate that the reserve goes by is that of the interval since the last tick: what was
/// allocated, per second, rounded down; none at a first tick or over no time.
pub proof fn law_rate_is_that_of_the_interval(
    s: ControllerState,
    before: u64,
    i: ReleaseInputs,
    now: u64,
    j: ReleaseInputs,
)
    requires
        before < now,
        i.allocated_bytes_total <= j.allocated_bytes_total,
        i.freed_bytes_total <= j.freed_bytes_total,
        (j.allocated_bytes_total - i.allocated_bytes_total) * 1_000 <= u64::MAX,
        (j.freed_bytes_total - i.freed_bytes_total) * 1_000 <= u64::MAX,
    ensures
        ({
            let after = s.after(before, i).after(now, j);
            let a = after.alloc_rate_bps as int;
            let f = after.free_rate_bps as int;
            &&& a * (now - before) <= (j.allocated_bytes_total - i.allocated_bytes_total) * 1_000 < (a
                + 1) * (now - before)
            &&& f * (now - before) <= (j.freed_bytes_total - i.freed_bytes_total) * 1_000 < (f + 1)
                * (now - before)
        }),
{
    let e = now - before;
    let x = (j.allocated_bytes_total - i.allocated_bytes_total) * 1_000;
    let y = (j.freed_bytes_total - i.freed_bytes_total) * 1_000;
    reveal(release::per_second);
    lemma_quotient(x, e);
    lemma_quotient(y, e);
}

proof fn lemma_quotient(x: int, e: int)
    requires
        0 <= x,
        0 < e,
    ensures
        0 <= x / e <= x,
        (x / e) * e <= x < (x / e + 1) * e,
{
    assert(0 <= x / e <= x && (x / e) * e <= x < (x / e + 1) * e) by (nonlinear_arith)
        requires
            0 <= x,
            0 < e,
    ;
}

/// What was free is remembered and forgotten evenly: right after a tick that saw a new high
/// the peak is at least that, and until the memory of it has faded it stands above what is free by the part
/// of the difference that the time left is of the whole; once faded it is what is free.
pub proof fn law_peak_fades_evenly(
    s: ControllerState,
    before: u64,
    i: ReleaseInputs,
    now: u64,
    free: int,
)
    requires
        0 <= free,
    ensures
        i.releasable() >= s.recent_peak_free ==> s.after(before, i).peak(before, free)
            >= i.releasable(),
        ({
            let over = s.peak(now, free) - free;
            let whole = s.recent_peak_free - free;
            let age = if now >= s.peak_anchor_ms {
                now - s.peak_anchor_ms
            } else {
                0
            };
            &&& whole >= 0 && age < PEAK_DECAY_MS ==> over * PEAK_DECAY_MS <= whole * (PEAK_DECAY_MS
                - age) < (over + 1) * PEAK_DECAY_MS
            &&& whole <= 0 || age >= PEAK_DECAY_MS ==> over == 0
        }),
{
    reveal(ControllerState::peak);
    let t = s.after(before, i);
    let n = s.recent_peak_free - free;
    assert(n * 0 == 0);
    if !t.reanchors(before, free) {
        let d = t.recent_peak_free - free;
        assert((d * 8_000) / 8_000 == d);
    }
    if n == 0 {
        let age = if now >= s.peak_anchor_ms {
            now - s.peak_anchor_ms
        } else {
            0
        };
        assert(n * (8_000 - age) == 0) by (nonlinear_arith)
            requires
                n == 0,
        ;
    }
}

/// The controller with no limit on its rate.
pub open spec fn unlimited(s: ControllerState) -> ControllerState {
    ControllerState { config: DecayConfig { release_rate_bytes_per_sec: 0, ..s.config }, ..s }
}

/// A rate limits a plan and does nothing else: the plan is no more in any kind of work than it
/// would be without, and is all that the rate allows over the interval, or all there is. A first
/// tick may plan what the rate allows in a second.
pub proof fn law_rate_is_used_in_full(s: ControllerState, now: u64, i: ReleaseInputs)
    requires
        s.config.release_rate_bytes_per_sec != 0,
        s.plan(now, i).mode != PressureMode::Emergency,
        unlimited(s).plan(now, i).sum() <= u64::MAX,
        s.started ==> s.last_tick_ms < now,
        s.config.release_rate_bytes_per_sec * (if s.started {
            now - s.last_tick_ms
        } else {
            1_000
        }) <= 1_000 * u64::MAX,
    ensures
        ({
            let p = s.plan(now, i);
            let q = unlimited(s).plan(now, i);
            let rate = s.config.release_rate_bytes_per_sec as int;
            let ms = if s.started {
                now - s.last_tick_ms
            } else {
                1_000
            };
            &&& p.mode == q.mode
            &&& p.demand_reserve_bytes == q.demand_reserve_bytes
            &&& p.sum() <= q.sum()
            &&& 1_000 * p.sum() <= rate * ms
            &&& p.sum() == q.sum() || 1_000 * (p.sum() + 1) > rate * ms
        }),
{
    let t = unlimited(s);
    reveal(ControllerState::next_mode);
    reveal(ControllerState::peak);
    reveal(release::ladder);
    reveal(release::funded);
    assert(t.wanted(now, i) == s.wanted(now, i));
    assert(t.plan(now, i) == s.wanted(now, i));
    reveal(release::allowance);
    let rate = s.config.release_rate_bytes_per_sec as int;
    let ms = if s.started {
        now - s.last_tick_ms
    } else {
        1_000
    };
    assert(0 <= rate * ms) by (nonlinear_arith)
        requires
            0 <= rate,
            0 <= ms,
    ;
    release::law_funded_plan_meets_the_budget(
        s.wanted(now, i),
        release::least(release::allowance(rate, s.elapsed(now), !s.started), s.owed(now, i)),
    );
}

/// The counters count: every tick, every tick that planned any work, and the bytes planned, as far
/// as they can be counted; and what the tick read is what the next one compares with.
pub proof fn law_ticks_are_counted(s: ControllerState, now: u64, i: ReleaseInputs)
    requires
        s.ticks < u64::MAX,
        s.active_ticks < u64::MAX,
        s.planned_bytes_total + s.plan(now, i).sum() <= u64::MAX,
    ensures
        ({
            let t = s.after(now, i);
            let p = s.plan(now, i);
            &&& t.ticks == s.ticks + 1
            &&& t.planned_bytes_total == s.planned_bytes_total + p.sum()
            &&& p.sum() > 0 ==> t.active_ticks == s.active_ticks + 1
            &&& p.sum() == 0 && p.mode != PressureMode::Emergency ==> t.active_ticks
                == s.active_ticks
            &&& t.mode == p.mode
            &&& t.demand_reserve_bytes == p.demand_reserve_bytes
            &&& t.last_tick_ms == now
            &&& t.started
            &&& t.last_pressure_notifications == i.pressure_notifications
            &&& t.last_allocated_total == i.allocated_bytes_total
            &&& t.last_freed_total == i.freed_bytes_total
            &&& t.next_arena == s.next_arena
        }),
{
    reveal(release::ladder);
    reveal(release::funded);
}

/// What could be released is the idle caches, the dirty and the muzzy memory and the empty
/// hugepages together.
pub proof fn law_releasable_is_all_there_is(i: ReleaseInputs)
    requires
        i.idle_cache_bytes + i.dirty_bytes + i.muzzy_bytes + i.empty_backed_hugepage_bytes
            <= u64::MAX,
    ensures
        i.releasable() == i.idle_cache_bytes + i.dirty_bytes + i.muzzy_bytes
            + i.empty_backed_hugepage_bytes,
{
}

/// The controller after `n` turns among `count` arenas.
pub open spec fn turned(s: ControllerState, count: int, n: int) -> ControllerState
    decreases n,
{
    if n <= 0 {
        s
    } else {
        turned(s, count, n - 1).after_turn(count)
    }
}

/// The arenas are served in turn: each turn goes to the arena after the last one served, and from
/// the last arena back to the first; so within as many turns as there are arenas no arena is
/// served twice. Nothing else changes.
pub proof fn law_arenas_take_turns(s: ControllerState, count: int, a: int, b: int)
    requires
        0 < count <= u32::MAX,
        0 <= a < b < a + count,
    ensures
        0 <= turned(s, count, a).turn(count) < count,
        turned(s, count, a + 1).turn(count) == (if turned(s, count, a).turn(count) + 1 == count {
            0
        } else {
            turned(s, count, a).turn(count) + 1
        }),
        turned(s, count, a).turn(count) != turned(s, count, b).turn(count),
        turned(s, count, a) == (ControllerState {
            next_arena: turned(s, count, a).next_arena,
            ..s
        }),
{
    lemma_turned(s, count, a);
    lemma_turned(s, count, a + 1);
    lemma_turned(s, count, b);
    let x = s.next_arena + a;
    let y = s.next_arena + b;
    vstd::arithmetic::div_mod::lemma_mod_bound(x, count);
    crate::overflow::lemma_next_turn(x, count);
    if x % count == y % count {
        vstd::arithmetic::div_mod::lemma_fundamental_div_mod(x, count);
        vstd::arithmetic::div_mod::lemma_fundamental_div_mod(y, count);
        let p = x / count;
        let q = y / count;
        assert(false) by (nonlinear_arith)
            requires
                x == count * p + x % count,
                y == count * q + y % count,
                x % count == y % count,
                x < y < x + count,
                0 < count,
        ;
    }
}

proof fn lemma_turned(s: ControllerState, count: int, n: int)
    requires
        0 < count <= u32::MAX,
        0 <= n,
    ensures
        turned(s, count, n).turn(count) == (s.next_arena + n) % count,
        turned(s, count, n) == (ControllerState {
            next_arena: turned(s, count, n).next_arena,
            ..s
        }),
    decreases n,
{
    if n > 0 {
        lemma_turned(s, count, n - 1);
        let t = turned(s, count, n - 1);
        let k = t.next_arena as int;
        vstd::arithmetic::div_mod::lemma_mod_bound(k + 1, count);
        vstd::arithmetic::div_mod::lemma_small_mod(((k + 1) % count) as nat, count as nat);
        vstd::arithmetic::div_mod::lemma_add_mod_noop(k, 1, count);
        vstd::arithmetic::div_mod::lemma_add_mod_noop(s.next_arena + n - 1, 1, count);
    }
}

} // verus!
