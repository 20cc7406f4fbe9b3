//! Properties of the release controller, the lock order, start-up and the identities on concrete
//! values.
use topo_core::arena::{ArenaPolicy, DecayConfig};
use topo_core::ids::{ArenaId, Generation, Label, SizeClassId};
use topo_core::init::{advanced, CrashSummary, InitPhase, PhaseTracker, ReentryDomain};
use topo_core::lock::{
    held_lock_count, reset_lock_checker, HeldRanks, LockOrder, LockRank, RankedLock, MAX_HELD,
};
use topo_core::overflow::{align_up, is_power_of_two, pages_for};
use topo_core::release::{
    demand_reserve, LatencyClass, PressureMode, PressureThresholds, ReleaseController,
    ReleaseInputs, ReleasePlan,
};

fn supply() -> ReleaseInputs {
    ReleaseInputs {
        idle_cache_bytes: 1_000,
        dirty_bytes: 2_000,
        hot_dirty_bytes: 500,
        muzzy_bytes: 300,
        empty_backed_hugepage_bytes: 8_000,
        cold_sparse_bytes: 4_000,
        ..ReleaseInputs::default()
    }
}

fn loaded(percent: u64) -> ReleaseInputs {
    ReleaseInputs {
        cgroup_current: percent,
        cgroup_max: 100,
        ..supply()
    }
}

#[test]
fn the_demand_reserve_is_exact() {
    assert_eq!(demand_reserve(1_000_000, 10_000_000, 500, PressureMode::Normal), 1_500_000);
    assert_eq!(demand_reserve(1_000_000, 10_000_000, 500, PressureMode::Soft), 750_000);
    assert_eq!(demand_reserve(1_000_000, 10_000_000, 500, PressureMode::Hard), 375_000);
    assert_eq!(demand_reserve(1_000_000, 10_000_000, 500, PressureMode::Emergency), 0);
    assert_eq!(demand_reserve(1_000_000, 400_000, 500, PressureMode::Normal), 400_000);
    assert_eq!(demand_reserve(u64::MAX, u64::MAX, u32::MAX, PressureMode::Normal), u64::MAX);
}

#[test]
fn the_plan_of_each_pressure_is_exact() {
    let plan = |percent: u64, ceiling: LatencyClass| {
        let mut c = ReleaseController::with(
            DecayConfig::low_rss(),
            PressureThresholds::default(),
            ceiling,
            0,
        );
        c.tick(0, loaded(percent))
    };
    let normal = ReleasePlan {
        mode: PressureMode::Normal,
        drain_caches_bytes: 250,
        purge_dirty_bytes: 1_500,
        release_muzzy_bytes: 300,
        ..ReleasePlan::default()
    };
    assert_eq!(plan(10, LatencyClass::MayBlock), normal);
    assert_eq!(normal.total_bytes(), 2_050);
    assert_eq!(
        plan(80, LatencyClass::MayBlock),
        ReleasePlan {
            mode: PressureMode::Soft,
            drain_caches_bytes: 500,
            release_empty_hugepages_bytes: 8_000,
            ..normal
        }
    );
    assert_eq!(
        plan(95, LatencyClass::BoundedSlow),
        ReleasePlan {
            mode: PressureMode::Hard,
            drain_caches_bytes: 1_000,
            dirty_to_muzzy_bytes: 1_500,
            subrelease_cold_sparse_bytes: 4_000,
            ..ReleasePlan::default()
        }
    );
    assert_eq!(
        plan(100, LatencyClass::MayBlock),
        ReleasePlan {
            mode: PressureMode::Emergency,
            drain_caches_bytes: 1_000,
            release_empty_hugepages_bytes: 8_000,
            purge_dirty_bytes: 1_500,
            subrelease_cold_sparse_bytes: 4_000,
            emergency_shrink_bytes: 300,
            disable_hugecache_reserve: true,
            ..ReleasePlan::default()
        }
    );
    assert!(plan(10, LatencyClass::FastOnly).drain_caches_bytes == 250);
}

#[test]
fn the_rate_cap_funds_the_first_steps_first() {
    let mut c = ReleaseController::new(DecayConfig {
        release_rate_bytes_per_sec: 1_000,
        ..DecayConfig::low_rss()
    });
    let first = c.tick(0, loaded(80));
    assert_eq!(first.drain_caches_bytes, 500);
    assert_eq!(first.release_empty_hugepages_bytes, 500);
    assert_eq!(first.total_bytes(), 1_000);
    assert_eq!(c.backlog_bytes(), 10_300 - 1_000);
    assert!(c.tick(0, loaded(80)).is_empty(), "no time, no budget");
    assert_eq!(c.tick(2_000, loaded(80)).total_bytes(), 2_000);
}

#[test]
fn pressure_rises_at_once_and_falls_past_the_margin() {
    let mut c = ReleaseController::new(DecayConfig::server());
    for (percent, mode) in [
        (74, PressureMode::Normal),
        (75, PressureMode::Soft),
        (71, PressureMode::Soft),
        (69, PressureMode::Normal),
        (90, PressureMode::Hard),
        (85, PressureMode::Hard),
        (84, PressureMode::Soft),
        (100, PressureMode::Emergency),
        (10, PressureMode::Normal),
    ] {
        c.tick(0, loaded(percent));
        assert_eq!(c.mode(), mode, "at {percent}");
    }
    assert_eq!(PressureMode::Hard.severity(), 2);
    assert_eq!(PressureMode::Emergency.as_str(), "emergency");
}

#[test]
fn the_remembered_peak_relaxes_evenly() {
    let mut c = ReleaseController::new(DecayConfig::server());
    let at = |free: u64, allocated: u64| ReleaseInputs {
        empty_backed_hugepage_bytes: free,
        allocated_bytes_total: allocated,
        ..ReleaseInputs::default()
    };
    c.tick(0, at(8_000, 0));
    let half = c.tick(4_000, at(0, 1_000_000));
    assert_eq!(half.demand_reserve_bytes, 4_000, "half of the peak is left");
    let last = c.tick(8_000, at(0, 2_000_000));
    assert_eq!(last.demand_reserve_bytes, 0, "nothing is left of it");
}

#[test]
fn a_controller_keeps_what_it_was_made_with() {
    let policy = ArenaPolicy::explicit()
        .with_latency(LatencyClass::BoundedSlow)
        .with_decay(DecayConfig::low_rss());
    let mut c = ReleaseController::for_arena(&policy);
    c.tick(5, loaded(100));
    assert_eq!(c.config(), DecayConfig::low_rss());
    assert_eq!(c.max_latency(), LatencyClass::BoundedSlow);
    assert!(LatencyClass::FastOnly.permitted_under(LatencyClass::BoundedSlow));
    assert!(!LatencyClass::MayBlock.permitted_under(LatencyClass::BoundedSlow));
    assert_eq!(c.stats().ticks, 1);
    assert_eq!(c.next_fair_arena(2), ArenaId(0));
    assert_eq!(c.next_fair_arena(2), ArenaId(1));
    assert_eq!(c.next_fair_arena(2), ArenaId(0));
    let inputs = loaded(50);
    assert_eq!(inputs.utilization_bp(), 5_000);
    assert_eq!(inputs.purgeable_dirty(), 1_500);
    assert!(!inputs.cgroup_critical() && loaded(100).cgroup_critical());
}

#[test]
fn more_allocation_withholds_more_and_releases_less() {
    let plan = |allocated: u64| {
        let mut c = ReleaseController::with(
            DecayConfig::low_rss(),
            PressureThresholds::default(),
            LatencyClass::MayBlock,
            0,
        );
        c.tick(0, loaded(80));
        let p = c.tick(
            1_000,
            ReleaseInputs {
                allocated_bytes_total: allocated,
                ..loaded(80)
            },
        );
        (p.demand_reserve_bytes, p.release_empty_hugepages_bytes)
    };
    assert_eq!(plan(0), (0, 8_000));
    assert_eq!(plan(2_000), (1_000, 7_000));
    assert_eq!(plan(6_000), (3_000, 5_000));
}

#[test]
fn ranks_are_tracked_as_far_as_there_is_room() {
    let mut held = HeldRanks::default();
    for r in 0..MAX_HELD as u8 {
        assert_eq!(held.enter(r), Ok(()));
    }
    assert_eq!(held.enter(200), Err(LockOrder::TooDeep));
    assert_eq!(held_lock_count(&held), MAX_HELD);
    assert!(held.leave(3));
    assert!(!held.leave(3), "not held any more");
    assert_eq!(held.enter(3), Err(LockOrder::Holding(15)));
    assert_eq!(held.enter(200), Ok(()));
    reset_lock_checker(&mut held);
    assert_eq!(held_lock_count(&held), 0);
}

#[test]
fn releasing_undoes_acquiring() {
    let mut held = HeldRanks::new();
    let mut outer: RankedLock<{ LockRank::ARENA }> = RankedLock::default();
    let mut inner: RankedLock<{ LockRank::SPAN }> = RankedLock::new();
    outer.acquire(&mut held);
    inner.acquire(&mut held);
    assert!(inner.is_locked());
    inner.release(&mut held);
    assert!(!inner.is_locked() && outer.is_locked());
    assert_eq!(held_lock_count(&held), 1);
    inner.acquire(&mut held);
    assert_eq!(held_lock_count(&held), 2, "the same ranks are held as before");
}

#[test]
fn phases_only_go_forward() {
    assert_eq!(advanced(2, 5), Some(5));
    assert_eq!(advanced(5, 5), None);
    assert_eq!(advanced(5, 2), None);
    for v in 0..7u8 {
        assert_eq!(InitPhase::from_u8(v).to_u8(), v);
    }
    let mut t = PhaseTracker::default();
    assert!(!t.is_operational());
    assert!(t.advance_to(InitPhase::PerCpuSetup));
    assert!(!t.advance_to(InitPhase::OsDiscovery));
    assert_eq!(t.current(), InitPhase::PerCpuSetup);
}

#[test]
fn leaving_undoes_entering() {
    let mut d = ReentryDomain::default();
    d.enter();
    d.enter();
    d.leave();
    assert!(d.active());
    d.leave();
    assert!(!d.active());
}

#[test]
fn the_crash_summary_is_exact_and_a_short_one_is_its_start() {
    let s = CrashSummary {
        init_phase: 6,
        allocated_bytes: u64::MAX,
        freed_bytes: 10,
        live_bytes: 0,
        in_flight_ops: 9,
        background_enabled: true,
    };
    let text = "topomalloc crash summary\ninit_phase=6\nlive_bytes=0\n\
                allocated_bytes=18446744073709551615\nfreed_bytes=10\nin_flight_ops=9\n\
                background_enabled=1\n";
    let mut buf = [b'#'; 200];
    assert_eq!(s.write(&mut buf), text.len());
    assert_eq!(&buf[..text.len()], text.as_bytes());
    assert!(buf[text.len()..].iter().all(|&b| b == b'#'));
    for len in 0..text.len() {
        let mut short = vec![b'#'; len];
        assert_eq!(s.write(&mut short), len);
        assert_eq!(&short[..], &text.as_bytes()[..len]);
    }
}

#[test]
fn identities_and_sizes() {
    assert_eq!(Generation::first().next().0, Generation::first().0 + 1);
    assert_ne!(Generation(u32::MAX).next(), Generation(u32::MAX));
    assert_eq!(ArenaId::default_arena(), ArenaId(0));
    assert_eq!(Label::public(), Label(0));
    assert_eq!(SizeClassId::new(17).index(), 17);
    assert!(is_power_of_two(1) && is_power_of_two(1 << 40));
    assert!(!is_power_of_two(0) && !is_power_of_two(12));
    assert_eq!(align_up(17, 16), Some(32));
    assert_eq!(pages_for(0, 4096), Some(0));
}
