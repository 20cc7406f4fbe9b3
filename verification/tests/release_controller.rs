//! The release controller: pressure modes, the ladder, the rate cap and the reserve.
use topo_core::arena::{ArenaPolicy, DecayConfig};
use topo_core::ids::ArenaId;
use topo_core::release::{
    demand_reserve, LatencyClass, PressureMode, PressureThresholds, ReleaseController,
    ReleaseInputs, ReleasePlan, PEAK_DECAY_MS,
};

fn base_inputs() -> ReleaseInputs {
    ReleaseInputs {
        idle_cache_bytes: 1_000_000,
        dirty_bytes: 2_000_000,
        muzzy_bytes: 500_000,
        empty_backed_hugepage_bytes: 8 * 1024 * 1024,
        cold_sparse_bytes: 4 * 1024 * 1024,
        ..ReleaseInputs::default()
    }
}

fn release_under_churn(alloc_at_1s: u64) -> ReleasePlan {
    let mut c = ReleaseController::new(DecayConfig::default());
    c.tick(
        0,
        ReleaseInputs {
            cgroup_current: 80,
            cgroup_max: 100,
            allocated_bytes_total: 0,
            ..base_inputs()
        },
    );
    c.tick(
        1_000,
        ReleaseInputs {
            cgroup_current: 80,
            cgroup_max: 100,
            allocated_bytes_total: alloc_at_1s,
            ..base_inputs()
        },
    )
}

#[test]
fn a_repeated_tick_at_the_same_time_grants_no_new_rate_budget() {
    let cfg = DecayConfig {
        release_rate_bytes_per_sec: 1024 * 1024,
        ..DecayConfig::low_rss()
    };
    let mut c = ReleaseController::new(cfg);
    let inputs = ReleaseInputs {
        cgroup_current: 95,
        cgroup_max: 100,
        ..base_inputs()
    };

    let first = c.tick(1_000, inputs);
    assert!(
        first.total_bytes() > 0,
        "the first tick must be able to act"
    );

    let same = c.tick(1_000, inputs);
    assert_eq!(
        same.total_bytes(),
        0,
        "a same-millisecond re-tick granted {} bytes of fresh budget",
        same.total_bytes()
    );

    let back = c.tick(900, inputs);
    assert_eq!(back.total_bytes(), 0, "a backwards clock granted budget");

    let later = c.tick(1_400, inputs);
    assert!(
        later.total_bytes() > 0 && later.total_bytes() <= 512 * 1024,
        "500 ms at 1 MiB/s granted {} bytes",
        later.total_bytes()
    );
}

#[test]
fn default_config_is_the_server_preset() {
    let c = DecayConfig::default();
    assert_eq!(c.dirty_decay_ms, 10_000);
    assert_eq!(c.muzzy_decay_ms, 10_000);
    assert!(c.background_purge_enabled);
    assert_eq!(DecayConfig::server(), c);
    assert_eq!(DecayConfig::low_rss().dirty_decay_ms, 0);
}

#[test]
fn pressure_mode_escalates_with_cgroup_utilization() {
    let mut c = ReleaseController::new(DecayConfig::default());

    let i = ReleaseInputs {
        cgroup_current: 50,
        cgroup_max: 100,
        ..base_inputs()
    };
    c.tick(1_000, i);
    assert_eq!(c.mode(), PressureMode::Normal);

    let i = ReleaseInputs {
        cgroup_current: 80,
        cgroup_max: 100,
        ..base_inputs()
    };
    c.tick(2_000, i);
    assert_eq!(c.mode(), PressureMode::Soft);

    let i = ReleaseInputs {
        cgroup_current: 95,
        cgroup_max: 100,
        ..base_inputs()
    };
    c.tick(3_000, i);
    assert_eq!(c.mode(), PressureMode::Hard);
}

#[test]
fn alloc_failure_forces_emergency_and_disables_hugecache_reserve() {
    let mut c = ReleaseController::new(DecayConfig::default());
    let i = ReleaseInputs {
        alloc_failed: true,
        ..base_inputs()
    };
    let plan = c.tick(1_000, i);
    assert_eq!(c.mode(), PressureMode::Emergency);
    assert!(
        plan.disable_hugecache_reserve,
        "Emergency disables the HugeCache reserve"
    );
    assert_eq!(plan.demand_reserve_bytes, 0, "Emergency reserves nothing");

    assert_eq!(plan.release_empty_hugepages_bytes, 8 * 1024 * 1024);
}

#[test]
fn pressure_mode_has_hysteresis_on_the_way_down() {
    let mut c = ReleaseController::new(DecayConfig::default());

    c.tick(
        1_000,
        ReleaseInputs {
            cgroup_current: 92,
            cgroup_max: 100,
            ..base_inputs()
        },
    );
    assert_eq!(c.mode(), PressureMode::Hard);

    c.tick(
        2_000,
        ReleaseInputs {
            cgroup_current: 88,
            cgroup_max: 100,
            ..base_inputs()
        },
    );
    assert_eq!(c.mode(), PressureMode::Hard);

    c.tick(
        3_000,
        ReleaseInputs {
            cgroup_current: 80,
            cgroup_max: 100,
            ..base_inputs()
        },
    );
    assert_eq!(c.mode(), PressureMode::Soft);
}

#[test]
fn a_fresh_pressure_notification_forces_at_least_soft() {
    let mut c = ReleaseController::new(DecayConfig::default());

    c.tick(0, base_inputs());
    assert_eq!(
        c.mode(),
        PressureMode::Normal,
        "no notification yet => Normal"
    );

    let plan = c.tick(
        1_000,
        ReleaseInputs {
            pressure_notifications: 1,
            ..base_inputs()
        },
    );
    assert_eq!(
        plan.mode,
        PressureMode::Soft,
        "a fresh pressure notification forces Soft"
    );

    assert_eq!(plan.release_empty_hugepages_bytes, 8 * 1024 * 1024);

    let plan = c.tick(
        2_000,
        ReleaseInputs {
            pressure_notifications: 1,
            ..base_inputs()
        },
    );
    assert_eq!(
        plan.mode,
        PressureMode::Normal,
        "no fresh notification (count unchanged) => back to Normal"
    );
}

#[test]
fn emergency_de_escalates_to_the_live_watermark_once_the_trigger_clears() {
    let mut c = ReleaseController::new(DecayConfig::default());

    c.tick(
        0,
        ReleaseInputs {
            alloc_failed: true,
            cgroup_current: 80,
            cgroup_max: 100,
            ..base_inputs()
        },
    );
    assert_eq!(c.mode(), PressureMode::Emergency);

    let plan = c.tick(
        1_000,
        ReleaseInputs {
            cgroup_current: 80,
            cgroup_max: 100,
            ..base_inputs()
        },
    );
    assert_eq!(
        plan.mode,
        PressureMode::Soft,
        "Emergency falls back to the live watermark mode, not all the way to Normal"
    );

    let plan = c.tick(
        2_000,
        ReleaseInputs {
            cgroup_current: 50,
            cgroup_max: 100,
            ..base_inputs()
        },
    );
    assert_eq!(plan.mode, PressureMode::Normal);
}

#[test]
fn normal_mode_preserves_hugepages_and_respects_the_decay_timer() {
    let mut c = ReleaseController::new(DecayConfig::default());

    let plan = c.tick(0, base_inputs());
    assert_eq!(plan.mode, PressureMode::Normal);

    assert_eq!(plan.release_empty_hugepages_bytes, 0);

    let plan = c.tick(5_000, base_inputs());
    assert_eq!(
        plan.purge_dirty_bytes, 0,
        "dirty not yet aged past dirty_decay_ms"
    );

    let plan = c.tick(11_000, base_inputs());
    assert_eq!(plan.purge_dirty_bytes, 2_000_000, "aged dirty is purged");
}

#[test]
fn purge_skips_dirty_on_hot_hugepages() {
    let mut c = ReleaseController::new(DecayConfig::low_rss());
    let i = ReleaseInputs {
        dirty_bytes: 3_000_000,
        hot_dirty_bytes: 1_000_000,
        ..base_inputs()
    };
    let plan = c.tick(0, i);

    assert_eq!(plan.purge_dirty_bytes, 2_000_000);
}

#[test]
fn cold_sparse_subrelease_only_under_hard_or_worse() {
    let mut c = ReleaseController::new(DecayConfig::default());

    let plan = c.tick(
        1_000,
        ReleaseInputs {
            cgroup_current: 80,
            cgroup_max: 100,
            ..base_inputs()
        },
    );
    assert_eq!(plan.subrelease_cold_sparse_bytes, 0);

    let plan = c.tick(
        2_000,
        ReleaseInputs {
            cgroup_current: 95,
            cgroup_max: 100,
            ..base_inputs()
        },
    );
    assert_eq!(plan.subrelease_cold_sparse_bytes, 4 * 1024 * 1024);
}

#[test]
fn demand_reserve_grows_with_rate_shrinks_with_pressure_and_caps_at_peak() {
    let peak = 100 * 1024 * 1024;

    assert_eq!(demand_reserve(0, peak, 0, PressureMode::Normal), 0);

    let busy = demand_reserve(16 * 1024 * 1024, peak, 0, PressureMode::Normal);
    assert_eq!(busy, 16 * 1024 * 1024);

    assert!(demand_reserve(32 * 1024 * 1024, peak, 0, PressureMode::Normal) > busy);

    assert!(demand_reserve(16 * 1024 * 1024, peak, 500, PressureMode::Normal) > busy);

    assert!(demand_reserve(16 * 1024 * 1024, peak, 0, PressureMode::Hard) < busy);
    assert_eq!(
        demand_reserve(16 * 1024 * 1024, peak, 0, PressureMode::Emergency),
        0
    );

    assert_eq!(
        demand_reserve(1024 * 1024 * 1024, 8 * 1024 * 1024, 0, PressureMode::Normal),
        8 * 1024 * 1024
    );
}

#[test]
fn oscillation_churn_releases_strictly_less_than_idle() {
    let idle = release_under_churn(0);
    let churn = release_under_churn(64 * 1024 * 1024);
    assert_eq!(idle.demand_reserve_bytes, 0, "idle => no reserve");
    assert_eq!(
        idle.release_empty_hugepages_bytes,
        8 * 1024 * 1024,
        "idle releases the whole empty-hugepage supply"
    );
    assert!(churn.demand_reserve_bytes > 0, "churn => a reserve is held");
    assert!(
        churn.release_empty_hugepages_bytes < idle.release_empty_hugepages_bytes,
        "churn releases strictly less (held back against refault, R2)"
    );
}

#[test]
fn recent_peak_free_decays_so_a_stale_spike_does_not_pin_the_reserve() {
    let mut c = ReleaseController::new(DecayConfig::default());

    c.tick(
        0,
        ReleaseInputs {
            idle_cache_bytes: 100 * 1024 * 1024,
            ..ReleaseInputs::default()
        },
    );

    let plan = c.tick(
        PEAK_DECAY_MS,
        ReleaseInputs {
            idle_cache_bytes: 1024 * 1024,
            empty_backed_hugepage_bytes: 1024 * 1024,
            allocated_bytes_total: 80 * 1024 * 1024,
            ..ReleaseInputs::default()
        },
    );
    assert_eq!(
        plan.demand_reserve_bytes,
        2 * 1024 * 1024,
        "reserve capped by the decayed recent peak (~2 MiB), not the stale 100 MiB \
         spike (which would have allowed the full 10 MiB alloc-rate reserve)"
    );

    let regrown = c.tick(
        PEAK_DECAY_MS + 1_000,
        ReleaseInputs {
            idle_cache_bytes: 50 * 1024 * 1024,

            allocated_bytes_total: (80 + 40) * 1024 * 1024,
            ..ReleaseInputs::default()
        },
    );
    assert!(
        regrown.demand_reserve_bytes > 2 * 1024 * 1024,
        "a regrown free pool lifts the recent peak again (new high adopted at once)"
    );
}

#[test]
fn recent_peak_decay_is_independent_of_tick_frequency() {
    fn reserve_after(step_ms: u64) -> u64 {
        const SPIKE: u64 = 100 * 1024 * 1024;
        const LOW: u64 = 1024 * 1024;
        const RATE: u64 = 128 * 1024 * 1024;
        let mut c = ReleaseController::new(DecayConfig::default());
        c.tick(
            0,
            ReleaseInputs {
                idle_cache_bytes: SPIKE,
                ..ReleaseInputs::default()
            },
        );
        let span = PEAK_DECAY_MS / 2;
        let mut now = 0u64;
        let mut allocated = 0u64;
        while now < span {
            now += step_ms;
            allocated += RATE * step_ms / 1_000;
            c.tick(
                now,
                ReleaseInputs {
                    idle_cache_bytes: LOW,
                    allocated_bytes_total: allocated,
                    ..ReleaseInputs::default()
                },
            );
        }
        c.stats().demand_reserve_bytes
    }

    let fine = reserve_after(1);
    let coarse = reserve_after(PEAK_DECAY_MS / 2);
    assert_eq!(
        fine, coarse,
        "recent-peak decay must not depend on tick cadence (frequency independence)"
    );

    assert!(
        fine > 40 * 1024 * 1024 && fine < 60 * 1024 * 1024,
        "half-decayed cap ~50 MiB (linear age-based decay), got {fine}"
    );
}

#[test]
fn rate_cap_limits_release_and_accrues_backlog() {
    let cfg = DecayConfig {
        release_rate_bytes_per_sec: 1024 * 1024,
        ..DecayConfig::low_rss()
    };
    let mut c = ReleaseController::new(cfg);
    c.tick(
        0,
        ReleaseInputs {
            cgroup_current: 95,
            cgroup_max: 100,
            ..base_inputs()
        },
    );

    let plan = c.tick(
        1_000,
        ReleaseInputs {
            cgroup_current: 95,
            cgroup_max: 100,
            ..base_inputs()
        },
    );
    assert!(
        plan.total_bytes() <= 1024 * 1024,
        "granted within the rate cap"
    );
    assert!(
        c.backlog_bytes() > 0,
        "unmet desire accrues as backlog"
    );
}

#[test]
fn emergency_bypasses_the_rate_cap() {
    let cfg = DecayConfig {
        release_rate_bytes_per_sec: 1,
        ..DecayConfig::default()
    };
    let mut c = ReleaseController::new(cfg);
    c.tick(0, base_inputs());
    let plan = c.tick(
        1_000,
        ReleaseInputs {
            alloc_failed: true,
            ..base_inputs()
        },
    );
    assert_eq!(plan.mode, PressureMode::Emergency);

    assert_eq!(plan.release_empty_hugepages_bytes, 8 * 1024 * 1024);
    assert_eq!(c.backlog_bytes(), 0, "Emergency clears the backlog");
}

#[test]
fn background_purge_disabled_suppresses_routine_work_but_not_emergency() {
    let cfg = DecayConfig {
        background_purge_enabled: false,
        ..DecayConfig::low_rss()
    };
    let mut c = ReleaseController::new(cfg);

    let plan = c.tick(
        1_000,
        ReleaseInputs {
            cgroup_current: 95,
            cgroup_max: 100,
            ..base_inputs()
        },
    );
    assert!(
        plan.is_empty(),
        "routine background purge suppressed by the knob"
    );

    let plan = c.tick(
        2_000,
        ReleaseInputs {
            alloc_failed: true,
            ..base_inputs()
        },
    );
    assert!(!plan.is_empty(), "emergency release is never suppressed");
}

#[test]
fn cpu_pressure_yields_routine_work() {
    let mut c = ReleaseController::new(DecayConfig::low_rss());
    let plan = c.tick(
        1_000,
        ReleaseInputs {
            cgroup_current: 80,
            cgroup_max: 100,
            cpu_pressure: true,
            ..base_inputs()
        },
    );
    assert!(
        plan.is_empty(),
        "yield routine work under CPU pressure"
    );
}

#[test]
fn fast_only_arena_skips_blocking_rungs() {
    let mut c = ReleaseController::with(
        DecayConfig::low_rss(),
        PressureThresholds::default(),
        LatencyClass::FastOnly,
        0,
    );
    let plan = c.tick(
        1_000,
        ReleaseInputs {
            cgroup_current: 95,
            cgroup_max: 100,
            ..base_inputs()
        },
    );
    assert!(
        plan.drain_caches_bytes > 0,
        "FastOnly cache drain is permitted"
    );
    assert_eq!(
        plan.release_empty_hugepages_bytes, 0,
        "no MayBlock release on a fast-only arena"
    );
    assert_eq!(plan.purge_dirty_bytes, 0, "no MayBlock purge");
    assert_eq!(
        plan.subrelease_cold_sparse_bytes, 0,
        "no BoundedSlow subrelease"
    );
}

#[test]
fn bounded_slow_arena_converts_dirty_to_muzzy_instead_of_blocking_purge() {
    let mut c = ReleaseController::with(
        DecayConfig::low_rss(),
        PressureThresholds::default(),
        LatencyClass::BoundedSlow,
        0,
    );
    let plan = c.tick(
        0,
        ReleaseInputs {
            cgroup_current: 80,
            cgroup_max: 100,
            dirty_bytes: 3_000_000,
            hot_dirty_bytes: 1_000_000,
            ..base_inputs()
        },
    );
    assert_eq!(plan.mode, PressureMode::Soft);

    assert!(plan.drain_caches_bytes > 0, "FastOnly drain permitted");

    assert_eq!(plan.purge_dirty_bytes, 0, "no MayBlock direct purge");
    assert_eq!(
        plan.release_empty_hugepages_bytes, 0,
        "no MayBlock hugepage release on a bounded-slow arena"
    );

    assert_eq!(
        plan.dirty_to_muzzy_bytes, 2_000_000,
        "aged non-hot dirty is converted to muzzy (the BoundedSlow lazy purge)"
    );
}

#[test]
fn for_arena_inherits_decay_and_latency_from_the_policy() {

    let policy = ArenaPolicy::explicit()
        .with_latency(LatencyClass::FastOnly)
        .with_decay(DecayConfig::low_rss());
    let mut c = ReleaseController::for_arena(&policy);
    assert_eq!(c.max_latency(), LatencyClass::FastOnly);
    assert_eq!(c.config(), DecayConfig::low_rss());
    let plan = c.tick(
        1_000,
        ReleaseInputs {
            cgroup_current: 95,
            cgroup_max: 100,
            ..base_inputs()
        },
    );

    assert!(plan.drain_caches_bytes > 0);
    assert_eq!(plan.release_empty_hugepages_bytes, 0);
    assert_eq!(plan.purge_dirty_bytes, 0);
    assert_eq!(plan.subrelease_cold_sparse_bytes, 0);
}

#[test]
fn emergency_reserve_is_constant_and_heap_independent() {
    let c = ReleaseController::with(
        DecayConfig::default(),
        PressureThresholds::default(),
        LatencyClass::MayBlock,
        64 * 1024,
    );

    assert_eq!(c.emergency_reserve_bytes(), 64 * 1024);
}

#[test]
fn next_fair_arena_round_robins() {
    let mut c = ReleaseController::new(DecayConfig::default());
    let mut seq = [0u32; 7];
    for s in &mut seq {
        *s = c.next_fair_arena(3).0;
    }
    assert_eq!(
        seq,
        [0, 1, 2, 0, 1, 2, 0],
        "fair round-robin across 3 arenas"
    );

    assert_eq!(c.next_fair_arena(0), ArenaId::default_arena());
}

#[test]
fn stats_surface_observed_alloc_and_free_rates() {
    let mut c = ReleaseController::new(DecayConfig::default());
    c.tick(
        0,
        ReleaseInputs {
            allocated_bytes_total: 0,
            freed_bytes_total: 0,
            ..base_inputs()
        },
    );

    c.tick(
        1_000,
        ReleaseInputs {
            allocated_bytes_total: 16 * 1024 * 1024,
            freed_bytes_total: 4 * 1024 * 1024,
            ..base_inputs()
        },
    );
    let s = c.stats();
    assert_eq!(s.alloc_rate_bps, 16 * 1024 * 1024);
    assert_eq!(s.free_rate_bps, 4 * 1024 * 1024);
}

#[test]
fn stats_track_ticks_and_planned_bytes() {
    let mut c = ReleaseController::new(DecayConfig::low_rss());
    c.tick(0, base_inputs());
    c.tick(
        1_000,
        ReleaseInputs {
            cgroup_current: 95,
            cgroup_max: 100,
            ..base_inputs()
        },
    );
    let s = c.stats();
    assert_eq!(s.ticks, 2);
    assert!(s.active_ticks >= 1);
    assert!(s.planned_bytes_total > 0);
    assert_eq!(s.mode, c.mode());
}

#[test]
fn dirty_is_retained_not_lazily_purged_before_decay() {
    let mut c = ReleaseController::new(DecayConfig::default());
    let plan = c.tick(0, base_inputs());
    assert_eq!(plan.mode, PressureMode::Normal);
    assert_eq!(plan.purge_dirty_bytes, 0, "no forced purge before decay");
    assert_eq!(
        plan.dirty_to_muzzy_bytes, 0,
        "dirty retained, not lazily converted before dirty_decay_ms"
    );
    let plan = c.tick(5_000, base_inputs());
    assert_eq!(plan.dirty_to_muzzy_bytes, 0, "still retained at 5s");
}

#[test]
fn muzzy_is_released_after_its_decay_interval() {
    let mut c = ReleaseController::new(DecayConfig::default());
    let plan = c.tick(0, base_inputs());
    assert_eq!(plan.mode, PressureMode::Normal);
    assert_eq!(plan.release_muzzy_bytes, 0, "muzzy retained before decay");
    let plan = c.tick(5_000, base_inputs());
    assert_eq!(plan.release_muzzy_bytes, 0, "still retained at 5s");
    let plan = c.tick(11_000, base_inputs());
    assert_eq!(
        plan.release_muzzy_bytes, 500_000,
        "aged muzzy is released to the OS, with no pressure at all"
    );
    assert_eq!(plan.mode, PressureMode::Normal);
}

#[test]
fn backlog_survives_a_tick_that_plans_less_than_the_budget() {
    let cfg = DecayConfig {
        release_rate_bytes_per_sec: 1024 * 1024,
        ..DecayConfig::low_rss()
    };
    let mut c = ReleaseController::new(cfg);

    c.tick(
        0,
        ReleaseInputs {
            cgroup_current: 95,
            cgroup_max: 100,
            ..base_inputs()
        },
    );
    c.tick(
        1_000,
        ReleaseInputs {
            cgroup_current: 95,
            cgroup_max: 100,
            ..base_inputs()
        },
    );
    let backlog = c.backlog_bytes();
    assert!(backlog > 0, "backlog accrued under the rate cap");

    let small = ReleaseInputs {
        dirty_bytes: 4096,
        cgroup_current: 95,
        cgroup_max: 100,
        ..ReleaseInputs::default()
    };
    let plan = c.tick(100_000, small);
    assert!(
        plan.total_bytes() > 0 && plan.total_bytes() < backlog,
        "this tick plans some, but far less than the carried backlog"
    );
    assert!(
        c.backlog_bytes() > 0,
        "a well-budgeted tick with real remaining work must not forgive the backlog"
    );

    let plan = c.tick(200_000, ReleaseInputs::default());
    assert_eq!(plan.total_bytes(), 0, "no work exists any more");
    assert_eq!(
        c.backlog_bytes(),
        0,
        "the backlog must drain with the supply, not latch at its high-water mark"
    );
}

#[test]
fn backlog_stays_bounded_by_supply_under_a_persistent_rate_capped_drop() {
    let cfg = DecayConfig {
        release_rate_bytes_per_sec: 1024 * 1024,
        ..DecayConfig::low_rss()
    };

    let supply = ReleaseInputs {
        cgroup_current: 95,
        cgroup_max: 100,
        ..base_inputs()
    };
    let total_supply = ReleaseController::new(DecayConfig::low_rss())
        .tick(0, supply)
        .total_bytes();
    assert!(
        total_supply > 4 * 1024 * 1024,
        "a meaningful supply to defer"
    );

    let mut c = ReleaseController::new(cfg);
    for t in 0..=200u64 {
        c.tick(t * 1_000, supply);
    }

    assert!(
        c.backlog_bytes() <= total_supply,
        "backlog {} must stay bounded by the ~{} of pending supply, not diverge",
        c.backlog_bytes(),
        total_supply
    );

    assert!(c.backlog_bytes() > 0, "the rate cap still defers real work");
}
