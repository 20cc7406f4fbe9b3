//! The phases of start-up, re-entrancy and the crash summary.
use topo_core::init::{CrashSummary, InitPhase, PhaseTracker, ReentryDomain};

#[test]
fn phases_are_ordered() {
    assert!(InitPhase::StaticZero < InitPhase::BootstrapMetadata);
    assert!(InitPhase::BootstrapMetadata < InitPhase::OsDiscovery);
    assert!(InitPhase::OsDiscovery < InitPhase::ArenaRegistry);
    assert!(InitPhase::ArenaRegistry < InitPhase::PerCpuSetup);
    assert!(InitPhase::PerCpuSetup < InitPhase::BackgroundAndProfiling);
    assert!(InitPhase::BackgroundAndProfiling < InitPhase::Operational);
}

#[test]
fn phase_tracker_advances_monotonically() {
    let mut t = PhaseTracker::new();
    assert_eq!(t.current(), InitPhase::StaticZero);
    assert!(t.advance_to(InitPhase::ArenaRegistry));
    assert_eq!(t.current(), InitPhase::ArenaRegistry);

    assert!(!t.advance_to(InitPhase::BootstrapMetadata));
    assert_eq!(t.current(), InitPhase::ArenaRegistry);

    assert!(!t.advance_to(InitPhase::ArenaRegistry));

    assert!(t.advance_to(InitPhase::Operational));
    assert!(t.is_operational());
}

#[test]
fn from_u8_saturates() {
    assert_eq!(InitPhase::from_u8(0), InitPhase::StaticZero);
    assert_eq!(InitPhase::from_u8(6), InitPhase::Operational);
    assert_eq!(InitPhase::from_u8(200), InitPhase::Operational);
}

#[test]
fn phase_tracker_is_concurrent_monotone() {
    let mut t = PhaseTracker::new();
    for _ in 0..8 {
        for p in [
            InitPhase::BootstrapMetadata,
            InitPhase::OsDiscovery,
            InitPhase::ArenaRegistry,
            InitPhase::Operational,
        ] {
            t.advance_to(p);
            assert!(t.current() >= p || t.current() == InitPhase::Operational);
        }
    }
    assert!(t.is_operational());
}

#[test]
fn reentry_flag_tracks_scope_and_active() {
    let mut test_domain = ReentryDomain::new();
    assert!(!test_domain.active(), "not in the domain initially");
    test_domain.enter();
    assert!(test_domain.active(), "inside the domain within a scope");
    {
        test_domain.enter();
        assert!(test_domain.active());
        test_domain.leave();
    }
    assert!(
        test_domain.active(),
        "still active after the inner scope drops"
    );
    test_domain.leave();
    assert!(
        !test_domain.active(),
        "flag cleared once the outermost scope drops"
    );
}

#[test]
fn crash_summary_writes_without_alloc() {
    let s = CrashSummary {
        init_phase: InitPhase::Operational as u8,
        allocated_bytes: 4096,
        freed_bytes: 1024,
        live_bytes: 3072,
        in_flight_ops: 2,
        background_enabled: true,
    };
    let mut buf = [0u8; 256];
    let n = s.write(&mut buf);
    let text = core::str::from_utf8(&buf[..n]).unwrap();
    assert!(text.contains("live_bytes=3072"));
    assert!(text.contains("init_phase=6"));
    assert!(text.contains("allocated_bytes=4096"));
    assert!(text.contains("in_flight_ops=2"));
    assert!(text.contains("background_enabled=1"));
}

#[test]
fn crash_summary_write_never_overflows_a_short_buffer() {
    let s = CrashSummary {
        live_bytes: u64::MAX,
        ..Default::default()
    };

    let mut buf = [0u8; 8];
    let n = s.write(&mut buf);
    assert!(n <= buf.len());
}
