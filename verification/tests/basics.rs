//! Arithmetic, identifiers, the pinned core, the profile and the version.
use topo_core::ids::{CoreId, Generation};
use topo_core::overflow::{align_up, array_bytes, pages_for};
use topo_core::pinned::{CoreProvider, FixedCore};
use topo_core::profile::{active_profile, debug_checks_enabled, ProfileFeatures};
use topo_core::VERSION;

#[test]
fn align_up_exact_multiples_are_unchanged() {
    for align in [1usize, 2, 4, 8, 16, 4096, 16384] {
        for k in 0..8 {
            let v = align * k;
            assert_eq!(align_up(v, align), Some(v));
        }
    }
}

#[test]
fn align_up_rounds_up_by_one() {
    assert_eq!(align_up(1, 16), Some(16));
    assert_eq!(align_up(15, 16), Some(16));
    assert_eq!(align_up(17, 16), Some(32));
    assert_eq!(align_up(0, 16), Some(0));
}

#[test]
fn align_up_overflow_returns_none_not_wrap() {
    assert_eq!(align_up(usize::MAX, 16), None);
    assert_eq!(align_up(usize::MAX - 14, 16), None);

    let top_aligned = usize::MAX & !15usize;
    assert_eq!(align_up(top_aligned, 16), Some(top_aligned));
    assert_eq!(align_up(top_aligned + 1, 16), None);
}

#[test]
fn array_bytes_detects_overflow() {
    assert_eq!(array_bytes(4, 8), Some(32));
    assert_eq!(array_bytes(0, 9999), Some(0));
    assert_eq!(array_bytes(usize::MAX, 2), None);
    assert_eq!(array_bytes(1 << 33, 1 << 33), None);
}

#[test]
fn pages_for_rounds_and_overflows() {
    assert_eq!(pages_for(1, 4096), Some(1));
    assert_eq!(pages_for(4096, 4096), Some(1));
    assert_eq!(pages_for(4097, 4096), Some(2));
    assert_eq!(pages_for(0, 4096), Some(0));
    assert_eq!(pages_for(usize::MAX, 4096), None);
}

#[test]
fn generation_next_increments_then_wraps_skipping_zero() {
    assert_eq!(Generation::first().next(), Generation(1));
    assert_eq!(Generation(41).next(), Generation(42));
    assert_eq!(Generation(u32::MAX - 1).next(), Generation(u32::MAX));

    assert_eq!(Generation(u32::MAX).next(), Generation(1));
    assert_ne!(Generation(u32::MAX).next(), Generation(u32::MAX));
    assert_ne!(Generation(u32::MAX).next(), Generation::first());
}

#[test]
fn fixed_core_reports_its_core() {
    let p = FixedCore(CoreId(5));
    assert_eq!(p.current_core(), CoreId(5));

    assert_eq!(p.current_core(), CoreId(5));
}

#[test]
fn version_is_nonempty() {
    assert!(!VERSION.is_empty());
}

#[test]
fn default_build_is_performance() {
    assert_eq!(active_profile(), "performance");
    assert!(!debug_checks_enabled());
}

#[test]
fn debug_checks_feature_enables_the_checks() {
    let build = ProfileFeatures {
        debug_checks: true,
        ..ProfileFeatures::none()
    };
    assert!(build.checks());
}

#[test]
fn the_most_specific_feature_names_the_profile() {
    let none = ProfileFeatures::none();
    let named = |f: ProfileFeatures| f.profile();
    assert_eq!(named(none), "performance");
    assert_eq!(named(ProfileFeatures { hugepage_optimized: true, ..none }), "hugepage_optimized");
    assert_eq!(named(ProfileFeatures { low_rss: true, ..none }), "low_rss");
    assert_eq!(named(ProfileFeatures { deterministic_test: true, ..none }), "deterministic_test");
    assert_eq!(named(ProfileFeatures { debug: true, low_rss: true, ..none }), "debug");
    assert_eq!(named(ProfileFeatures { hardened: true, debug: true, ..none }), "hardened");
    assert!(ProfileFeatures { hardened: true, ..none }.checks());
    assert!(ProfileFeatures { debug: true, ..none }.checks());
    assert!(!ProfileFeatures { low_rss: true, ..none }.checks());
}
