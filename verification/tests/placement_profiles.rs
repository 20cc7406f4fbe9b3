//! Allocation-site profiles and the table of them.
use topo_core::flags::Lifetime;
use topo_core::huge_bin::{Hotness, PlaceHints};
use topo_core::placement::{
    AllocationSiteProfile, LifetimeClass, LifetimeHistogram, SizeClassDist, StackId,
    CONFIDENT_SAMPLES, DEFAULT_MIN_CONFIDENCE_BP, SIZE_DIST_K,
};
use topo_core::placement_table::SiteProfileTable;

type Table = SiteProfileTable<16>;

#[test]
fn lifetime_class_from_age_is_monotone_and_total() {
    assert_eq!(LifetimeClass::from_age_ms(0), LifetimeClass::Ephemeral);
    assert_eq!(LifetimeClass::from_age_ms(1), LifetimeClass::Short);
    assert_eq!(LifetimeClass::from_age_ms(999), LifetimeClass::Short);
    assert_eq!(LifetimeClass::from_age_ms(1_000), LifetimeClass::Medium);
    assert_eq!(LifetimeClass::from_age_ms(59_999), LifetimeClass::Medium);
    assert_eq!(LifetimeClass::from_age_ms(60_000), LifetimeClass::Long);
    assert_eq!(LifetimeClass::from_age_ms(3_599_999), LifetimeClass::Long);
    assert_eq!(
        LifetimeClass::from_age_ms(3_600_000),
        LifetimeClass::Persistent
    );
    assert_eq!(
        LifetimeClass::from_age_ms(u64::MAX),
        LifetimeClass::Persistent
    );

    let mut prev = LifetimeClass::Ephemeral;
    for ms in [0u64, 1, 1_000, 60_000, 3_600_000, u64::MAX] {
        let c = LifetimeClass::from_age_ms(ms);
        assert!(c >= prev);
        prev = c;
    }
}

#[test]
fn lifetime_class_hint_roundtrip_and_projection() {
    for i in 0..LifetimeClass::COUNT {
        assert_eq!(LifetimeClass::from_index(i).index(), i);
    }

    assert_eq!(LifetimeClass::Unknown.to_hint(), Lifetime::Unspecified);
    assert_eq!(LifetimeClass::Ephemeral.to_hint(), Lifetime::Short);
    assert_eq!(LifetimeClass::Short.to_hint(), Lifetime::Short);
    assert_eq!(LifetimeClass::Medium.to_hint(), Lifetime::Medium);
    assert_eq!(LifetimeClass::Long.to_hint(), Lifetime::Long);
    assert_eq!(LifetimeClass::Persistent.to_hint(), Lifetime::Long);
}

#[test]
fn histogram_dominant_breaks_ties_toward_longer_lived() {
    let mut h = LifetimeHistogram::default();
    h.record(LifetimeClass::Short);
    h.record(LifetimeClass::Long);

    assert_eq!(h.dominant(), (LifetimeClass::Long, 1));
    h.record(LifetimeClass::Short);

    assert_eq!(h.dominant(), (LifetimeClass::Short, 2));
    assert_eq!(h.total(), 3);
    assert_eq!(h.censored(), 0);

    h.record_censored(LifetimeClass::Persistent);
    assert_eq!(h.count(LifetimeClass::Persistent), 1);
    assert_eq!(h.censored(), 1);
    assert_eq!(h.total(), 4);
}

#[test]
fn size_dist_space_saving_keeps_top_buckets() {
    let mut d = SizeClassDist::default();

    for _ in 0..100 {
        d.observe(3);
    }
    for b in 0..50u16 {
        d.observe(100 + b);
    }
    let (bucket, count) = d.dominant().expect("nonempty");
    assert_eq!(bucket, 3, "the heavy hitter survives Space-Saving eviction");
    assert!(count >= 100);
    assert_eq!(d.total(), 150);

    assert!(d.entries().len() <= SIZE_DIST_K);

    let mut d2 = SizeClassDist::default();
    d2.observe(SizeClassDist::BUCKET_LARGE);
    d2.observe(SizeClassDist::BUCKET_LARGE);
    d2.observe(7);
    assert_eq!(d2.dominant(), Some((SizeClassDist::BUCKET_LARGE, 2)));
}

#[test]
fn profile_confidence_grows_with_consistent_evidence() {
    let mut p = AllocationSiteProfile::new(StackId(1), 0);
    assert_eq!(p.confidence_bp(), 0);
    assert_eq!(
        p.place_hints(DEFAULT_MIN_CONFIDENCE_BP),
        PlaceHints::default()
    );

    let mut t = 0u64;
    for _ in 0..CONFIDENT_SAMPLES {
        p.record_alloc(8, 4096, 200, t);
        t += 10;
        p.record_free(5 , 4096, t);
        t += 10;
    }
    assert!(p.hotness_confidence_bp() >= DEFAULT_MIN_CONFIDENCE_BP);
    assert!(p.lifetime_confidence_bp() >= DEFAULT_MIN_CONFIDENCE_BP);
    let h = p.place_hints(DEFAULT_MIN_CONFIDENCE_BP);
    assert_eq!(h.hotness, Hotness::Hot, "mean hotness 200 => Hot");
    assert_eq!(h.lifetime, Lifetime::Short, "5 ms lifetimes => Short");

    assert!(p.allocation_rate() > 0);
    assert!(p.free_rate() > 0);
}

#[test]
fn profile_mixed_hotness_self_corrects_to_neutral() {
    let mut p = AllocationSiteProfile::new(StackId(2), 0);
    let mut t = 0;
    for k in 0..CONFIDENT_SAMPLES {
        p.record_alloc(8, 64, if k % 2 == 0 { 0 } else { 255 }, t);
        t += 1;
        p.record_free(2_000, 64, t);
        t += 1;
    }
    let h = p.place_hints(0);
    assert_eq!(h.hotness, Hotness::Neutral, "averaged hotness is neutral");
    assert_eq!(h.lifetime, Lifetime::Medium);
}

#[test]
fn table_records_and_resolves_hints() {
    let mut t = Table::new();
    assert_eq!(t.place_hints(StackId(7)), PlaceHints::default());
    let mut clock = 0u64;
    for _ in 0..CONFIDENT_SAMPLES {
        t.record_alloc(StackId(7), 16, 256, 0 , clock);
        clock += 5;

        t.record_free(StackId(7), 120_000, 256, clock);
        clock += 5;
    }
    let h = t.place_hints(StackId(7));
    assert_eq!(h.hotness, Hotness::Cold, "cold site => cold placement");
    assert_eq!(h.lifetime, Lifetime::Long);
    let st = t.stats();
    assert_eq!(st.sites_tracked, 1);
    assert_eq!(st.confident_sites, 1);
    assert_eq!(st.alloc_samples, CONFIDENT_SAMPLES as u64);
    assert_eq!(st.free_samples, CONFIDENT_SAMPLES as u64);
}

#[test]
fn table_free_of_untracked_site_is_a_safe_noop() {
    let mut t = Table::new();
    t.record_free(StackId(999), 10, 64, 1);
    t.record_censored(StackId(999), 10);
    assert_eq!(t.stats().sites_tracked, 0);
    assert_eq!(t.stats().free_samples, 1);
}

#[test]
fn table_sampled_live_bytes_track_alloc_minus_free() {
    let mut t = Table::new();
    t.record_alloc(StackId(3), 8, 4096, 0, 0);
    t.record_alloc(StackId(3), 8, 4096, 0, 1);
    assert_eq!(t.profile(StackId(3)).unwrap().sampled_live_bytes(), 8192);
    t.record_free(StackId(3), 10, 4096, 2);
    assert_eq!(t.profile(StackId(3)).unwrap().sampled_live_bytes(), 4096);

    t.record_free(StackId(3), 10, 1 << 40, 3);
    assert_eq!(t.profile(StackId(3)).unwrap().sampled_live_bytes(), 0);
}

#[test]
fn table_evicts_least_useful_under_capacity_pressure() {
    let mut t = SiteProfileTable::<16>::new();

    let keep = StackId(0xA11CE);
    let mut clock = 0u64;
    for _ in 0..CONFIDENT_SAMPLES {
        t.record_alloc(keep, 8, 64, 200, clock);
        clock += 1;
        t.record_free(keep, 5, 64, clock);
        clock += 1;
    }
    assert!(t.profile(keep).unwrap().confidence_bp() > 0);

    for k in 0..1000u64 {
        t.record_alloc(StackId(0x1_0000 + k), 8, 64, 0, clock);
        clock += 1;
    }

    assert!(t.stats().sites_tracked <= t.capacity() as u32);
    assert!(
        t.stats().evictions > 0,
        "capacity pressure caused evictions"
    );
}

#[test]
fn right_censored_sharpens_the_long_tail() {
    let mut p = AllocationSiteProfile::new(StackId(5), 0);
    for _ in 0..10 {
        p.record_alloc(8, 64, 0, 0);
    }

    p.record_free(10, 64, 0);
    p.record_free(20, 64, 0);
    for _ in 0..8 {
        p.record_censored(600_000);
    }

    assert_eq!(p.dominant_lifetime(), LifetimeClass::Long);
    assert_eq!(p.lifetimes().censored(), 8);
}

#[test]
fn strong_right_censored_evidence_makes_a_long_lived_site_confident() {
    let mut p = AllocationSiteProfile::new(StackId(9), 0);
    for _ in 0..CONFIDENT_SAMPLES {
        p.record_alloc(8, 4096, 200 , 0);
    }

    for _ in 0..CONFIDENT_SAMPLES {
        p.record_censored(600_000);
    }
    assert!(
        p.lifetime_confidence_bp() >= DEFAULT_MIN_CONFIDENCE_BP,
        "censored-only long-lived evidence is confident"
    );
    let h = p.place_hints(DEFAULT_MIN_CONFIDENCE_BP);
    assert_eq!(
        h.lifetime,
        Lifetime::Long,
        "still-live long objects => Long hint"
    );
    assert_eq!(h.hotness, Hotness::Hot);

    assert_eq!(p.counts(), (CONFIDENT_SAMPLES, 0));
    assert_eq!(p.lifetimes().total(), CONFIDENT_SAMPLES);
}
