//! Properties of sampling, of the sampled objects and of the profiles on concrete values.
use topo_core::bloom::SampleBloom;
use topo_core::flags::Lifetime;
use topo_core::huge_bin::{Hotness, PlaceHints};
use topo_core::placement::{
    AllocationSiteProfile, LifetimeClass, SizeClassDist, StackId, BP_ONE, SIZE_DIST_K,
};
use topo_core::placement_table::{splitmix64, SiteProfileTable};
use topo_core::sampled_set::{SampledObjects, SampledRecord};
use topo_core::sampling::{Rng, SampleConfig, Sampler, StackBuf};

fn record(n: u64) -> SampledRecord {
    SampledRecord {
        stack_id: StackId(n),
        bytes: n,
        usable: n,
        alloc_ms: n,
    }
}

#[test]
fn the_random_numbers_are_those_of_splitmix() {
    let mut r = Rng::new(0);
    assert_eq!(r.next_u64(), 0xe220_a839_7b1d_cdaf);
    assert_eq!(r.next_u64(), 0x6e78_9e6a_a1b9_65f4);
    assert_eq!(splitmix64(1), 0x5692_161d_100b_05e5);
    assert_eq!(splitmix64(0), 0);
}

#[test]
fn intervals_are_exact_and_what_is_exceeded_is_carried_over() {
    let cfg = SampleConfig::default();
    assert_eq!(cfg.sample_rate_bytes, 1 << 20);
    let mut s = Sampler::new(cfg, 0);
    assert!(s.enabled());
    assert_eq!(s.rate_bytes(), 1 << 20);
    assert!(!s.should_sample(162_994 - 1));
    assert!(s.should_sample(101), "100 bytes too many");
    assert!(!s.should_sample(889_703 - 101));
    assert!(s.should_sample(1));
}

#[test]
fn a_disabled_sampler_stays_silent_on_any_size() {
    let mut s = Sampler::new(SampleConfig::disabled(), 3);
    assert!(!SampleConfig::disabled().enabled());
    assert!(!s.should_sample(usize::MAX));
    assert_eq!(s.rate_bytes(), 0);
}

#[test]
fn a_stack_is_cleared_and_known_by_its_frames() {
    let mut s = StackBuf::default();
    s.push(1);
    let id = s.stack_id();
    s.push(2);
    assert_ne!(s.stack_id(), id);
    s.clear();
    assert!(s.frames().is_empty());
    assert!(!s.stack_id().is_known());
    s.push(1);
    assert_eq!(s.stack_id(), id);
    s.set_len(3);
    assert_eq!(s.frames(), &[1, 2, 0], "what was captured before is still there");
}

#[test]
fn a_free_finds_the_record_of_its_allocation() {
    let mut set = SampledObjects::<8>::new();
    assert!(set.on_alloc(0x1000, record(1)));
    assert!(set.on_alloc(0x2000, record(2)));
    assert!(!set.on_alloc(0x1000, record(3)), "recorded already");
    assert_eq!(set.len(), 2);
    let mut addrs = set.for_each_addr();
    addrs.sort();
    assert_eq!(addrs, vec![0x1000, 0x2000]);
    assert_eq!(set.on_free(0x1000), Some(record(3)), "the newer record");
    assert_eq!(set.on_free(0x2000), Some(record(2)));
    assert!(set.is_empty());
    assert!(!set.on_alloc_restore(0, record(1)));
    assert_eq!(set.dropped(), 0);
}

#[test]
fn a_restore_fails_only_when_the_set_is_full() {
    let mut set = SampledObjects::<8>::new();
    for i in 1..=7u64 {
        assert!(set.on_alloc(0x1000 * i as usize, record(i)));
    }
    assert!(!set.on_alloc(0x9000, record(9)));
    assert_eq!(set.dropped(), 1);
    assert!(set.on_alloc_restore(0x8000, record(8)));
    assert!(!set.on_alloc_restore(0x9000, record(9)));
    assert_eq!(set.dropped(), 2);
    assert_eq!(set.len(), 8);
}

#[test]
fn the_filter_forgets_on_reset() {
    let mut b = SampleBloom::default();
    assert!(!b.maybe_contains(0x1234));
    b.insert(0x1234);
    assert!(b.maybe_contains(0x1234));
    b.reset();
    assert!(!b.maybe_contains(0x1234));
}

#[test]
fn lifetimes_have_names_and_bounds() {
    let names: Vec<&str> = (0..LifetimeClass::COUNT)
        .map(|i| LifetimeClass::from_index(i).as_str())
        .collect();
    assert_eq!(
        names,
        vec!["unknown", "ephemeral", "short", "medium", "long", "persistent"]
    );
    assert_eq!(LifetimeClass::from_index(99), LifetimeClass::Unknown);
    assert_eq!(LifetimeClass::default(), LifetimeClass::Unknown);
}

#[test]
fn monitored_counts_are_bounds_on_the_true_ones() {
    let mut d = SizeClassDist::default();
    assert_eq!(d.dominant(), None);
    let stream: Vec<u16> = vec![1, 1, 1, 2, 2, 3, 4, 5, 1, 6, 2, 7];
    for &b in &stream {
        d.observe(b);
    }
    assert_eq!(d.total(), stream.len() as u32);
    let entries = d.entries();
    assert_eq!(entries.len(), SIZE_DIST_K);
    let counted: u32 = entries.iter().map(|e| e.1).sum();
    assert_eq!(counted, d.total(), "the counts add up to the observations");
    for (bucket, count, error) in entries {
        let true_count = stream.iter().filter(|&&b| b == bucket).count() as u32;
        assert!(count - error <= true_count && true_count <= count);
    }
    assert_eq!(d.dominant().map(|e| e.0), Some(1), "a third of the stream");
}

#[test]
fn a_profile_gives_exact_rates_means_and_trust() {
    let mut p = AllocationSiteProfile::new(StackId(9), 1_000);
    assert_eq!(p.place_hints(0).lifetime, Lifetime::Unspecified);
    assert_eq!(p.hotness_estimate(), 0);
    for i in 0..16u64 {
        p.record_alloc(3, 100, 100 + (i % 2) as u8 * 50, 1_000 + 500 * i);
    }
    p.record_free(5, 100, 9_000);
    p.record_free(5, 100, 9_000);
    p.record_free(100_000, 100, 9_000);
    p.record_censored(100_000_000);
    assert_eq!(p.stack_id(), StackId(9));
    assert_eq!(p.counts(), (16, 3));
    assert_eq!(p.sampled_live_bytes(), 1_300);
    assert_eq!(p.last_alloc_ms(), 8_500);
    assert_eq!(p.allocation_rate(), 16_000 / 7_500);
    assert_eq!(p.free_rate(), 0, "3 over 8 seconds");
    assert_eq!(p.hotness_estimate(), 125);
    assert_eq!(p.hotness_confidence_bp(), 5_000, "half of what is asked for");
    assert_eq!(p.lifetimes().total(), 4);
    assert_eq!(p.dominant_lifetime(), LifetimeClass::Short);
    assert_eq!(p.lifetime_confidence_bp(), 1_250 * 5_000 / 10_000);
    assert_eq!(p.confidence_bp(), 625);
    assert_eq!(p.size_distribution().dominant(), Some((3, 16)));
    assert_eq!(
        p.place_hints(5_000),
        PlaceHints {
            hotness: Hotness::Neutral,
            lifetime: Lifetime::Unspecified
        }
    );
    assert_eq!(p.place_hints(600).lifetime, Lifetime::Short);
}

#[test]
fn a_table_tracks_sites_apart() {
    let mut t = SiteProfileTable::<16>::new();
    assert_eq!(t.capacity(), 16);
    t.record_alloc(StackId(1), 2, 64, 255, 10);
    t.record_alloc(StackId(2), 4, 32, 0, 20);
    t.record_free(StackId(1), 3, 64, 30);
    t.record_censored(StackId(2), 40);
    t.record_alloc(StackId::unknown(), 1, 8, 9, 50);
    let one = t.profile(StackId(1)).expect("tracked");
    assert_eq!((one.counts(), one.sampled_live_bytes()), ((1, 1), 0));
    let two = t.profile(StackId(2)).expect("tracked");
    assert_eq!((two.counts(), two.sampled_live_bytes()), ((1, 0), 32));
    assert!(t.profile(StackId(3)).is_none());
    assert_eq!(t.place_hints(StackId(3)), PlaceHints::default());
    assert_eq!(t.for_each_profile().len(), 2);
    let s = t.stats();
    assert_eq!((s.sites_tracked, s.evictions, s.sampled_live_bytes), (2, 0, 32));
    assert_eq!((s.free_samples, s.censored_samples), (1, 1));
    assert_eq!(s.confident_sites, 0);
    t.set_min_confidence_bp(1);
    assert_eq!(t.min_confidence_bp(), 1);
    assert_eq!(t.stats().confident_sites, 2);
    assert_eq!(t.place_hints(StackId(1)).hotness, Hotness::Hot);
    t.set_min_confidence_bp(u32::MAX);
    assert_eq!(t.min_confidence_bp() as u64, BP_ONE);
}
