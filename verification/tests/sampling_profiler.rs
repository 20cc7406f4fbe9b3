//! The sampler, captured stacks, and the set of sampled objects.
use topo_core::bloom::SampleBloom;
use topo_core::placement::StackId;
use topo_core::sampled_set::{SampledObjects, SampledRecord};
use topo_core::sampling::{Rng, SampleConfig, Sampler, StackBuf, MAX_STACK_FRAMES};

#[test]
fn disabled_sampler_never_fires() {
    let mut s = Sampler::new(SampleConfig::disabled(), 1);
    assert!(!s.enabled());
    for _ in 0..10_000 {
        assert!(!s.should_sample(4096));
    }
}

#[test]
fn sampler_mean_interval_matches_rate() {
    let rate = 1 << 16;
    let mut s = Sampler::new(
        SampleConfig {
            sample_rate_bytes: rate,
        },
        0xDEAD_BEEF,
    );
    let step = 64usize;
    let n_allocs = 4_000_000usize;
    let mut fires = 0u64;
    for _ in 0..n_allocs {
        if s.should_sample(step) {
            fires += 1;
        }
    }
    let total_bytes = (n_allocs * step) as u64;
    let mean_interval = total_bytes / fires.max(1);

    let lo = rate - rate * 12 / 100;
    let hi = rate + rate * 12 / 100;
    assert!(
        (lo..=hi).contains(&mean_interval),
        "mean interval {mean_interval} not within 12% of rate {rate} (fires={fires})"
    );
}

#[test]
fn sampler_is_deterministic_given_seed() {
    let cfg = SampleConfig {
        sample_rate_bytes: 1 << 14,
    };
    let mut a = Sampler::new(cfg, 42);
    let mut b = Sampler::new(cfg, 42);
    for _ in 0..100_000 {
        assert_eq!(a.should_sample(128), b.should_sample(128));
    }
}

#[test]
fn sampler_fires_on_a_single_huge_allocation() {
    let mut s = Sampler::new(
        SampleConfig {
            sample_rate_bytes: 1 << 16,
        },
        7,
    );
    assert!(s.should_sample(1 << 24), "a 16 MiB alloc must be sampled");
}

#[test]
fn stack_buf_hash_is_order_sensitive_and_stable() {
    let mut a = StackBuf::new();
    a.push(0x1000);
    a.push(0x2000);
    let mut b = StackBuf::new();
    b.push(0x2000);
    b.push(0x1000);
    assert_ne!(a.stack_id(), b.stack_id(), "frame order changes the id");

    let mut c = StackBuf::new();
    c.push(0x1000);
    c.push(0x2000);
    assert_eq!(a.stack_id(), c.stack_id());

    assert_eq!(StackBuf::new().stack_id(), StackId::unknown());
    assert!(a.stack_id().is_known());
}

#[test]
fn stack_buf_is_bounded_and_fills_directly() {
    let mut s = StackBuf::new();
    for i in 0..(MAX_STACK_FRAMES + 10) {
        s.push(i + 1);
    }
    assert_eq!(s.frames().len(), MAX_STACK_FRAMES, "capture is bounded");

    let mut d = StackBuf::new();
    d.frames_mut()[0] = 0xAAAA;
    d.frames_mut()[1] = 0xBBBB;
    d.set_len(2);
    assert_eq!(d.frames(), &[0xAAAA, 0xBBBB]);
    d.set_len(999);
    assert_eq!(d.frames().len(), MAX_STACK_FRAMES);
}

#[test]
fn sampled_objects_roundtrip_and_censor() {
    let mut set = SampledObjects::<16>::new();
    let rec = SampledRecord {
        stack_id: StackId(5),
        bytes: 4096,
        usable: 4096,
        alloc_ms: 100,
    };
    assert!(set.on_alloc(0x4000, rec));
    assert_eq!(set.len(), 1);

    let mut seen = 0;
    for r in set.for_each() {
        assert_eq!(r.stack_id, StackId(5));
        seen += 1;
    }
    assert_eq!(seen, 1);

    assert_eq!(set.on_free(0x4000), Some(rec));
    assert_eq!(set.on_free(0x4000), None);
    assert!(set.is_empty());

    assert!(!set.on_alloc(0, rec));
    assert_eq!(set.on_free(0xDEAD), None);
}

#[test]
fn sampled_objects_backward_shift_keeps_lookups_correct() {
    let mut set = SampledObjects::<64>::new();
    let mut rng = Rng::new(1);
    let mut present: Vec<usize> = Vec::new();
    for _ in 0..10_000 {
        if present.is_empty() || rng.next_u64() & 1 == 0 {
            let addr = 0x1_0000 + ((rng.next_u64() as usize % 200) * 0x1000);
            let rec = SampledRecord {
                stack_id: StackId(addr as u64),
                bytes: 64,
                usable: 64,
                alloc_ms: 0,
            };
            if set.on_alloc(addr, rec) && !present.contains(&addr) {
                present.push(addr);
            }
        } else {
            let k = (rng.next_u64() as usize) % present.len();
            let addr = present.swap_remove(k);
            assert!(set.on_free(addr).is_some(), "present key must resolve");
        }

    }
    assert_eq!(set.len(), present.len());

    for &addr in &present {
        assert!(set.on_free(addr).is_some(), "leftover key {addr:#x} lost");
    }
    assert!(set.is_empty());
}

#[test]
fn sampled_objects_drops_past_capacity_without_eviction() {
    let mut set = SampledObjects::<16>::new();
    let cap_load = 16 - 16 / 8;
    for k in 0..50usize {
        let addr = 0x1000 + k * 0x1000;
        set.on_alloc(
            addr,
            SampledRecord {
                stack_id: StackId(k as u64 + 1),
                bytes: 64,
                usable: 64,
                alloc_ms: 0,
            },
        );
    }
    assert_eq!(set.len(), cap_load, "load is capped");
    assert!(
        set.dropped() > 0,
        "excess inserts were dropped, not evicted"
    );
}

#[test]
fn bloom_has_no_false_negatives() {
    let mut bloom = SampleBloom::new();
    let mut rng = Rng::new(99);
    let mut addrs: Vec<usize> = Vec::new();
    for _ in 0..2000 {
        let addr = rng.next_u64() as usize | 0x1000;
        bloom.insert(addr);
        addrs.push(addr);
    }

    for &addr in &addrs {
        assert!(bloom.maybe_contains(addr), "false negative for {addr:#x}");
    }

    bloom.reset();

    assert!(!bloom.maybe_contains(0xABCD_1234));
}

#[test]
fn a_failed_realloc_restores_its_sample_even_at_the_load_cap() {
    let mut set = SampledObjects::<16>::new();
    let rec = |n: u64| SampledRecord {
        stack_id: StackId(7),
        bytes: n,
        usable: n,
        alloc_ms: n,
    };

    for i in 0..14u64 {
        assert!(set.on_alloc(0x1_0000 + (i as usize) * 0x100, rec(i)));
    }
    assert_eq!(set.len(), 14);
    assert!(
        !set.on_alloc(0xDEAD_0000, rec(99)),
        "the cap drops a new sample, which is the intended bounded loss"
    );

    let victim = 0x1_0000;
    let taken = set.on_free(victim).expect("the victim was tracked");
    assert_eq!(set.len(), 13);

    assert!(set.on_alloc(0xBEEF_0000, rec(42)));
    assert_eq!(set.len(), 14);

    assert!(
        !set.on_alloc(victim, taken),
        "on_alloc drops at the cap - the behaviour the restore path must not inherit"
    );
    assert!(
        set.on_alloc_restore(victim, taken),
        "a live object's sample was dropped because the table refilled during its \
         realloc"
    );
    assert_eq!(set.len(), 15);
    let mut found = false;
    for r in set.for_each() {
        if r.alloc_ms == 0 && r.stack_id == StackId(7) {
            found = true;
        }
    }
    assert!(
        found,
        "the restored record must be visible to the live scan"
    );

    let newer = set.on_free(0xBEEF_0000).expect("tracked");
    set.on_free(0x1_0000 + 0x100)
        .expect("a filler to make room under the cap");
    assert!(set.on_alloc(0xBEEF_0000, rec(43)));
    assert!(
        !set.on_alloc_restore(0xBEEF_0000, newer),
        "the newer record owns that address now; the stale restore must lose"
    );
}
