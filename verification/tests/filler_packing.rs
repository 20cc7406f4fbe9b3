//! The hugepage filler: packing, freeing, subrelease and coverage.
use topo_core::backend::region_contains;
use topo_core::bitmap::{HUGEPAGE_SIZE, PAGES_PER_HUGEPAGE, PAGE_SIZE};
use topo_core::bootstrap::BumpArena;
use topo_core::filler::{HugePageFiller, HugeRun, Placement, Subrelease, SCAN_CAP};
use topo_core::flags::Lifetime;
use topo_core::huge_bin::{classify_bin, Hotness, HugeBin, PlaceHints};

fn meta(bytes: usize) -> BumpArena {
    BumpArena::new(0x10_0000, bytes)
}

fn filler(cap: usize) -> HugePageFiller {
    HugePageFiller::new(&mut meta(1 << 20), 0x4000_0000_0000, cap).expect("filler")
}

fn place_ok(f: &mut HugePageFiller, pages: usize, align: usize, hot: Hotness) -> Placement {
    let p = f
        .place(pages, align, PlaceHints::hot(hot))
        .expect("placement");
    f.mark_committed(&p);
    assert!(f.check_invariants());
    p
}

#[test]
fn trim_frees_the_tail_and_keeps_the_prefix_a_valid_allocation() {
    let mut f = filler(1);
    let p = place_ok(&mut f, 4, PAGE_SIZE, Hotness::Neutral);
    let base = p.base;
    assert_eq!(p.pages, 4);

    assert!(
        f.trim(base, 4, 2),
        "trim a live 4-page allocation to 2 pages"
    );
    assert!(f.check_invariants());

    assert!(
        f.free(base, 2).valid,
        "the trimmed prefix frees cleanly as a 2-page run"
    );
    assert!(f.check_invariants());

    let q = place_ok(&mut f, 3, PAGE_SIZE, Hotness::Neutral);
    assert!(!f.trim(q.base, 3, 3), "new == old is not a shrink");
    assert!(!f.trim(q.base, 3, 0), "new == 0 is rejected");
    assert!(
        !f.trim(q.base + PAGE_SIZE, 2, 1),
        "an interior page is not an allocation start"
    );
    assert!(!f.trim(q.base, 5, 2), "old beyond the live run is rejected");

    assert!(f.free(q.base, 3).valid);
    assert!(f.check_invariants());
}

#[test]
fn region_contains_is_overflow_safe() {
    assert!(region_contains(1000, 100, 1000), "inclusive start");
    assert!(region_contains(1000, 100, 1099), "last byte");
    assert!(!region_contains(1000, 100, 1100), "exclusive end");
    assert!(!region_contains(1000, 100, 999), "before the start");
    assert!(
        !region_contains(1000, 0, 1000),
        "an empty region contains nothing"
    );

    let base = usize::MAX - 50;
    let len = 100;
    assert_eq!(base.wrapping_add(len), 49, "the sum genuinely wraps here");
    assert!(region_contains(base, len, base), "start, even near the top");
    assert!(
        region_contains(base, len, usize::MAX),
        "50 bytes in"
    );
    assert!(
        !region_contains(base, len, base - 1),
        "just before the start"
    );

    assert!(
        !region_contains(base, len, 10),
        "wrapped low address is not a member"
    );
    assert!(
        !region_contains(base, len, 48),
        "nor is the wrapped end region"
    );
}

#[test]
fn classify_bin_is_total_and_covers_every_bin() {
    let n = PAGES_PER_HUGEPAGE;
    assert_eq!(
        classify_bin(0, n, 0, Hotness::Neutral),
        HugeBin::EmptyBacked
    );
    assert_eq!(
        classify_bin(1, n, 0, Hotness::Neutral),
        HugeBin::NearlyEmpty
    );
    assert_eq!(classify_bin(n / 4, n, 0, Hotness::Neutral), HugeBin::Sparse);
    assert_eq!(
        classify_bin(n / 4, n, 0, Hotness::Cold),
        HugeBin::ColdSparse
    );
    assert_eq!(classify_bin(n / 2, n, 0, Hotness::Neutral), HugeBin::Medium);
    assert_eq!(
        classify_bin(7 * n / 8, n, 0, Hotness::Neutral),
        HugeBin::NearlyFull
    );
    assert_eq!(
        classify_bin(7 * n / 8, n, 0, Hotness::Hot),
        HugeBin::HotDense
    );
    assert_eq!(classify_bin(n, n, 0, Hotness::Neutral), HugeBin::Full);
    assert_eq!(classify_bin(n, n, 0, Hotness::Hot), HugeBin::HotDense);
    assert_eq!(
        classify_bin(1, n, 1, Hotness::Neutral),
        HugeBin::PartialSubreleased
    );
}

#[test]
fn huge_bin_classification_matches_lean() {
    let n = PAGES_PER_HUGEPAGE;
    assert_eq!(n, 128, "the table is for hugepages of 128 pages");
    let cases: &[(usize, usize, Hotness, HugeBin)] = &[
        (0, 0, Hotness::Neutral, HugeBin::EmptyBacked),
        (1, 0, Hotness::Neutral, HugeBin::NearlyEmpty),
        (32, 0, Hotness::Neutral, HugeBin::Sparse),
        (32, 0, Hotness::Cold, HugeBin::ColdSparse),
        (64, 0, Hotness::Neutral, HugeBin::Medium),
        (112, 0, Hotness::Neutral, HugeBin::NearlyFull),
        (112, 0, Hotness::Hot, HugeBin::HotDense),
        (128, 0, Hotness::Neutral, HugeBin::Full),
        (128, 0, Hotness::Hot, HugeBin::HotDense),
        (5, 3, Hotness::Neutral, HugeBin::PartialSubreleased),
    ];
    for &(used, sub, hot, want) in cases {
        assert_eq!(
            classify_bin(used, n, sub, hot),
            want,
            "classify_bin({used}, {n}, {sub}, {hot:?}) differs from the table"
        );
    }
}

#[test]
fn placement_carves_distinct_aligned_runs() {
    let mut f = filler(4);

    let a = place_ok(&mut f, 4, PAGE_SIZE, Hotness::Neutral);
    let b = place_ok(&mut f, 4, PAGE_SIZE, Hotness::Neutral);
    assert_ne!(a.base, b.base);
    assert_eq!(a.base % PAGE_SIZE, 0);
    assert_eq!(b.base % PAGE_SIZE, 0);

    assert_eq!(a.hugepage, b.hugepage, "packing fills one hugepage first");
    assert_eq!(f.touched(), 1);
    assert_eq!(f.used_pages_of(a.base), 8);
}

#[test]
fn first_placement_needs_commit_then_reuse_is_a_cache_hit() {
    let mut f = filler(2);
    let p = f
        .place(2, PAGE_SIZE, PlaceHints::hot(Hotness::Neutral))
        .expect("place");
    assert!(p.commit_run.is_some(), "fresh pages need a commit");
    f.mark_committed(&p);
    assert!(f.free(p.base, 2).valid);
    let q = f
        .place(2, PAGE_SIZE, PlaceHints::hot(Hotness::Neutral))
        .expect("reuse");
    assert_eq!(q.base, p.base, "empty-backed reuse hits the same pages");
    assert!(
        q.commit_run.is_none(),
        "backed reuse avoids an immediate fault"
    );
    f.mark_committed(&q);
    assert!(f.check_invariants());
}

#[test]
fn free_empties_hugepage_and_reports_it() {
    let mut f = filler(2);
    let a = place_ok(&mut f, 8, PAGE_SIZE, Hotness::Neutral);
    let b = place_ok(&mut f, 8, PAGE_SIZE, Hotness::Neutral);
    let ra = f.free(a.base, 8);
    assert!(ra.valid && !ra.now_empty, "freed, but 8 live pages remain");
    let rb = f.free(b.base, 8);
    assert!(rb.valid && rb.now_empty, "now empty");
    assert_eq!(f.used_pages_of(a.base), 0);
    assert_eq!(f.bin_of(a.base), Some(HugeBin::EmptyBacked));
    assert!(f.check_invariants());
}

#[test]
fn bins_track_occupancy_h003() {
    let mut f = filler(1);
    let n = PAGES_PER_HUGEPAGE;
    let p1 = place_ok(&mut f, 1, PAGE_SIZE, Hotness::Neutral);
    assert_eq!(f.bin_of(p1.base), Some(HugeBin::NearlyEmpty));
    let _p2 = place_ok(&mut f, n / 2, PAGE_SIZE, Hotness::Neutral);

    assert!(matches!(
        f.bin_of(p1.base),
        Some(HugeBin::Medium) | Some(HugeBin::NearlyFull)
    ));

    let used = f.used_pages_of(p1.base);
    let _p3 = place_ok(&mut f, n - used, PAGE_SIZE, Hotness::Neutral);
    assert_eq!(f.bin_of(p1.base), Some(HugeBin::Full));
    assert!(f.check_invariants());
}

#[test]
fn subrelease_refuses_a_run_intersecting_a_live_object_h005() {
    let mut f = filler(1);
    let live = place_ok(&mut f, 4, PAGE_SIZE, Hotness::Cold);

    assert!(
        f.subrelease(live.base, 4, true).is_none(),
        "subrelease must refuse a run intersecting a live object"
    );

    assert!(f.subrelease(live.base, 1, true).is_none());
    assert_eq!(f.used_pages_of(live.base), 4, "live object untouched");
    assert!(f.check_invariants());
}

#[test]
fn subrelease_returns_a_cold_free_run_and_recommit_restores() {
    let mut f = filler(1);

    let a = place_ok(&mut f, 4, PAGE_SIZE, Hotness::Cold);
    let b = place_ok(&mut f, 4, PAGE_SIZE, Hotness::Cold);
    assert!(f.free(b.base, 4).valid);

    let sr = f
        .subrelease(b.base, 4, false)
        .expect("cold subrelease");
    assert_eq!(sr.len, 4 * PAGE_SIZE);
    assert_eq!(f.bin_of(a.base), Some(HugeBin::PartialSubreleased));
    let cov = f.coverage();
    assert_eq!(cov.partial_subreleased_bytes, 4 * PAGE_SIZE as u64);
    assert_eq!(f.subrelease_events(), 1);

    f.unsubrelease(&sr);
    assert_ne!(f.bin_of(a.base), Some(HugeBin::PartialSubreleased));
    assert!(f.check_invariants());
}

#[test]
fn subrelease_refuses_when_not_cold_and_no_pressure() {
    let mut f = filler(1);
    let n = PAGES_PER_HUGEPAGE;
    let _hot = place_ok(&mut f, n - 4, PAGE_SIZE, Hotness::Hot);
    let tail = place_ok(&mut f, 4, PAGE_SIZE, Hotness::Hot);
    assert!(f.free(tail.base, 4).valid);

    assert!(f.subrelease(tail.base, 4, false).is_none());

    assert!(f.subrelease(tail.base, 4, true).is_some());
    assert!(f.check_invariants());
}

#[test]
fn placement_groups_by_lifetime_overriding_the_base_tiebreak() {
    let short = PlaceHints {
        hotness: Hotness::Neutral,
        lifetime: Lifetime::Short,
    };
    let long = PlaceHints {
        hotness: Hotness::Neutral,
        lifetime: Lifetime::Long,
    };
    let mut f = filler(4);

    let fill0 = f.place(PAGES_PER_HUGEPAGE - 8, PAGE_SIZE, long).unwrap();
    f.mark_committed(&fill0);
    let a = f.place(8, PAGE_SIZE, long).unwrap();
    f.mark_committed(&a);
    let fill1 = f.place(PAGES_PER_HUGEPAGE - 8, PAGE_SIZE, short).unwrap();
    f.mark_committed(&fill1);
    let b = f.place(8, PAGE_SIZE, short).unwrap();
    f.mark_committed(&b);
    assert_eq!(a.hugepage, 0);
    assert_eq!(b.hugepage, 1);
    assert!(f.free(fill0.base, PAGES_PER_HUGEPAGE - 8).valid);
    assert!(f.free(fill1.base, PAGES_PER_HUGEPAGE - 8).valid);
    assert_eq!(f.bin_of(a.base), Some(HugeBin::NearlyEmpty));
    assert_eq!(f.bin_of(b.base), Some(HugeBin::NearlyEmpty));

    let p = f.place(8, PAGE_SIZE, short).expect("placement");
    assert_eq!(
        p.hugepage, 1,
        "the Short request grouped with the Short hugepage, not the lower-base Long one"
    );
    f.mark_committed(&p);
    assert!(f.check_invariants());
}

#[test]
fn placement_opens_fresh_to_avoid_mixing_lifetimes() {
    let long = PlaceHints {
        hotness: Hotness::Neutral,
        lifetime: Lifetime::Long,
    };
    let short = PlaceHints {
        hotness: Hotness::Neutral,
        lifetime: Lifetime::Short,
    };
    let mut f = filler(4);
    let a = f.place(1, PAGE_SIZE, long).unwrap();
    f.mark_committed(&a);
    assert_eq!(a.hugepage, 0);

    let s = f.place(1, PAGE_SIZE, short).unwrap();
    f.mark_committed(&s);
    assert_ne!(
        s.hugepage, a.hugepage,
        "short-lived object segregated from the long-lived hugepage"
    );

    let b = f.place(1, PAGE_SIZE, long).unwrap();
    f.mark_committed(&b);
    assert_eq!(
        b.hugepage, a.hugepage,
        "same-lifetime objects pack together"
    );
    assert!(f.check_invariants());
}

#[test]
fn subrelease_cost_benefit_scales_with_hugepage_density() {
    let mut f = filler(1);
    let a = place_ok(&mut f, 120, PAGE_SIZE, Hotness::Neutral);
    let b = place_ok(&mut f, 8, PAGE_SIZE, Hotness::Neutral);
    assert!(f.free(b.base, 8).valid);
    assert!(f.mark_cold(a.base));

    assert!(
        f.subrelease(b.base, 8, false).is_none(),
        "a small run from a dense hugepage: cost outweighs benefit"
    );

    assert!(f.subrelease(b.base, 8, true).is_some());
    let _ = a;
    assert!(f.check_invariants());
}

#[test]
fn placement_prefers_partially_used_hugepage_over_opening_new() {
    let mut f = filler(4);
    let a = place_ok(&mut f, 8, PAGE_SIZE, Hotness::Neutral);
    let b = place_ok(&mut f, 8, PAGE_SIZE, Hotness::Neutral);
    assert_eq!(a.hugepage, b.hugepage);
    assert_eq!(
        f.touched(),
        1,
        "packed into one hugepage, none opened needlessly"
    );
}

#[test]
fn full_hot_hugepages_do_not_starve_the_packing_descent() {
    let mut f = filler(SCAN_CAP + 8);
    let hot = PlaceHints {
        hotness: Hotness::Hot,
        ..PlaceHints::default()
    };

    for _ in 0..SCAN_CAP + 2 {
        let p = f
            .place(PAGES_PER_HUGEPAGE, PAGE_SIZE, hot)
            .expect("full hugepage");
        f.mark_committed(&p);
    }

    let big = f
        .place(PAGES_PER_HUGEPAGE - 8, PAGE_SIZE, hot)
        .expect("big run");
    f.mark_committed(&big);
    let small = f.place(8, PAGE_SIZE, hot).expect("small run");
    f.mark_committed(&small);
    let partial_hp = big.base / HUGEPAGE_SIZE;
    assert_eq!(
        small.base / HUGEPAGE_SIZE,
        partial_hp,
        "both runs share one hugepage"
    );
    assert!(f.free(big.base, PAGES_PER_HUGEPAGE - 8).valid);
    let touched_before = f.touched();

    let p = f.place(4, PAGE_SIZE, hot).expect("placement");
    f.mark_committed(&p);
    assert_eq!(
        f.touched(),
        touched_before,
        "the placement opened a fresh hugepage instead of packing into the one with room"
    );
    assert_eq!(
        p.base / HUGEPAGE_SIZE,
        partial_hp,
        "the run landed in the hugepage that had room"
    );
    assert!(f.check_invariants());
}

#[test]
fn a_bin_full_of_full_hugepages_stays_within_the_scan_budget() {
    let mut f = filler(4 * SCAN_CAP);
    let hot = PlaceHints {
        hotness: Hotness::Hot,
        ..PlaceHints::default()
    };

    let big = f
        .place(PAGES_PER_HUGEPAGE - 8, PAGE_SIZE, hot)
        .expect("big run");
    f.mark_committed(&big);

    for _ in 0..3 * SCAN_CAP {
        let p = f
            .place(PAGES_PER_HUGEPAGE, PAGE_SIZE, hot)
            .expect("full hugepage");
        f.mark_committed(&p);
    }
    assert!(f.check_invariants());

    let bin = f.bin_of(big.base).expect("filed in a bin");
    let list = f.bin_list(bin);
    let pos = list
        .iter()
        .position(|&j| j == big.hugepage)
        .unwrap_or(list.len());
    assert_eq!(
        list.get(pos).copied(),
        Some(big.hugepage),
        "the fittable hugepage is in its bin"
    );
    assert!(
        pos < SCAN_CAP,
        "the fittable hugepage sits at position {pos}, past the {SCAN_CAP}-node budget"
    );

    let touched_before = f.touched();
    let p = f.place(4, PAGE_SIZE, hot).expect("placement");
    f.mark_committed(&p);
    assert_eq!(
        f.touched(),
        touched_before,
        "the placement opened a fresh hugepage instead of packing into the one with room"
    );
    assert_eq!(p.hugepage, big.hugepage);
    assert!(f.check_invariants());
}

#[test]
fn opens_new_hugepage_when_current_is_full() {
    let mut f = filler(2);
    let n = PAGES_PER_HUGEPAGE;
    let a = place_ok(&mut f, n, PAGE_SIZE, Hotness::Neutral);
    let b = place_ok(&mut f, 4, PAGE_SIZE, Hotness::Neutral);
    assert_ne!(a.hugepage, b.hugepage);
    assert_eq!(f.touched(), 2);
    assert!(f.check_invariants());
}

#[test]
fn place_rejects_zero_oversized_and_unsatisfiable_alignment() {
    let mut f = filler(1);
    assert!(f
        .place(0, PAGE_SIZE, PlaceHints::hot(Hotness::Neutral))
        .is_none());
    assert!(f
        .place(
            PAGES_PER_HUGEPAGE + 1,
            PAGE_SIZE,
            PlaceHints::hot(Hotness::Neutral)
        )
        .is_none());

    assert!(f
        .place(1, HUGEPAGE_SIZE * 2, PlaceHints::hot(Hotness::Neutral))
        .is_none());
    assert!(f.check_invariants());
}

#[test]
fn region_exhaustion_is_a_safe_none() {
    let mut f = filler(1);
    let n = PAGES_PER_HUGEPAGE;
    let _a = place_ok(&mut f, n, PAGE_SIZE, Hotness::Neutral);
    assert!(f
        .place(1, PAGE_SIZE, PlaceHints::hot(Hotness::Neutral))
        .is_none());
    assert!(f.check_invariants());
}

#[test]
fn coverage_metrics_reconcile() {
    let mut f = filler(3);
    let _a = place_ok(&mut f, 16, PAGE_SIZE, Hotness::Neutral);
    let _b = place_ok(&mut f, 32, PAGE_SIZE, Hotness::Neutral);
    let cov = f.coverage();
    assert_eq!(cov.live_total_bytes, (16 + 32) * PAGE_SIZE as u64);
    assert_eq!(
        cov.live_total_bytes,
        cov.live_bytes_on_intact + cov.live_bytes_on_partial
    );

    assert_eq!(cov.partial_subreleased_bytes, 0);
    assert_eq!(cov.coverage_ratio_bp(), 10_000);

    let binned: u32 = cov.bins.iter().sum();
    assert_eq!(
        binned as u64,
        cov.coverage_bytes / HUGEPAGE_SIZE as u64,
        "bin distribution must reconcile with touched-hugepage count"
    );
    assert!(f.check_invariants());
}

#[test]
fn coverage_ratio_drops_with_partial_subrelease() {
    let mut f = filler(1);
    let n = PAGES_PER_HUGEPAGE;
    let a = place_ok(&mut f, 32, PAGE_SIZE, Hotness::Cold);
    let b = place_ok(&mut f, 16, PAGE_SIZE, Hotness::Cold);
    let c = place_ok(&mut f, n - 48, PAGE_SIZE, Hotness::Cold);
    let r = f.free(b.base, 16);
    assert!(r.valid && !r.now_empty, "hugepage still holds a and c");
    let _sr = f
        .subrelease(b.base, 16, true)
        .expect("subrelease the hole");
    let cov = f.coverage();
    assert_eq!(
        cov.live_bytes_on_partial,
        (n - 16) as u64 * PAGE_SIZE as u64
    );
    assert_eq!(cov.live_bytes_on_intact, 0);
    assert_eq!(cov.partial_subreleased_bytes, 16 * PAGE_SIZE as u64);

    assert_eq!(cov.coverage_ratio_bp(), 0);
    let _ = (a, c);
    assert!(f.check_invariants());
}

#[test]
fn empty_subreleased_hugepage_counts_as_empty_released_not_partial() {
    let mut f = filler(1);
    let a = place_ok(&mut f, 8, PAGE_SIZE, Hotness::Cold);
    assert!(f.free(a.base, 8).valid);
    let _sr = f
        .subrelease(a.base, 8, true)
        .expect("subrelease the empty run");
    let cov = f.coverage();
    assert_eq!(cov.live_total_bytes, 0, "no live object remains");
    assert_eq!(
        cov.empty_released_bytes,
        8 * PAGE_SIZE as u64,
        "released bytes on an empty hugepage are empty_released"
    );
    assert_eq!(
        cov.partial_subreleased_bytes, 0,
        "not partial - nothing live remains on the hugepage"
    );
    assert!(f.check_invariants());
}

#[test]
fn subreleased_hole_is_reused_and_healed_on_refill() {
    let mut f = filler(1);
    let a = place_ok(&mut f, 8, PAGE_SIZE, Hotness::Cold);
    let b = place_ok(&mut f, 8, PAGE_SIZE, Hotness::Cold);
    assert!(f.free(b.base, 8).valid);
    let sr = f.subrelease(b.base, 8, true).expect("subrelease");
    assert_eq!(f.bin_of(a.base), Some(HugeBin::PartialSubreleased));

    let c = f
        .place(8, PAGE_SIZE, PlaceHints::hot(Hotness::Cold))
        .expect("refill");
    assert_eq!(c.base, b.base, "the freed/subreleased run is reused");
    assert!(
        c.commit_run.is_some(),
        "subreleased pages must be recommitted"
    );
    f.mark_committed(&c);
    assert_ne!(
        f.bin_of(a.base),
        Some(HugeBin::PartialSubreleased),
        "healed"
    );
    assert_eq!(f.coverage().partial_subreleased_bytes, 0);
    let _ = sr;
    assert!(f.check_invariants());
}

#[test]
fn reserve_hugepages_is_contiguous_aligned_and_reusable() {
    let mut f = filler(4);
    let run = f.reserve_hugepages(2).expect("2-hugepage run");
    f.mark_run_committed(&run);
    assert_eq!(run.base % HUGEPAGE_SIZE, 0);
    assert_eq!(run.hugepages, 2);
    assert_eq!(f.bin_of(run.base), Some(HugeBin::Full));
    assert_eq!(f.bin_of(run.base + HUGEPAGE_SIZE), Some(HugeBin::Full));
    assert_eq!(f.coverage().live_total_bytes, 2 * HUGEPAGE_SIZE as u64);
    assert!(f.check_invariants());

    assert!(f.free_hugepages(run.base, 2).valid);
    assert_eq!(f.bin_of(run.base), Some(HugeBin::EmptyBacked));
    let run2 = f.reserve_hugepages(2).expect("reuse");
    assert_eq!(run2.base, run.base, "empty hugepages reused");
    assert!(run2.commit_run.is_none(), "backed reuse avoids a fault");
    assert!(f.check_invariants());
}

#[test]
fn reserve_hugepages_rejects_oversized_and_exhaustion() {
    let mut f = filler(2);
    assert!(f.reserve_hugepages(0).is_none());
    assert!(f.reserve_hugepages(3).is_none(), "more than capacity");
    let r = f.reserve_hugepages(2).expect("fills the region");
    f.mark_run_committed(&r);
    assert!(f.reserve_hugepages(1).is_none(), "region full");

    assert!(!f.free_hugepages(r.base + HUGEPAGE_SIZE, 2).valid);
    assert!(f.check_invariants());
}

#[test]
fn many_alloc_free_cycles_keep_invariants() {
    let mut f = filler(8);
    let mut live: Vec<(usize, usize)> = Vec::new();
    let mut rng = 0x1234_5678u64;
    for _ in 0..2000 {
        rng ^= rng << 13;
        rng ^= rng >> 7;
        rng ^= rng << 17;
        let alloc = live.is_empty() || (rng & 1 == 0);
        if alloc {
            let pages = 1 + (rng as usize % 8);
            if let Some(p) = f.place(pages, PAGE_SIZE, PlaceHints::hot(Hotness::Neutral)) {
                f.mark_committed(&p);
                live.push((p.base, pages));
            }
        } else {
            let idx = (rng as usize) % live.len();
            let (base, pages) = live.swap_remove(idx);
            assert!(f.free(base, pages).valid);
        }
        assert!(f.check_invariants());
    }

    for (base, pages) in live {
        assert!(f.free(base, pages).valid);
    }
    let cov = f.coverage();
    assert_eq!(cov.live_total_bytes, 0);
    assert!(f.check_invariants());
}

#[test]
fn invalid_inputs_are_rejected_without_mutation() {
    let mut f = filler(2);
    let p = place_ok(&mut f, 4, PAGE_SIZE, Hotness::Cold);
    let hp0_base = p.base - (p.base % HUGEPAGE_SIZE);
    let below = 0x1000usize;
    let beyond = hp0_base + 100 * HUGEPAGE_SIZE;
    let untouched = hp0_base + HUGEPAGE_SIZE;

    assert!(!f.free(p.base, 0).valid, "zero-page free rejected");
    assert!(
        f.subrelease(p.base, 0, true).is_none(),
        "zero-page subrelease rejected"
    );

    for bad in [below, beyond] {
        assert!(!f.free(bad, 4).valid);
        assert!(f.subrelease(bad, 4, true).is_none());
        assert!(!f.mark_cold(bad));
        assert!(!f.free_hugepages(bad, 1).valid);
    }

    assert!(!f.mark_cold(untouched));
    assert!(!f.free(untouched, 1).valid);
    assert!(f.subrelease(untouched, 1, true).is_none());

    assert!(f.free(p.base, 4).valid, "first free succeeds");
    assert!(!f.free(p.base, 4).valid, "double free rejected");

    let run = f.reserve_hugepages(1).expect("1-hugepage run");
    f.mark_run_committed(&run);
    assert!(
        f.free_hugepages(run.base, 1).valid,
        "first run free succeeds"
    );
    assert!(
        !f.free_hugepages(run.base, 1).valid,
        "run double free rejected (the hugepage is now empty, not full)"
    );
    assert!(f.check_invariants(), "no mutation from any rejected input");
}

#[test]
fn forged_confirmation_tokens_are_ignored_not_out_of_bounds() {
    let mut f = filler(2);
    let p = place_ok(&mut f, 4, PAGE_SIZE, Hotness::Neutral);
    let hp0 = p.base - (p.base % HUGEPAGE_SIZE);
    let live_before = f.used_pages_of(p.base);

    f.mark_committed(&Placement {
        hugepage: 9999,
        base: hp0,
        pages: 1,
        commit_run: None,
    });

    f.mark_run_committed(&HugeRun {
        base: hp0,
        hugepages: usize::MAX,
        commit_run: None,
    });

    f.unsubrelease(&Subrelease {
        hugepage: 9999,
        region_offset: usize::MAX,
        len: PAGE_SIZE,
    });

    assert_eq!(
        f.used_pages_of(p.base),
        live_before,
        "no mutation from any forged token"
    );
    assert!(f.check_invariants());
}
