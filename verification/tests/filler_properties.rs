//! Properties of the filler and the region cache on concrete values.
use topo_core::bitmap::{PageBitmap, HUGEPAGE_SIZE, PAGES_PER_HUGEPAGE, PAGE_SIZE};
use topo_core::bootstrap::BumpArena;
use topo_core::filler::{HugePageFiller, HUGE_SLOT_BYTES};
use topo_core::flags::Lifetime;
use topo_core::huge_bin::{packing_bin, Hotness, HugeBin, HugeStats, PlaceHints};
use topo_core::region_cache::{RegionCache, REGION_CACHE_SLOT_BYTES};

const BASE: usize = 0x4000_0000_0000;

fn filler(cap: usize) -> HugePageFiller {
    HugePageFiller::new(&mut BumpArena::new(0x10_0000, 1 << 20), BASE, cap).expect("filler")
}

fn neutral() -> PlaceHints {
    PlaceHints::hot(Hotness::Neutral)
}

#[test]
fn a_filler_needs_metadata_an_aligned_base_and_a_hugepage() {
    let enough = 4 * HUGE_SLOT_BYTES;
    assert!(HugePageFiller::new(&mut BumpArena::new(0x10_0000, enough), BASE, 4).is_some());
    assert!(HugePageFiller::new(&mut BumpArena::new(0x10_0000, enough - 1), BASE, 4).is_none());
    assert!(HugePageFiller::new(&mut BumpArena::new(0x10_0000, enough), BASE, 0).is_none());
    assert!(
        HugePageFiller::new(&mut BumpArena::new(0x10_0000, enough), BASE + PAGE_SIZE, 4).is_none()
    );
}

#[test]
fn placements_are_aligned_and_do_not_overlap() {
    let mut f = filler(2);
    let mut runs: Vec<(usize, usize)> = Vec::new();
    for (pages, align) in [
        (3, PAGE_SIZE),
        (2, 4 * PAGE_SIZE),
        (5, 8 * PAGE_SIZE),
        (1, 2 * PAGE_SIZE),
        (16, 16 * PAGE_SIZE),
    ] {
        let p = f.place(pages, align, neutral()).expect("placement");
        f.mark_committed(&p);
        assert_eq!(p.base % align, 0);
        for &(base, len) in &runs {
            assert!(p.base + pages * PAGE_SIZE <= base || base + len * PAGE_SIZE <= p.base);
        }
        runs.push((p.base, pages));
    }
    assert_eq!(runs[0].0, BASE);
    assert_eq!(runs[1].0, BASE + 4 * PAGE_SIZE);
    assert_eq!(runs[2].0, BASE + 8 * PAGE_SIZE);
    assert_eq!(runs[3].0, BASE + 6 * PAGE_SIZE);
    assert_eq!(runs[4].0, BASE + 16 * PAGE_SIZE);
}

#[test]
fn freeing_undoes_placing_and_keeps_the_backing() {
    let mut f = filler(1);
    let keep = f.place(2, PAGE_SIZE, neutral()).unwrap();
    f.mark_committed(&keep);
    let before = f.used_pages_of(BASE);
    let p = f.place(7, PAGE_SIZE, neutral()).unwrap();
    f.mark_committed(&p);
    assert_eq!(p.commit_run, Some((2 * PAGE_SIZE, 7 * PAGE_SIZE)));
    assert!(f.free(p.base, 7).valid);
    assert_eq!(f.used_pages_of(BASE), before);
    let again = f.place(7, PAGE_SIZE, neutral()).unwrap();
    assert_eq!(again.base, p.base);
    assert_eq!(again.commit_run, None);
}

#[test]
fn only_the_exact_extent_of_an_allocation_is_freed() {
    let mut f = filler(1);
    let p = f.place(4, PAGE_SIZE, neutral()).unwrap();
    f.mark_committed(&p);
    assert!(!f.free(p.base, 3).valid);
    assert!(!f.free(p.base, 5).valid);
    assert!(!f.free(p.base + PAGE_SIZE, 3).valid);
    assert!(!f.free(p.base + 1, 4).valid);
    assert!(f.free(p.base, 4).valid);
    assert!(!f.free(p.base, 4).valid);
}

#[test]
fn a_trimmed_tail_is_placed_again() {
    let mut f = filler(1);
    let p = f.place(10, PAGE_SIZE, neutral()).unwrap();
    f.mark_committed(&p);
    assert!(f.trim(p.base, 10, 4));
    assert_eq!(f.used_pages_of(BASE), 4);
    let q = f.place(6, PAGE_SIZE, neutral()).unwrap();
    assert_eq!(q.base, p.base + 4 * PAGE_SIZE);
    assert_eq!(q.commit_run, None, "the tail stayed backed");
    f.mark_committed(&q);
    assert!(f.free(p.base, 4).valid);
    assert!(f.free(q.base, 6).valid);
}

#[test]
fn members_of_a_run_are_not_packed_allocations() {
    let mut f = filler(3);
    let run = f.reserve_hugepages(2).unwrap();
    assert_eq!(run.commit_run, Some((0, 2 * HUGEPAGE_SIZE)));
    f.mark_run_committed(&run);
    assert!(!f.free(run.base, PAGES_PER_HUGEPAGE).valid);
    assert!(!f.trim(run.base, PAGES_PER_HUGEPAGE, 1));
    assert!(!f.free_hugepages(run.base, 1).valid);
    assert!(!f.free_hugepages(run.base + HUGEPAGE_SIZE, 1).valid);
    let report = f.free_hugepages(run.base, 2);
    assert!(report.valid && report.now_empty);
}

#[test]
fn a_run_is_reserved_at_a_given_place_when_that_is_free() {
    let mut f = filler(4);
    let run = f.reserve_hugepages(3).unwrap();
    f.mark_run_committed(&run);
    assert!(f.free_hugepages(run.base, 3).valid);
    assert!(f.reserve_hugepages_at(BASE + HUGEPAGE_SIZE, 3).is_none(), "not opened that far");
    assert!(f.reserve_hugepages_at(BASE + PAGE_SIZE, 1).is_none(), "not a hugepage's base");
    let mid = f.reserve_hugepages_at(BASE + HUGEPAGE_SIZE, 2).unwrap();
    assert_eq!(mid.base, BASE + HUGEPAGE_SIZE);
    assert_eq!(mid.commit_run, None);
    assert!(f.reserve_hugepages_at(BASE, 2).is_none(), "the second hugepage is taken");
    assert!(f.reserve_hugepages_at(BASE, 1).is_some());
}

#[test]
fn full_hugepages_come_last_in_their_bin() {
    let mut f = filler(4);
    let hot = PlaceHints {
        hotness: Hotness::Hot,
        lifetime: Lifetime::Unspecified,
    };
    for _ in 0..2 {
        let p = f.place(PAGES_PER_HUGEPAGE, PAGE_SIZE, hot).unwrap();
        f.mark_committed(&p);
    }
    let p = f.place(PAGES_PER_HUGEPAGE - 4, PAGE_SIZE, hot).unwrap();
    f.mark_committed(&p);
    let list = f.bin_list(HugeBin::HotDense);
    assert_eq!(list.len(), 3);
    assert_eq!(list[0], p.hugepage);
}

#[test]
fn packing_scans_every_bin_but_the_full_one() {
    let mut seen: Vec<HugeBin> = (0..8).map(packing_bin).collect();
    assert_eq!(seen[0], HugeBin::HotDense);
    assert!(!seen.contains(&HugeBin::Full));
    seen.sort_by_key(|b| b.index());
    seen.dedup();
    assert_eq!(seen.len(), 8);
    for b in seen {
        assert!(!b.as_str().is_empty());
    }
    assert_eq!(HugeBin::PartialSubreleased.as_str(), "partial_subreleased");
}

#[test]
fn a_returned_run_counts_until_it_is_backed_again() {
    let mut f = filler(1);
    let a = f.place(4, PAGE_SIZE, neutral()).unwrap();
    f.mark_committed(&a);
    let b = f.place(6, PAGE_SIZE, neutral()).unwrap();
    f.mark_committed(&b);
    assert!(f.free(b.base, 6).valid);
    let before = f.coverage();
    let sr = f.subrelease(b.base, 6, true).unwrap();
    assert_eq!((sr.region_offset, sr.len), (4 * PAGE_SIZE, 6 * PAGE_SIZE));
    assert_eq!(f.coverage().partial_subreleased_bytes, 6 * PAGE_SIZE as u64);
    assert!(f.subrelease(b.base, 6, true).is_none(), "not backed any more");
    f.unsubrelease(&sr);
    assert_eq!(f.coverage(), before);
    assert_eq!(f.subrelease_events(), 1);
}

#[test]
fn statistics_add_up_and_saturate() {
    let mut f = filler(2);
    let p = f.place(3, PAGE_SIZE, neutral()).unwrap();
    f.mark_committed(&p);
    let s = f.coverage();
    let t = s.add(s);
    assert_eq!(t.live_total_bytes, 6 * PAGE_SIZE as u64);
    assert_eq!(t.bins[HugeBin::NearlyEmpty.index()], 2);
    assert_eq!(t.coverage_ratio_bp(), 10_000);
    let huge = HugeStats {
        live_total_bytes: u64::MAX,
        ..s
    };
    assert_eq!(huge.add(s).live_total_bytes, u64::MAX);
}

#[test]
fn walking_the_empty_hugepages_finds_their_backed_runs() {
    let mut f = filler(3);
    let a = f.place(3, 4 * PAGE_SIZE, neutral()).unwrap();
    f.mark_committed(&a);
    let b = f.place(3, 4 * PAGE_SIZE, neutral()).unwrap();
    f.mark_committed(&b);
    assert!(f.free(a.base, 3).valid);
    assert!(f.free(b.base, 3).valid);
    assert_eq!(f.next_empty_backed(0), Some((0, BASE, 6)));
    assert_eq!(f.next_empty_backed(1), None);
    assert_eq!(f.next_committed_run(0, 0), Some((0, 3)));
    assert_eq!(f.next_committed_run(0, 3), Some((4, 3)));
    assert_eq!(f.next_committed_run(0, 7), None);
    assert_eq!(f.empty_backed_hugepages(), 1);
    assert_eq!(f.capacity(), 3);
    assert_eq!(f.region_base(), BASE);
}

#[test]
fn lifetimes_and_hotness_join_upwards() {
    assert_eq!(Lifetime::Short.join(Lifetime::Long), Lifetime::Long);
    assert_eq!(Lifetime::Unspecified.join(Lifetime::Short), Lifetime::Short);
    assert_eq!(Hotness::from_hint(0), Hotness::Cold);
    assert_eq!(Hotness::from_hint(127), Hotness::Neutral);
    assert_eq!(Hotness::from_hint(128), Hotness::Hot);
    assert_eq!(Hotness::Cold.join(Hotness::Hot), Hotness::Hot);
}

#[test]
fn a_bitmap_counts_and_finds_runs() {
    let mut b = PageBitmap::empty();
    b.set_run(3, 5);
    b.set_run(60, 10);
    assert_eq!(b.count(), 15);
    assert_eq!(b.count_run(62, 4), 4);
    assert!(b.run_is_fully_set(60, 10));
    assert!(b.run_is_clear(8, 52));
    assert_eq!(b.find_run_aligned(4, 4), Some(8));
    assert_eq!(b.find_run_aligned(3, 1), Some(0));
    assert_eq!(b.find_run_aligned(59, 1), None);
    assert_eq!(b.seek(0, true), 3);
    assert_eq!(b.seek(3, false), 8);
    assert_eq!(b.seek(70, true), PAGES_PER_HUGEPAGE);
    b.clear_run(60, 10);
    assert_eq!(b.count(), 5);
    let mut c = PageBitmap::empty();
    c.set(4);
    assert!(c.is_subset(&b));
    assert!(!b.is_subset(&c));
    c.clear(4);
    assert!(b.is_disjoint(&c));
    assert!(!c.get(4));
}

#[test]
fn the_region_cache_reserves_again_what_is_free_and_forgets_what_is_not() {
    let mut f = filler(6);
    let mut cache =
        RegionCache::new(&mut BumpArena::new(0x20_0000, 2 * REGION_CACHE_SLOT_BYTES), 2).unwrap();
    let a = f.reserve_hugepages(2).unwrap();
    f.mark_run_committed(&a);
    let b = f.reserve_hugepages(2).unwrap();
    f.mark_run_committed(&b);
    assert!(f.free_hugepages(a.base, 2).valid);
    assert!(f.free_hugepages(b.base, 2).valid);
    assert!(cache.store(a.base, 2));
    assert!(cache.store(b.base, 2));
    assert!(!cache.store(a.base, 2), "both entries are used");
    assert_eq!(cache.live(), 2);
    let one = f.reserve_hugepages_at(a.base, 1).unwrap();
    f.mark_run_committed(&one);
    let run = cache.take(2, &mut f).expect("the second entry is still free");
    assert_eq!(run.base, b.base);
    assert_eq!(cache.live(), 0, "the first was dropped on the way");
    assert!(cache.take(2, &mut f).is_none());
    assert!(cache.store(a.base, 3));
    cache.clear();
    assert_eq!(cache.live(), 0);
    assert!(RegionCache::new(&mut BumpArena::new(0x20_0000, 1 << 10), 0).is_none());
    assert!(RegionCache::new(&mut BumpArena::new(0x20_0000, 8), 1).is_none());
}

#[test]
fn metadata_is_vended_in_order_until_it_runs_out() {
    let mut m = BumpArena::new(0x1001, 64);
    assert_eq!(m.vend(3, 1), Some(0x1001));
    assert_eq!(m.vend(8, 8), Some(0x1008));
    assert_eq!(m.vend(16, 16), Some(0x1010));
    assert_eq!(m.vend(64, 1), None);
    assert_eq!(m.vend(33, 1), Some(0x1020));
    assert_eq!(m.vend(1, 1), None);
    assert!(m.contains(0x1001) && m.contains(0x1040));
    assert!(!m.contains(0x1041) && !m.contains(0x1000));
}
