//! The hugepage backend over a provider that can be made to refuse.
use std::cell::{Cell, RefCell};

use topo_core::arena::DecayConfig;
use topo_core::backend::{BackendError, Region, RegionCacheHook, TopoBackingProvider};
use topo_core::bitmap::{HUGEPAGE_SIZE, PAGES_PER_HUGEPAGE, PAGE_SIZE};
use topo_core::bootstrap::BumpArena;
use topo_core::flags::{Hints, HugepagePolicy};
use topo_core::huge_backend::{HugeConfig, HugeError, HugePageBackend};
use topo_core::huge_bin::{Hotness, HugeBin, PlaceHints};
use topo_core::ids::ArenaId;
use topo_core::release::{ReleaseController, ReleaseInputs};

fn meta(bytes: usize) -> BumpArena {
    BumpArena::new(0x10_0000, bytes)
}

struct HostProvider {
    next: Cell<usize>,
    owned: RefCell<Vec<usize>>,
    fail_reserve: Cell<u32>,
    fail_commit: Cell<u32>,
    fail_revoke: Cell<u32>,
    fail_decommit: Cell<u32>,
    commits: Cell<u32>,
    decommits: Cell<u32>,
    revokes: Cell<u32>,
}

impl HostProvider {
    fn new() -> Self {
        Self {
            next: Cell::new(0x4000_0000_0000),
            owned: RefCell::new(Vec::new()),
            fail_reserve: Cell::new(0),
            fail_commit: Cell::new(0),
            fail_revoke: Cell::new(0),
            fail_decommit: Cell::new(0),
            commits: Cell::new(0),
            decommits: Cell::new(0),
            revokes: Cell::new(0),
        }
    }
    fn fail_next_reserve(&self) {
        self.fail_reserve.set(1);
    }
    fn fail_next_commit(&self) {
        self.fail_commit.set(1);
    }
    fn fail_next_revoke(&self) {
        self.fail_revoke.set(1);
    }
    fn fail_next_decommit(&self) {
        self.fail_decommit.set(1);
    }
}

impl TopoBackingProvider for HostProvider {
    fn reserve(&mut self, _a: ArenaId, size: usize, align: usize) -> Result<Region, BackendError> {
        if self.fail_reserve.replace(0) == 1 {
            return Err(BackendError::OutOfMemory);
        }
        if size == 0 || !align.is_power_of_two() {
            return Err(BackendError::InvalidRequest);
        }
        let base = (self.next.get() + align - 1) / align * align;
        self.next.set(base + size);
        self.owned.borrow_mut().push(base);
        Ok(Region { base, len: size })
    }
    fn commit(&mut self, _r: Region, _o: usize, _l: usize) -> Result<(), BackendError> {
        self.commits.set(self.commits.get() + 1);
        if self.fail_commit.replace(0) == 1 {
            return Err(BackendError::OutOfMemory);
        }
        Ok(())
    }
    fn decommit(&mut self, region: Region, offset: usize, len: usize) -> Result<(), BackendError> {
        self.decommits.set(self.decommits.get() + 1);
        if self.fail_decommit.replace(0) == 1 {
            return Err(BackendError::OutOfMemory);
        }
        assert!(offset + len <= region.len);
        Ok(())
    }
    fn revoke_descendants(&mut self, _a: ArenaId, _r: Region) -> Result<(), BackendError> {
        self.revokes.set(self.revokes.get() + 1);
        if self.fail_revoke.replace(0) == 1 {
            return Err(BackendError::InvalidRequest);
        }
        Ok(())
    }
    fn release(&mut self, _a: ArenaId, region: Region) -> Result<(), BackendError> {
        let mut owned = self.owned.borrow_mut();
        let idx = owned
            .iter()
            .position(|&b| b == region.base)
            .ok_or(BackendError::InvalidRequest)?;
        owned.swap_remove(idx);
        Ok(())
    }
    fn bind_node(&mut self, _r: Region, _n: u32) -> Result<(), BackendError> {
        Ok(())
    }
    fn name(&self) -> &'static str {
        "host-huge-test"
    }
}

fn backend(capacity: usize) -> HugePageBackend<HostProvider> {
    HugePageBackend::new(
        HostProvider::new(),
        &mut meta(1 << 20),
        ArenaId::default_arena(),
        HugeConfig::with_capacity(capacity),
    )
    .expect("hugepage backend")
}

fn touch(region: Region) {
    assert!(region.len > 0);
    assert_eq!(region.base % PAGE_SIZE, 0);
}

#[test]
fn packed_allocation_is_writable_and_frees() {
    let mut b = backend(2);
    let r = b
        .allocate(64 * 1024, PAGE_SIZE, PlaceHints::hot(Hotness::Neutral))
        .expect("alloc");
    assert_eq!(r.len, 64 * 1024);
    assert_eq!(r.base % PAGE_SIZE, 0);
    touch(r);
    let cov = b.coverage();
    assert_eq!(cov.live_total_bytes, 64 * 1024);
    assert!(b.free_region(r), "free of a live region succeeds");
    assert_eq!(b.coverage().live_total_bytes, 0);
    assert!(b.check_invariants());

    assert!(!b.free_region(r));
    assert!(b.check_invariants());
}

#[test]
fn region_cache_hook_round_trips_through_the_trait() {
    let mut b = backend(2);
    let r = b
        .try_alloc(96 * 1024, PAGE_SIZE, Hints::default())
        .expect("hook alloc");
    touch(r);
    assert!(b.try_cache(r), "hook free returns the region");

    let foreign = Region {
        base: 0x1000,
        len: PAGE_SIZE,
    };
    assert!(!b.try_cache(foreign));
    assert!(b.check_invariants());
}

#[test]
fn multi_hugepage_run_serves_then_region_cache_reuses() {
    let mut b = backend(4);

    let bytes = HUGEPAGE_SIZE + PAGE_SIZE;
    let r = b
        .allocate(bytes, PAGE_SIZE, PlaceHints::hot(Hotness::Neutral))
        .expect("run");
    assert_eq!(
        r.len, bytes,
        "usable is the page-rounded request, not rounded up"
    );
    assert_eq!(r.base % HUGEPAGE_SIZE, 0, "hugepage-aligned");
    touch(r);
    let touched_after_first = b.touched_hugepages();
    assert_eq!(touched_after_first, 2, "two hugepages reserved for the run");
    assert!(b.free_region(r), "freed -> cached in the region cache");

    let r2 = b
        .allocate(bytes, PAGE_SIZE, PlaceHints::hot(Hotness::Neutral))
        .expect("reuse");
    assert_eq!(r2.base, r.base, "region-cache hit reuses the same run");
    assert_eq!(
        b.touched_hugepages(),
        touched_after_first,
        "no extra reservation"
    );
    assert!(b.free_region(r2));
    assert!(b.check_invariants());
}

#[test]
fn region_cache_prunes_a_stale_entry_without_double_vending() {
    let mut b = backend(4);
    let big = HUGEPAGE_SIZE + PAGE_SIZE;
    let r = b
        .allocate(big, PAGE_SIZE, PlaceHints::hot(Hotness::Neutral))
        .expect("run");
    assert!(b.free_region(r), "freed -> empty-backed + cached");

    let one = b
        .allocate(HUGEPAGE_SIZE, PAGE_SIZE, PlaceHints::hot(Hotness::Neutral))
        .expect("1-hp");
    assert_eq!(
        one.base, r.base,
        "scan reuses the freed run's head hugepage"
    );

    let r2 = b
        .allocate(big, PAGE_SIZE, PlaceHints::hot(Hotness::Neutral))
        .expect("run2");
    assert_ne!(
        r2.base, one.base,
        "fresh run does not alias the live allocation"
    );
    assert!(b.free_region(one));
    assert!(b.free_region(r2));
    assert!(b.check_invariants());
}

#[test]
fn commit_failure_rolls_back_and_stays_well_formed() {
    let mut b = backend(2);
    b.provider().fail_next_commit();
    assert!(
        b.allocate(64 * 1024, PAGE_SIZE, PlaceHints::hot(Hotness::Neutral))
            .is_none(),
        "commit failure => allocation fails cleanly"
    );
    assert_eq!(b.coverage().live_total_bytes, 0, "nothing left live");
    assert!(b.check_invariants());

    let r = b
        .allocate(64 * 1024, PAGE_SIZE, PlaceHints::hot(Hotness::Neutral))
        .expect("recovers");
    touch(r);
    assert!(b.free_region(r));
    assert!(b.check_invariants());
}

#[test]
fn multi_hugepage_run_commit_failure_rolls_back() {
    let mut b = backend(4);
    b.provider().fail_next_commit();
    let bytes = HUGEPAGE_SIZE + PAGE_SIZE;
    assert!(
        b.allocate(bytes, PAGE_SIZE, PlaceHints::default())
            .is_none(),
        "commit failure on the run path => allocation fails cleanly"
    );
    assert_eq!(b.coverage().live_total_bytes, 0, "no hugepage left live");
    assert_eq!(
        b.touched_hugepages(),
        2,
        "the two reserved hugepages are now empty"
    );
    assert!(b.check_invariants());

    let r = b
        .allocate(bytes, PAGE_SIZE, PlaceHints::default())
        .expect("recovers");
    touch(r);
    assert!(b.free_region(r));
    assert!(b.check_invariants());
}

#[test]
fn subrelease_decommit_failure_recommits_and_refuses() {
    let mut b = backend(1);
    let a = b
        .allocate(8 * PAGE_SIZE, PAGE_SIZE, PlaceHints::default())
        .expect("a");
    let c = b
        .allocate(8 * PAGE_SIZE, PAGE_SIZE, PlaceHints::default())
        .expect("c");
    touch(a);
    touch(c);
    assert!(b.free_region(c));
    b.provider().fail_next_decommit();
    assert_eq!(
        b.subrelease(c.base, 8, false),
        0,
        "a decommit failure rolls the subrelease back"
    );

    assert_eq!(b.coverage().partial_subreleased_bytes, 0);
    assert!(b.check_invariants());

    assert_eq!(b.subrelease(c.base, 8, false), 8 * PAGE_SIZE);
    assert!(b.free_region(a));
    assert!(b.check_invariants());
}

#[test]
fn subrelease_decommits_a_sparse_run_and_h005_holds() {
    let mut b = backend(1);

    let a = b
        .allocate(8 * PAGE_SIZE, PAGE_SIZE, PlaceHints::hot(Hotness::Neutral))
        .expect("a");
    let c = b
        .allocate(8 * PAGE_SIZE, PAGE_SIZE, PlaceHints::hot(Hotness::Neutral))
        .expect("c");
    touch(a);
    touch(c);
    assert!(b.free_region(c));

    let n = b.subrelease(c.base, 8, false);
    assert_eq!(
        n,
        8 * PAGE_SIZE,
        "the sparse free run is returned to the OS"
    );
    assert_eq!(b.coverage().partial_subreleased_bytes, 8 * PAGE_SIZE as u64);

    assert_eq!(b.subrelease(a.base, 8, true), 0);
    assert!(b.free_region(a));
    assert!(b.check_invariants());
}

#[test]
fn mark_cold_enables_subrelease_of_a_dense_hugepage() {
    let mut b = backend(1);
    let n = PAGES_PER_HUGEPAGE;
    let a = b
        .allocate(
            (n / 2) * PAGE_SIZE,
            PAGE_SIZE,
            PlaceHints::hot(Hotness::Neutral),
        )
        .expect("a");
    let c = b
        .allocate(
            (n / 2) * PAGE_SIZE,
            PAGE_SIZE,
            PlaceHints::hot(Hotness::Neutral),
        )
        .expect("c");
    touch(a);
    touch(c);
    assert!(b.free_region(c));

    assert_eq!(b.subrelease(c.base, n / 2, false), 0);

    assert!(b.mark_cold(c.base));
    assert_eq!(
        b.subrelease(c.base, n / 2, false),
        (n / 2) * PAGE_SIZE
    );
    assert!(b.free_region(a));
    assert!(b.check_invariants());
}

#[test]
fn subrelease_revokes_before_decommit_and_a_revoke_failure_refuses() {
    let mut b = backend(1);
    let a = b
        .allocate(8 * PAGE_SIZE, PAGE_SIZE, PlaceHints::default())
        .expect("a");
    let c = b
        .allocate(8 * PAGE_SIZE, PAGE_SIZE, PlaceHints::default())
        .expect("c");
    touch(a);
    touch(c);
    assert!(b.free_region(c));
    let decommits_before = b.provider().decommits.get();

    b.provider().fail_next_revoke();
    assert_eq!(
        b.subrelease(c.base, 8, false),
        0,
        "a revoke failure refuses the subrelease"
    );
    assert_eq!(
        b.provider().decommits.get(),
        decommits_before,
        "no decommit after a failed revoke"
    );
    assert!(
        b.provider().revokes.get() >= 1,
        "revoke was attempted"
    );

    assert_eq!(b.subrelease(c.base, 8, false), 8 * PAGE_SIZE);
    assert!(
        b.provider().decommits.get() > decommits_before,
        "decommit followed a successful revoke"
    );
    assert!(b.free_region(a));
    assert!(b.check_invariants());
}

#[test]
fn release_empty_excess_shrinks_the_hugecache_to_the_reserve() {
    let mut b = backend(4);
    let regions: Vec<Region> = (0..4)
        .map(|_| {
            b.allocate(HUGEPAGE_SIZE, PAGE_SIZE, PlaceHints::default())
                .expect("whole hugepage")
        })
        .collect();
    for r in &regions {
        assert!(b.free_region(*r));
    }

    let cov = b.coverage();
    assert_eq!(cov.empty_backed_bytes, 4 * HUGEPAGE_SIZE as u64);
    assert_eq!(cov.empty_released_bytes, 0);

    let released = b.release_empty_excess(1);
    assert_eq!(
        released,
        3 * HUGEPAGE_SIZE,
        "three hugepages' backing returned"
    );
    let cov = b.coverage();
    assert_eq!(cov.empty_released_bytes, 3 * HUGEPAGE_SIZE as u64);
    assert_eq!(
        cov.empty_backed_bytes, HUGEPAGE_SIZE as u64,
        "one kept as reserve"
    );

    assert_eq!(b.release_empty_excess(1), 0);
    assert!(b.check_invariants());
}

#[test]
fn teardown_releases_exactly_once() {
    let mut b = backend(2);
    let r = b
        .allocate(32 * 1024, PAGE_SIZE, PlaceHints::hot(Hotness::Neutral))
        .expect("alloc");
    touch(r);
    assert!(b.free_region(r));
    assert!(
        b.teardown().is_ok(),
        "explicit teardown surfaces the release result"
    );
    assert!(b.teardown().is_ok(), "idempotent");

}

#[test]
fn construction_rolls_back_reservation_on_metadata_exhaustion() {
    let r = HugePageBackend::new(
        HostProvider::new(),
        &mut meta(8),
        ArenaId::default_arena(),
        HugeConfig::with_capacity(64),
    );
    assert!(matches!(r, Err(HugeError::NoSpace)));
}

#[test]
fn new_surfaces_a_provider_reserve_failure_without_taking_a_region() {
    let prov = HostProvider::new();
    prov.fail_next_reserve();
    let r = HugePageBackend::new(
        prov,
        &mut meta(1 << 20),
        ArenaId::default_arena(),
        HugeConfig::with_capacity(4),
    );
    assert!(
        matches!(r, Err(HugeError::Backend(BackendError::OutOfMemory))),
        "a provider reserve failure surfaces as HugeError::Backend"
    );
}

#[test]
fn exactly_one_hugepage_is_served_through_the_packed_path() {
    let mut b = backend(3);
    let exact = b
        .allocate(HUGEPAGE_SIZE, PAGE_SIZE, PlaceHints::hot(Hotness::Neutral))
        .expect("exactly one hugepage");
    assert_eq!(exact.len, HUGEPAGE_SIZE);
    assert_eq!(exact.base % PAGE_SIZE, 0);
    touch(exact);
    assert_eq!(b.touched_hugepages(), 1, "served from a single hugepage");
    let cov = b.coverage();
    assert_eq!(cov.live_total_bytes, HUGEPAGE_SIZE as u64);
    assert_eq!(cov.bins[HugeBin::Full as usize], 1, "filled to Full");

    let over = b
        .allocate(
            HUGEPAGE_SIZE + PAGE_SIZE,
            PAGE_SIZE,
            PlaceHints::hot(Hotness::Neutral),
        )
        .expect("one page over => run path");
    assert_eq!(
        over.base % HUGEPAGE_SIZE,
        0,
        "run is hugepage-aligned"
    );
    assert_eq!(b.touched_hugepages(), 3, "the run took two more hugepages");
    assert!(b.free_region(exact));
    assert!(b.free_region(over));
    assert!(b.check_invariants());
}

#[test]
fn release_empty_excess_zero_releases_the_whole_hugecache() {
    let mut b = backend(3);
    let regions: Vec<Region> = (0..3)
        .map(|_| {
            b.allocate(HUGEPAGE_SIZE, PAGE_SIZE, PlaceHints::default())
                .expect("whole hugepage")
        })
        .collect();
    for r in &regions {
        assert!(b.free_region(*r));
    }
    assert_eq!(b.coverage().empty_backed_bytes, 3 * HUGEPAGE_SIZE as u64);
    let released = b.release_empty_excess(0);
    assert_eq!(
        released,
        3 * HUGEPAGE_SIZE,
        "reserve 0 releases every empty hugepage"
    );
    let cov = b.coverage();
    assert_eq!(cov.empty_backed_bytes, 0, "nothing kept");
    assert_eq!(cov.empty_released_bytes, 3 * HUGEPAGE_SIZE as u64);
    assert_eq!(b.release_empty_excess(0), 0, "idempotent once drained");
    assert!(b.check_invariants());
}

#[test]
fn release_empty_excess_reclaims_partially_committed_empties() {
    let mut b = backend(4);

    let a = b
        .allocate(120 * PAGE_SIZE, PAGE_SIZE, PlaceHints::default())
        .expect("a");
    let c = b
        .allocate(120 * PAGE_SIZE, PAGE_SIZE, PlaceHints::default())
        .expect("c");
    assert_ne!(
        a.base / HUGEPAGE_SIZE,
        c.base / HUGEPAGE_SIZE,
        "the two 120-page allocs occupy separate hugepages"
    );
    touch(a);
    touch(c);
    assert!(b.free_region(a));
    assert!(b.free_region(c));

    let cov = b.coverage();
    assert_eq!(
        cov.empty_backed_bytes,
        2 * 120 * PAGE_SIZE as u64,
        "partially-committed empties"
    );
    assert_eq!(cov.empty_released_bytes, 0);

    let released = b.release_empty_excess(0);
    assert_eq!(
        released,
        2 * 120 * PAGE_SIZE,
        "both partially-committed empties' committed RSS reclaimed"
    );
    let cov = b.coverage();
    assert_eq!(cov.empty_backed_bytes, 0, "no committed RSS left");
    assert_eq!(cov.empty_released_bytes, 2 * 120 * PAGE_SIZE as u64);
    assert!(b.check_invariants());
}

#[test]
fn release_empty_excess_reclaims_a_committed_set_with_a_hole() {
    let mut b = backend(4);

    let a = b
        .allocate(3 * PAGE_SIZE, 4 * PAGE_SIZE, PlaceHints::default())
        .expect("a");
    let c = b
        .allocate(3 * PAGE_SIZE, 4 * PAGE_SIZE, PlaceHints::default())
        .expect("c");
    assert_eq!(
        a.base / HUGEPAGE_SIZE,
        c.base / HUGEPAGE_SIZE,
        "both over-aligned runs pack into one hugepage"
    );
    assert_eq!(
        c.base - a.base,
        4 * PAGE_SIZE,
        "the second run is stride-aligned, leaving page 3 uncommitted"
    );
    touch(a);
    touch(c);
    assert!(b.free_region(a));
    assert!(b.free_region(c));

    let cov = b.coverage();
    assert_eq!(cov.empty_backed_bytes, 6 * PAGE_SIZE as u64);

    let released = b.release_empty_excess(0);
    assert_eq!(
        released,
        6 * PAGE_SIZE,
        "both committed runs reclaimed across the hole"
    );
    let cov = b.coverage();
    assert_eq!(cov.empty_backed_bytes, 0, "no committed RSS left");
    assert_eq!(cov.empty_released_bytes, 6 * PAGE_SIZE as u64);
    assert_eq!(b.release_empty_excess(0), 0, "idempotent once drained");
    assert!(b.check_invariants());
}

#[test]
fn release_empty_excess_reclaims_a_partially_subreleased_empty() {
    let mut b = backend(1);

    let a = b
        .allocate(8 * PAGE_SIZE, PAGE_SIZE, PlaceHints::default())
        .expect("a");
    touch(a);
    assert!(b.free_region(a));
    assert_eq!(b.release_empty_excess(0), 8 * PAGE_SIZE);

    let c = b
        .allocate(2 * PAGE_SIZE, PAGE_SIZE, PlaceHints::default())
        .expect("c");
    touch(c);
    assert!(b.free_region(c));
    let cov = b.coverage();
    assert_eq!(
        cov.empty_backed_bytes,
        2 * PAGE_SIZE as u64,
        "empty, but still 2 committed pages of RSS"
    );
    assert_eq!(cov.empty_released_bytes, 6 * PAGE_SIZE as u64);
    assert_eq!(
        b.empty_backed_hugepages(),
        1,
        "the reserve must see the same hugepage the release walk does"
    );

    assert_eq!(
        b.release_empty_excess(0),
        2 * PAGE_SIZE,
        "a partially-subreleased empty is still reclaimable"
    );
    let cov = b.coverage();
    assert_eq!(cov.empty_backed_bytes, 0);
    assert_eq!(cov.empty_released_bytes, 8 * PAGE_SIZE as u64);
    assert_eq!(b.empty_backed_hugepages(), 0, "nothing left to reclaim");
    assert!(b.check_invariants());
}

#[test]
fn the_backend_is_inert_after_teardown() {
    let mut b = backend(2);
    let r = b
        .allocate(8 * PAGE_SIZE, PAGE_SIZE, PlaceHints::default())
        .expect("alloc");
    let base = r.base;
    assert!(b.teardown().is_ok());
    assert!(
        b.allocate(64 * 1024, PAGE_SIZE, PlaceHints::default())
            .is_none(),
        "no allocation may be served after teardown"
    );
    assert_eq!(
        b.subrelease(base, 8, true),
        0,
        "no decommit on the released (possibly re-mapped) region"
    );
    assert_eq!(
        b.release_empty_excess(0),
        0,
        "the demand-reserve shrink is inert after teardown"
    );
    assert!(!b.free_region(r), "free is inert after teardown");

}

#[test]
fn release_tick_rounds_a_sub_hugepage_budget_up_to_one_hugepage() {
    let mut b = backend(4);
    let regions: Vec<Region> = (0..3)
        .map(|_| {
            b.allocate(HUGEPAGE_SIZE, PAGE_SIZE, PlaceHints::default())
                .expect("hp")
        })
        .collect();
    for r in &regions {
        assert!(b.free_region(*r));
    }

    let cfg = DecayConfig {
        release_rate_bytes_per_sec: 1024,
        ..DecayConfig::low_rss()
    };
    let mut c = ReleaseController::new(cfg);
    let inputs = ReleaseInputs {
        cgroup_current: 95,
        cgroup_max: 100,
        ..ReleaseInputs::default()
    };
    let _ = b.release_tick(&mut c, 0, inputs);
    let (plan, released) = b.release_tick(&mut c, 1, inputs);
    assert!(
        plan.release_empty_hugepages_bytes > 0,
        "rung 2 wants to release"
    );
    assert!(
        plan.release_empty_hugepages_bytes < HUGEPAGE_SIZE as u64,
        "but the rate cap holds the budget below one hugepage"
    );
    assert_eq!(
        released, HUGEPAGE_SIZE as u64,
        "rounds up to release one whole hugepage - progress, not zero"
    );
    assert!(b.check_invariants());
}

#[test]
fn try_alloc_declines_a_no_hugepage_request() {
    let mut b = backend(2);
    let avoid = Hints {
        hugepage: HugepagePolicy::Avoid,
        ..Hints::default()
    };
    assert!(
        b.try_alloc(96 * 1024, PAGE_SIZE, avoid).is_none(),
        "NO_HUGEPAGE declines the hugepage backend (falls through)"
    );
    let r = b
        .try_alloc(96 * 1024, PAGE_SIZE, Hints::default())
        .expect("a default request is still served");
    assert!(b.try_cache(r));
    assert!(b.check_invariants());
}

#[test]
fn free_region_rejects_a_partial_or_interior_region() {
    let mut b = backend(4);

    let a = b
        .allocate(16 * PAGE_SIZE, PAGE_SIZE, PlaceHints::default())
        .expect("a");
    touch(a);
    let shortened = Region {
        base: a.base,
        len: 8 * PAGE_SIZE,
    };
    assert!(
        !b.free_region(shortened),
        "a shortened (partial-prefix) region is rejected"
    );
    let interior = Region {
        base: a.base + 4 * PAGE_SIZE,
        len: 8 * PAGE_SIZE,
    };
    assert!(
        !b.free_region(interior),
        "an interior subrange region is rejected"
    );

    assert_eq!(b.coverage().live_total_bytes, 16 * PAGE_SIZE as u64);
    assert!(b.free_region(a), "the exact region frees");

    let run = b
        .allocate(HUGEPAGE_SIZE + PAGE_SIZE, PAGE_SIZE, PlaceHints::default())
        .expect("run");
    touch(run);

    let run_prefix = Region {
        base: run.base,
        len: HUGEPAGE_SIZE,
    };
    assert!(
        !b.free_region(run_prefix),
        "a single-hugepage prefix of a multi-hugepage run is rejected"
    );

    let run_oversized = Region {
        base: run.base,
        len: 3 * HUGEPAGE_SIZE,
    };
    assert!(
        !b.free_region(run_oversized),
        "a region larger than the run is rejected"
    );
    assert!(b.free_region(run), "the exact run frees");
    assert!(b.check_invariants());
}

#[test]
fn try_cache_revoking_revokes_before_recycling() {
    let mut b = backend(4);
    let r = b
        .allocate(HUGEPAGE_SIZE + PAGE_SIZE, PAGE_SIZE, PlaceHints::default())
        .expect("run");
    touch(r);
    let revokes_before = b.provider().revokes.get();
    assert!(
        b.try_cache_revoking(r, ArenaId::default_arena()),
        "the revoking cache path takes the region"
    );
    assert!(
        b.provider().revokes.get() > revokes_before,
        "the region's descendants were revoked before it was recycled"
    );
    assert!(b.check_invariants());

    let r2 = b
        .allocate(HUGEPAGE_SIZE + PAGE_SIZE, PAGE_SIZE, PlaceHints::default())
        .expect("run2");
    touch(r2);
    b.provider().fail_next_revoke();
    assert!(
        !b.try_cache_revoking(r2, ArenaId::default_arena()),
        "a revoke failure refuses the cache (region not recycled)"
    );
    assert!(b.free_region(r2), "the still-owned region frees normally");
    assert!(b.check_invariants());
}
