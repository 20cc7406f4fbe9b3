//! Properties of the hugepage backend on concrete values.
use std::cell::{Cell, RefCell};

use topo_core::arena::DecayConfig;
use topo_core::backend::{BackendError, Region, RegionCacheHook, TopoBackingProvider};
use topo_core::bitmap::{HUGEPAGE_SIZE, PAGE_SIZE};
use topo_core::bootstrap::BumpArena;
use topo_core::flags::Hints;
use topo_core::huge_backend::{HugeConfig, HugeError, HugePageBackend};
use topo_core::huge_bin::PlaceHints;
use topo_core::ids::ArenaId;
use topo_core::release::{ReleaseController, ReleaseInputs};

const BASE: usize = 0x4000_0000_0000;

/// Refuses the decommits of which a predicate says so, and records every call.
struct Recorder {
    refuse: fn(usize, usize) -> bool,
    refuse_commit: Cell<bool>,
    calls: RefCell<Vec<(&'static str, usize, usize)>>,
}

impl TopoBackingProvider for Recorder {
    fn reserve(&mut self, _a: ArenaId, size: usize, _align: usize) -> Result<Region, BackendError> {
        self.calls.borrow_mut().push(("reserve", BASE, size));
        Ok(Region {
            base: BASE,
            len: size,
        })
    }
    fn commit(&mut self, _r: Region, offset: usize, len: usize) -> Result<(), BackendError> {
        self.calls.borrow_mut().push(("commit", offset, len));
        if self.refuse_commit.get() {
            Err(BackendError::OutOfMemory)
        } else {
            Ok(())
        }
    }
    fn decommit(&mut self, _r: Region, offset: usize, len: usize) -> Result<(), BackendError> {
        self.calls.borrow_mut().push(("decommit", offset, len));
        if (self.refuse)(offset, len) {
            Err(BackendError::OutOfMemory)
        } else {
            Ok(())
        }
    }
    fn revoke_descendants(&mut self, _a: ArenaId, r: Region) -> Result<(), BackendError> {
        self.calls.borrow_mut().push(("revoke", r.base, r.len));
        Ok(())
    }
    fn release(&mut self, _a: ArenaId, r: Region) -> Result<(), BackendError> {
        self.calls.borrow_mut().push(("release", r.base, r.len));
        Ok(())
    }
    fn bind_node(&mut self, r: Region, os_node: u32) -> Result<(), BackendError> {
        self.calls
            .borrow_mut()
            .push(("bind", r.base, os_node as usize));
        if os_node == 9 {
            Err(BackendError::InvalidRequest)
        } else {
            Ok(())
        }
    }
    fn name(&self) -> &'static str {
        "recorder"
    }
}

fn backend(cap: usize, refuse: fn(usize, usize) -> bool) -> HugePageBackend<Recorder> {
    HugePageBackend::new(
        Recorder {
            refuse,
            refuse_commit: Cell::new(false),
            calls: RefCell::new(Vec::new()),
        },
        &mut BumpArena::new(0x10_0000, 1 << 20),
        ArenaId::default_arena(),
        HugeConfig::with_capacity(cap),
    )
    .expect("backend")
}

#[test]
fn a_backend_of_no_or_too_many_hugepages_is_refused_before_the_provider_is_asked() {
    for cap in [0, usize::MAX] {
        let r = HugePageBackend::new(
            Recorder {
                refuse: |_, _| false,
                refuse_commit: Cell::new(false),
                calls: RefCell::new(Vec::new()),
            },
            &mut BumpArena::new(0x10_0000, 1 << 20),
            ArenaId::default_arena(),
            HugeConfig::with_capacity(cap),
        );
        assert!(matches!(r, Err(HugeError::InvalidRequest)));
    }
}

#[test]
fn an_allocation_asks_for_the_backing_that_is_missing() {
    let mut b = backend(4, |_, _| false);
    let r = b.allocate(3 * PAGE_SIZE + 1, PAGE_SIZE, PlaceHints::default()).unwrap();
    assert_eq!((r.base, r.len), (BASE, 4 * PAGE_SIZE));
    assert!(b.free_region(r));
    let s = b.allocate(4 * PAGE_SIZE, PAGE_SIZE, PlaceHints::default()).unwrap();
    assert_eq!(s, r);
    let calls = b.provider().calls.borrow().clone();
    assert_eq!(
        calls,
        vec![("reserve", BASE, 4 * HUGEPAGE_SIZE), ("commit", 0, 4 * PAGE_SIZE)]
    );
    assert_eq!(b.backend_name(), "recorder");
    assert_eq!(b.reserved_region().len, 4 * HUGEPAGE_SIZE);
    assert!(b.owns_addr(BASE) && !b.owns_addr(BASE + 4 * HUGEPAGE_SIZE));
}

#[test]
fn malformed_requests_are_declined() {
    let mut b = backend(2, |_, _| false);
    assert!(b.allocate(0, PAGE_SIZE, PlaceHints::default()).is_none());
    assert!(b.allocate(PAGE_SIZE, 3, PlaceHints::default()).is_none());
    assert!(b.allocate(PAGE_SIZE, 0, PlaceHints::default()).is_none());
    assert!(b.allocate(PAGE_SIZE, 2 * HUGEPAGE_SIZE, PlaceHints::default()).is_none());
    assert!(b.allocate(usize::MAX, PAGE_SIZE, PlaceHints::default()).is_none());
    assert!(b.allocate(3 * HUGEPAGE_SIZE, PAGE_SIZE, PlaceHints::default()).is_none());
    let r = b.allocate(PAGE_SIZE, HUGEPAGE_SIZE, PlaceHints::default()).unwrap();
    assert_eq!(r.base % HUGEPAGE_SIZE, 0);
}

#[test]
fn a_refused_commit_leaves_every_page_as_it_was() {
    let mut b = backend(4, |_, _| false);
    let keep = b.allocate(PAGE_SIZE, PAGE_SIZE, PlaceHints::default()).unwrap();
    let before = b.coverage();
    b.provider().refuse_commit.set(true);
    assert!(b.allocate(PAGE_SIZE, PAGE_SIZE, PlaceHints::default()).is_none());
    assert_eq!(b.coverage(), before);
    assert!(b
        .allocate(HUGEPAGE_SIZE + 1, PAGE_SIZE, PlaceHints::default())
        .is_none());
    assert_eq!(b.coverage().live_total_bytes, before.live_total_bytes);
    b.provider().refuse_commit.set(false);
    assert!(b.free_region(keep));
}

#[test]
fn the_empty_hugepages_beyond_the_reserve_are_drained_run_by_run() {
    // The second run of the drained hugepage is refused, and does not stop the third.
    let mut b = backend(3, |offset, _| offset % HUGEPAGE_SIZE == 4 * PAGE_SIZE);
    let whole = b.allocate(HUGEPAGE_SIZE, PAGE_SIZE, PlaceHints::default()).unwrap();
    let runs: Vec<Region> = (0..3)
        .map(|_| {
            b.allocate(3 * PAGE_SIZE, 4 * PAGE_SIZE, PlaceHints::default())
                .unwrap()
        })
        .collect();
    assert!(b.free_region(whole));
    for r in &runs {
        assert!(b.free_region(*r));
    }
    b.provider().calls.borrow_mut().clear();
    assert_eq!(b.release_empty_excess(1), 6 * PAGE_SIZE);
    let h = HUGEPAGE_SIZE;
    let calls = b.provider().calls.borrow().clone();
    assert_eq!(
        calls,
        vec![
            ("revoke", BASE + h, 3 * PAGE_SIZE),
            ("decommit", h, 3 * PAGE_SIZE),
            ("revoke", BASE + h + 4 * PAGE_SIZE, 3 * PAGE_SIZE),
            ("decommit", h + 4 * PAGE_SIZE, 3 * PAGE_SIZE),
            ("revoke", BASE + h + 8 * PAGE_SIZE, 3 * PAGE_SIZE),
            ("decommit", h + 8 * PAGE_SIZE, 3 * PAGE_SIZE),
        ]
    );
    let cov = b.coverage();
    assert_eq!(cov.empty_backed_bytes, (HUGEPAGE_SIZE + 3 * PAGE_SIZE) as u64);
    assert_eq!(cov.empty_released_bytes, 6 * PAGE_SIZE as u64);
    assert!(b.check_invariants());
}

#[test]
fn the_backed_bytes_are_accounted_for() {
    let mut b = backend(3, |_, _| false);
    let whole = b.allocate(HUGEPAGE_SIZE, PAGE_SIZE, PlaceHints::default()).unwrap();
    let kept = b.allocate(2 * PAGE_SIZE, PAGE_SIZE, PlaceHints::default()).unwrap();
    let freed = b.allocate(3 * PAGE_SIZE, PAGE_SIZE, PlaceHints::default()).unwrap();
    assert!(b.free_region(whole));
    assert!(b.free_region(freed));
    let cov = b.coverage();
    assert_eq!(cov.live_total_bytes, 2 * PAGE_SIZE as u64);
    assert_eq!(cov.fragmentation_bytes, 3 * PAGE_SIZE as u64);
    assert_eq!(cov.empty_backed_bytes, HUGEPAGE_SIZE as u64);
    let s = b.state_bytes();
    assert_eq!(
        cov.live_total_bytes + cov.fragmentation_bytes + cov.empty_backed_bytes,
        (s.active + s.dirty) as u64,
        "all that is backed"
    );
    assert!(b.free_region(kept));
}

#[test]
fn the_states_of_a_reservation_add_up() {
    let mut b = backend(2, |_, _| false);
    let a = b.allocate(2 * PAGE_SIZE, PAGE_SIZE, PlaceHints::default()).unwrap();
    let c = b.allocate(3 * PAGE_SIZE, PAGE_SIZE, PlaceHints::default()).unwrap();
    assert!(b.free_region(c));
    let s = b.state_bytes();
    assert_eq!((s.active, s.dirty, s.muzzy, s.released), (2 * PAGE_SIZE, 3 * PAGE_SIZE, 0, 0));
    assert_eq!(s.reserved + s.active + s.dirty + s.released, 2 * HUGEPAGE_SIZE);
    assert_eq!(b.subrelease(c.base, 3, true), 3 * PAGE_SIZE);
    let t = b.state_bytes();
    assert_eq!((t.dirty, t.released), (0, 3 * PAGE_SIZE));
    assert_eq!(b.subrelease_events(), 1);
    assert!(b.free_region(a));
    assert!(!b.mark_cold(BASE + HUGEPAGE_SIZE), "not opened");
}

#[test]
fn a_region_is_cut_in_place() {
    let mut b = backend(3, |_, _| false);
    let r = b.try_alloc(5 * PAGE_SIZE, PAGE_SIZE, Hints::default()).unwrap();
    assert_eq!(b.try_trim(r, 5 * PAGE_SIZE), None, "nothing to cut");
    assert_eq!(b.try_trim(r, 2 * PAGE_SIZE + 1), Some(2 * PAGE_SIZE));
    let cut = Region {
        base: r.base,
        len: 3 * PAGE_SIZE,
    };
    assert_eq!(b.try_trim(cut, 0), Some(2 * PAGE_SIZE), "at least a page stays");
    assert!(b.free_region(Region { base: r.base, len: PAGE_SIZE }));
    let run = b.allocate(HUGEPAGE_SIZE + 1, PAGE_SIZE, PlaceHints::default()).unwrap();
    assert_eq!(b.try_trim(run, PAGE_SIZE), None, "a run is not cut");
}

#[test]
fn binding_says_whether_it_was_granted() {
    let mut b = backend(1, |_, _| false);
    assert!(b.bind_region(3));
    assert!(!b.bind_region(9));
    assert_eq!(b.provider().calls.borrow().len(), 3);
}

#[test]
fn a_tick_without_pressure_releases_nothing() {
    let mut b = backend(2, |_, _| false);
    let r = b.allocate(HUGEPAGE_SIZE, PAGE_SIZE, PlaceHints::default()).unwrap();
    assert!(b.free_region(r));
    let mut c = ReleaseController::new(DecayConfig::server());
    let (plan, released) = b.release_tick(&mut c, 0, ReleaseInputs::default());
    assert_eq!(released, 0);
    assert_eq!(plan.release_empty_hugepages_bytes, 0);
    assert_eq!(b.empty_backed_hugepages(), 1);
    let failed = ReleaseInputs {
        alloc_failed: true,
        ..ReleaseInputs::default()
    };
    let (plan, released) = b.release_tick(&mut c, 1, failed);
    assert!(plan.disable_hugecache_reserve);
    assert_eq!(released, HUGEPAGE_SIZE as u64);
    assert_eq!(b.empty_backed_hugepages(), 0);
}

#[test]
fn the_reservation_is_given_back_once() {
    let mut b = backend(2, |_, _| false);
    let r = b.allocate(PAGE_SIZE, PAGE_SIZE, PlaceHints::default()).unwrap();
    b.provider().calls.borrow_mut().clear();
    assert_eq!(b.teardown(), Ok(()));
    assert_eq!(b.teardown(), Ok(()));
    assert!(b.allocate(PAGE_SIZE, PAGE_SIZE, PlaceHints::default()).is_none());
    assert!(!b.free_region(r));
    assert_eq!(b.trim_region(r, 1), None);
    assert_eq!(b.subrelease(r.base, 1, true), 0);
    assert_eq!(b.release_empty_excess(0), 0);
    assert_eq!(b.teardown(), Ok(()));
    let calls = b.provider().calls.borrow().clone();
    assert_eq!(calls, vec![("release", BASE, 2 * HUGEPAGE_SIZE)]);
}

#[test]
fn opening_asks_for_what_it_needs_and_no_more() {
    let recorder = || Recorder {
        refuse: |_, _| false,
        refuse_commit: Cell::new(false),
        calls: RefCell::new(Vec::new()),
    };
    let arena = ArenaId::default_arena();
    let mut p = recorder();
    let mut meta = BumpArena::new(0x10_0000, 1 << 20);
    let bad = HugePageBackend::reserve_tiled(&mut p, &mut meta, arena, HugeConfig::with_capacity(0));
    assert!(matches!(bad, Err(HugeError::InvalidRequest)));
    assert!(p.calls.borrow().is_empty(), "nothing is asked for");

    let mut small = BumpArena::new(0x10_0000, 8);
    let full = HugePageBackend::reserve_tiled(&mut p, &mut small, arena, HugeConfig::with_capacity(2));
    assert!(matches!(full, Err(HugeError::NoSpace)));
    let len = 2 * HUGEPAGE_SIZE;
    assert_eq!(
        p.calls.borrow().clone(),
        vec![("reserve", BASE, len), ("release", BASE, len)]
    );

    p.calls.borrow_mut().clear();
    let good = HugePageBackend::reserve_tiled(&mut p, &mut meta, arena, HugeConfig::with_capacity(2));
    assert!(matches!(good, Ok((Region { base: BASE, .. }, _, _))));
    assert_eq!(p.calls.borrow().clone(), vec![("reserve", BASE, len)]);
}

#[test]
fn a_run_is_revoked_and_only_then_decommitted() {
    let mut b = backend(1, |_, _| false);
    let r = b.allocate(4 * PAGE_SIZE, PAGE_SIZE, PlaceHints::default()).unwrap();
    assert!(b.free_region(r));
    b.provider().calls.borrow_mut().clear();
    assert_eq!(b.subrelease(r.base, 4, true), 4 * PAGE_SIZE);
    let calls = b.provider().calls.borrow().clone();
    assert_eq!(
        calls,
        vec![("revoke", BASE, 4 * PAGE_SIZE), ("decommit", 0, 4 * PAGE_SIZE)]
    );
}
