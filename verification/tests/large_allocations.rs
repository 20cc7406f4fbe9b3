//! Large allocations over extents of pages.
use topo_core::backend::{Region, RegionCacheHook, StateBytes};
use topo_core::bitmap::PAGE_SIZE;
use topo_core::bootstrap::BumpArena;
use topo_core::extent::{ExtentError, ExtentId, ExtentRef, ExtentSource, NoRegionCache};
use topo_core::flags::Hints;
use topo_core::ids::ArenaId;
use topo_core::large::{LargeAllocator, LargeBacking, LargeConfig};
use topo_core::pagemap::PageMap;

const PAGE: usize = PAGE_SIZE;

/// Extents of pages of one reservation, first fit.
struct PageExtents {
    base: usize,
    used: Vec<bool>,
    live: Vec<Option<(usize, usize)>>,
    refuse_revoke: bool,
}

impl PageExtents {
    fn new(pages: usize) -> Self {
        Self {
            base: 0x4000_0000_0000,
            used: vec![false; pages],
            live: Vec::new(),
            refuse_revoke: false,
        }
    }
    fn drop_extent(&mut self, extent: ExtentRef) -> Result<(), ExtentError> {
        let (start, n) = self.live[extent.id.0 as usize]
            .take()
            .ok_or(ExtentError::Invalid)?;
        for p in start..start + n {
            self.used[p] = false;
        }
        Ok(())
    }
}

impl ExtentSource for PageExtents {
    fn allocate(&mut self, bytes: usize, align: usize) -> Result<(Region, ExtentRef), ExtentError> {
        if bytes == 0 || !align.is_power_of_two() || align > PAGE {
            return Err(ExtentError::Invalid);
        }
        let n = (bytes + PAGE - 1) / PAGE;
        let start = (0..self.used.len().saturating_sub(n - 1))
            .find(|&s| self.used[s..s + n].iter().all(|u| !u))
            .ok_or(ExtentError::Exhausted)?;
        for p in start..start + n {
            self.used[p] = true;
        }
        let id = ExtentId(self.live.len() as u32);
        self.live.push(Some((start, n)));
        Ok((
            Region {
                base: self.base + start * PAGE,
                len: n * PAGE,
            },
            ExtentRef { id, generation: 0 },
        ))
    }
    fn free(&mut self, extent: ExtentRef) -> Result<(), ExtentError> {
        self.drop_extent(extent)
    }
    fn free_revoking(&mut self, extent: ExtentRef, _arena: ArenaId) -> Result<(), ExtentError> {
        if self.refuse_revoke {
            return Err(ExtentError::Invalid);
        }
        self.drop_extent(extent)
    }
    fn check_invariants(&self) -> bool {
        let held: usize = self.live.iter().flatten().map(|&(_, n)| n).sum();
        held == self.used.iter().filter(|u| **u).count()
    }
    fn state_bytes(&self) -> StateBytes {
        let active = self.used.iter().filter(|u| **u).count() * PAGE;
        StateBytes {
            reserved: self.used.len() * PAGE - active,
            active,
            dirty: 0,
            muzzy: 0,
            released: 0,
        }
    }
    fn backend_name(&self) -> &'static str {
        "posix-test"
    }
}

/// A large allocator with its page map and its metadata; no address is 0.
struct Large {
    la: LargeAllocator<PageExtents>,
    pm: PageMap,
    meta: BumpArena,
}

impl Large {
    fn allocate(&mut self, bytes: usize, align: usize) -> usize {
        self.la
            .allocate(&mut self.pm, &mut self.meta, bytes, align)
            .unwrap_or(0)
    }
    fn allocate_with(&mut self, bytes: usize, align: usize, hook: &mut OneShotCache) -> usize {
        self.la
            .allocate_with(&mut self.pm, &mut self.meta, bytes, align, hook)
            .unwrap_or(0)
    }
    fn allocate_in(&mut self, arena: ArenaId, bytes: usize, align: usize) -> usize {
        self.la
            .allocate_in(&mut self.pm, &mut self.meta, arena, bytes, align)
            .unwrap_or(0)
    }
    fn usable_size(&self, addr: usize) -> Option<usize> {
        self.la.usable_size(&self.pm, addr)
    }
    fn arena_of(&self, addr: usize) -> Option<ArenaId> {
        self.la.arena_of(&self.pm, addr)
    }
    fn live_count(&self) -> usize {
        self.la.live_count()
    }
    fn check_invariants(&self) -> bool {
        self.la.check_invariants()
    }
}

fn tfree(large: &mut Large, p: usize) -> bool {
    large.la.free(&mut large.pm, p)
}

fn tfree_with(large: &mut Large, p: usize, hook: &mut OneShotCache) -> bool {
    large.la.free_with(&mut large.pm, p, hook)
}

fn meta(bytes: usize) -> BumpArena {
    BumpArena::new(0x10_0000, bytes)
}

fn config(region_pages: usize, large_slots: usize) -> LargeConfig {
    LargeConfig {
        region_bytes: region_pages * PAGE,
        region_align: PAGE,
        extent_slots: 4096,
        large_slots,
    }
}

fn large(region_pages: usize, large_slots: usize) -> Large {
    let mut meta = meta(1 << 20);
    let la = LargeAllocator::new(
        PageExtents::new(region_pages),
        &mut meta,
        ArenaId::default_arena(),
        config(region_pages, large_slots),
    )
    .expect("large allocator");
    Large {
        la,
        pm: PageMap::new(),
        meta,
    }
}

/// A cache that serves the first request that fits its one region.
struct OneShotCache {
    base: usize,
    len: usize,
    served: bool,
    returns: usize,
}

impl OneShotCache {
    fn new(len: usize) -> Self {
        Self {
            base: 0x5000_0000_0000,
            len,
            served: false,
            returns: 0,
        }
    }
}

impl RegionCacheHook for OneShotCache {
    fn state_bytes(&self) -> StateBytes {
        StateBytes {
            reserved: 0,
            active: 0,
            dirty: 0,
            muzzy: 0,
            released: 0,
        }
    }
    fn try_alloc(&mut self, bytes: usize, align: usize, _hints: Hints) -> Option<Region> {
        if !self.served && bytes <= self.len && align <= PAGE {
            self.served = true;
            Some(Region {
                base: self.base,
                len: self.len,
            })
        } else {
            None
        }
    }
    fn try_cache(&mut self, region: Region) -> bool {
        assert_eq!(
            region.base, self.base,
            "only the cache-served region returns here"
        );
        self.returns += 1;
        true
    }
    fn try_cache_revoking(&mut self, region: Region, _arena: ArenaId) -> bool {
        self.try_cache(region)
    }
    fn try_trim(&mut self, _region: Region, _new_len: usize) -> Option<usize> {
        None
    }
}

#[test]
fn allocate_is_classifiable_and_freeable() {
    let mut la = large(64, 16);
    let p = la.allocate(3 * PAGE, PAGE);
    assert!(p != 0);
    assert_eq!(p % PAGE, 0);

    assert_eq!(la.usable_size(p), Some(3 * PAGE));
    assert_eq!(la.live_count(), 1);

    assert!(tfree(&mut la, p), "free of a live large allocation succeeds");
    assert_eq!(la.live_count(), 0);

    assert_eq!(la.usable_size(p), None);
    assert!(la.check_invariants());
}

#[test]
fn free_of_foreign_or_null_pointer_is_rejected() {
    let mut la = large(16, 8);
    assert!(!tfree(&mut la, 0), "free(NULL) is a no-op");
    assert!(
        !tfree(&mut la, 0x1234),
        "foreign pointer is not freed"
    );
    let p = la.allocate(2 * PAGE, PAGE);
    assert!(tfree(&mut la, p));

    assert!(!tfree(&mut la, p), "double free is rejected");
    assert!(la.check_invariants());
}

#[test]
fn free_of_interior_pointer_is_rejected() {
    let mut la = large(64, 16);
    let p = la.allocate(3 * PAGE, PAGE);
    assert!(p != 0);

    let interior = p + PAGE;
    assert!(!tfree(&mut la, interior), "interior free is rejected");
    assert_eq!(
        la.live_count(),
        1,
        "allocation still live after interior free"
    );
    assert_eq!(la.usable_size(p), Some(3 * PAGE), "allocation intact");

    assert!(tfree(&mut la, p), "base free succeeds");
    assert_eq!(la.live_count(), 0);
    assert!(la.check_invariants());
}

#[test]
fn descriptors_recycle_without_leaking_metadata() {
    let mut la = large(64, 4);
    for _ in 0..200 {
        let p = la.allocate(2 * PAGE, PAGE);
        assert!(p != 0, "recycled descriptor + extent reused");
        assert!(tfree(&mut la, p));
    }
    assert_eq!(la.live_count(), 0);
    assert!(la.check_invariants());
}

#[test]
fn new_fails_cleanly_on_metadata_exhaustion() {
    let r = LargeAllocator::new(
        PageExtents::new(64),
        &mut meta(64),
        ArenaId::default_arena(),
        LargeConfig {
            region_bytes: 64 * PAGE,
            region_align: PAGE,
            extent_slots: 4096,
            large_slots: 16,
        },
    );
    assert!(r.is_err(), "construction over an exhausted arena must fail");
}

#[test]
fn pool_exhaustion_fails_safely_and_recovers() {
    let mut la = large(64, 2);
    let a = la.allocate(2 * PAGE, PAGE);
    let b = la.allocate(2 * PAGE, PAGE);
    assert!(a != 0 && b != 0);
    let c = la.allocate(2 * PAGE, PAGE);
    assert!(c == 0, "3rd live allocation exceeds the 2-slot pool");
    assert!(
        la.check_invariants(),
        "rolled-back allocation left us well-formed"
    );
    assert!(tfree(&mut la, a));
    let d = la.allocate(2 * PAGE, PAGE);
    assert!(d != 0, "a freed slot is reusable");
    assert!(tfree(&mut la, b) && tfree(&mut la, d));
    assert!(la.check_invariants());
}

#[test]
fn concurrent_large_alloc_free_stays_consistent() {
    let mut la = large(1024, 256);
    let mut held: Vec<usize> = Vec::new();
    for round in 0..6 * 150 {
        let p = la.allocate(2 * PAGE, PAGE);
        if p != 0 {
            held.push(p);
        }
        if round % 6 == 5 {
            for p in held.drain(..) {
                assert!(tfree(&mut la, p));
            }
        }
    }
    assert_eq!(la.live_count(), 0);
    assert!(la.check_invariants());
}

#[test]
fn concurrent_double_free_of_same_pointer_is_safe() {
    const PTRS: usize = 64;
    const FREERS: usize = 4;

    let mut la = large(1024, 256);
    let ptrs: Vec<usize> = (0..PTRS)
        .map(|_| {
            let p = la.allocate(2 * PAGE, PAGE);
            assert!(p != 0);
            p
        })
        .collect();
    assert_eq!(la.live_count(), PTRS);

    let mut wins = 0;
    for &p in ptrs.iter() {
        for _ in 0..FREERS {
            if tfree(&mut la, p) {
                wins += 1;
            }
        }
    }

    assert_eq!(wins, PTRS, "exactly one free won per pointer");
    assert_eq!(la.live_count(), 0);
    assert!(
        la.check_invariants(),
        "pool well-formed after the double-free race"
    );

    let mut reuse = Vec::with_capacity(PTRS);
    for _ in 0..PTRS {
        let p = la.allocate(2 * PAGE, PAGE);
        assert!(p != 0, "slots reusable after the race (no double-vend)");
        reuse.push(p);
    }
    let mut distinct = reuse.clone();
    distinct.sort_unstable();
    distinct.dedup();
    assert_eq!(distinct.len(), PTRS, "no two reused slots alias");
    for p in reuse {
        assert!(tfree(&mut la, p));
    }
    assert!(la.check_invariants());
}

#[test]
fn cache_served_allocation_bypasses_extents_and_returns_to_the_cache() {
    let mut la = large(64, 16);
    let mut cache = OneShotCache::new(3 * PAGE);

    let p = la.allocate_with(3 * PAGE, PAGE, &mut cache);
    assert!(p != 0);
    assert_eq!(p, cache.base, "served from the cache region");
    assert!(cache.served);

    assert_eq!(la.usable_size(p), Some(3 * PAGE));
    assert_eq!(la.live_count(), 1);


    assert!(tfree_with(&mut la, p, &mut cache));
    assert_eq!(
        cache.returns,
        1,
        "freed cache-served region returned to the cache"
    );
    assert_eq!(la.live_count(), 0);
    assert_eq!(la.usable_size(p), None);
    assert!(la.check_invariants());
}

#[test]
fn mixed_cache_served_and_extent_backed_route_correctly_on_free() {
    let mut la = large(64, 16);
    let mut cache = OneShotCache::new(3 * PAGE);

    let served = la.allocate_with(3 * PAGE, PAGE, &mut cache);
    assert!(served != 0);
    assert_eq!(served, cache.base, "first alloc served from the cache");
    let backed = la.allocate_with(3 * PAGE, PAGE, &mut cache);
    assert!(backed != 0);
    assert_ne!(
        backed, cache.base,
        "second alloc came from the extent manager"
    );
    assert_eq!(la.live_count(), 2);

    assert!(tfree_with(&mut la, backed, &mut cache));
    assert_eq!(
        cache.returns,
        0,
        "an extent-backed free must not touch the cache"
    );

    assert!(tfree_with(&mut la, served, &mut cache));
    assert_eq!(
        cache.returns,
        1,
        "cache-served free returns to the cache"
    );
    assert_eq!(la.live_count(), 0);
    assert!(la.check_invariants());
}

#[test]
fn free_arena_frees_the_allocations_of_one_arena() {
    let mut la = large(64, 16);
    let a = la.allocate_in(ArenaId(1), 2 * PAGE, PAGE);
    let b = la.allocate_in(ArenaId(2), 3 * PAGE, PAGE);
    let c = la.allocate_in(ArenaId(1), PAGE, PAGE);
    assert_eq!(la.arena_of(a), Some(ArenaId(1)));
    assert_eq!(la.arena_of(b), Some(ArenaId(2)));
    assert_eq!(la.arena_of(a + PAGE), Some(ArenaId(1)), "an inner address has its arena too");
    assert_eq!(
        la.la.free_arena(&mut la.pm, ArenaId(1)),
        (2, 3 * PAGE, true)
    );
    assert_eq!(la.usable_size(a), None);
    assert_eq!(la.usable_size(c), None);
    assert_eq!(la.usable_size(b), Some(3 * PAGE));
    assert_eq!(la.live_count(), 1);
    assert_eq!(la.la.free_arena(&mut la.pm, ArenaId(1)), (0, 0, true));
}

#[test]
fn an_extent_that_cannot_be_revoked_stays_allocated() {
    let mut extents = PageExtents::new(16);
    extents.refuse_revoke = true;
    let mut m = meta(1 << 20);
    let mut pm = PageMap::new();
    let mut la =
        LargeAllocator::new(extents, &mut m, ArenaId::default_arena(), config(16, 4)).unwrap();
    let p = la.allocate(&mut pm, &mut m, 2 * PAGE, PAGE).unwrap();
    assert_eq!(la.free_revoking(&mut pm, p, ArenaId::default_arena()), (true, false));
    assert_eq!(la.live_count(), 0, "the allocation is gone");
    assert_eq!(la.state_bytes().active, 2 * PAGE, "its extent is not");
    let q = la.allocate(&mut pm, &mut m, PAGE, PAGE).unwrap();
    assert_ne!(q, p);
    assert_eq!(
        la.free_arena(&mut pm, ArenaId::default_arena()),
        (1, PAGE, false)
    );
    assert_eq!(la.backend_name(), "posix-test");
}

#[test]
fn an_allocation_without_page_map_metadata_leaves_nothing() {
    // Metadata for the descriptors and for three nodes, which is less than one path.
    let mut m = meta(4 * 64 + 3 * 8192);
    let mut pm = PageMap::new();
    let mut la = LargeAllocator::new(
        PageExtents::new(16),
        &mut m,
        ArenaId::default_arena(),
        config(16, 4),
    )
    .unwrap();
    assert_eq!(la.allocate(&mut pm, &mut m, 2 * PAGE, PAGE), None);
    assert_eq!(la.live_count(), 0);
    assert_eq!(la.state_bytes().active, 0, "the extent went back");
    assert!(pm.lookup(0x4000_0000_0000).is_empty());
    assert!(la.check_invariants());
}

#[test]
fn allocations_are_as_aligned_and_as_large_as_asked() {
    let mut la = large(64, 16);
    for (bytes, align) in [(PAGE, PAGE), (5 * PAGE, PAGE / 4), (PAGE + 1, 64)] {
        let p = la.allocate(bytes, align);
        assert!(p != 0);
        assert_eq!(p % align, 0);
        assert!(la.usable_size(p).unwrap() >= bytes);
    }
    assert!(la.check_invariants());
}

#[test]
fn a_request_that_no_extent_serves_is_none() {
    let mut la = large(4, 4);
    assert_eq!(la.allocate(5 * PAGE, PAGE), 0);
    assert_eq!(la.live_count(), 0);
    let p = la.allocate(4 * PAGE, PAGE);
    assert!(p != 0);
    assert_eq!(la.usable_size(p + 4 * PAGE), None, "past the end");
    assert!(tfree(&mut la, p));
}

#[test]
fn the_backing_trait_answers_as_the_allocator_does() {
    let mut la = large(16, 4);
    let p = LargeBacking::allocate_in(
        &mut la.la,
        &mut la.pm,
        &mut la.meta,
        ArenaId(3),
        PAGE,
        PAGE,
    )
    .unwrap();
    assert_eq!(LargeBacking::usable_size(&la.la, &la.pm, p), Some(PAGE));
    assert_eq!(LargeBacking::arena_of(&la.la, &la.pm, p), Some(ArenaId(3)));
    assert_eq!(LargeBacking::live_count(&la.la), 1);
    assert_eq!(LargeBacking::state_bytes(&la.la).active, PAGE);
    assert!(LargeBacking::check_invariants(&la.la));
    assert!(LargeBacking::free(&mut la.la, &mut la.pm, p));
    assert_eq!(LargeBacking::free_arena(&mut la.la, &mut la.pm, ArenaId(3)), (0, 0, true));
}

#[test]
fn no_cache_declines_everything() {
    let mut none = NoRegionCache;
    assert_eq!(none.try_alloc(PAGE, PAGE, Hints::default()), None);
    let region = Region { base: 0x4000, len: PAGE };
    assert!(!none.try_cache(region));
    assert!(!none.try_cache_revoking(region, ArenaId(1)));
    assert_eq!(none.try_trim(region, 1), None);
    assert_eq!(none.state_bytes().reserved, 0);
}
