//! Large allocations: a region each, and a descriptor that the page map finds them by.
use vstd::prelude::*;
use crate::backend::{Region, RegionCacheHook, StateBytes};
use crate::bootstrap::BumpArena;
use crate::extent;
use crate::extent::{alloc_large, ExtentError, ExtentRef, ExtentSource, NoRegionCache};
use crate::flags::Hints;
use crate::ids::{ArenaId, Generation, LargeId};
use crate::overflow;
use crate::pagemap;
use crate::pagemap::{PageEntry, PageMap, PageMapView, PagemapError};
use crate::span::{LargeDescriptor, LargeRef, LargeState};

verus! {

/// No slot.
const NIL: u32 = u32::MAX;

/// The metadata bytes of a slot of the pool.
pub const LARGE_SLOT_BYTES: usize = 64;

/// The alignment of a slot of the pool.
pub const LARGE_SLOT_ALIGN: usize = 8;

/// A slot of the pool: a descriptor, and the extent behind it, if any.
#[derive(Clone, Copy, PartialEq, Eq, Debug, Structural)]
pub struct LargeSlot {
    /// The descriptor.
    pub desc: LargeDescriptor,
    /// The extent; `None` when the region came from the cache.
    pub backing: Option<ExtentRef>,
    /// The free slot below this one in the stack, when this one is free.
    free_next: u32,
}

/// The pool, mathematically.
#[verifier::ext_equal]
pub struct PoolView {
    /// The address of the first slot.
    pub base: int,
    /// The most slots there can be.
    pub cap: int,
    /// The descriptors of the slots used so far, and what is behind them.
    pub slots: Seq<(LargeDescriptor, Option<ExtentRef>)>,
    /// The free ones among them, the one to be used next last.
    pub free: Seq<u32>,
    /// The number for the next new descriptor.
    pub next_id: u32,
}

impl PoolView {
    /// The address of slot `i`.
    pub open spec fn address(self, i: int) -> int {
        self.base + i * LARGE_SLOT_BYTES
    }

    /// Slot `i` is in use.
    pub open spec fn live(self, i: int) -> bool {
        0 <= i < self.slots.len() && !self.free.contains(i as u32)
    }

    /// How many slots are in use.
    pub open spec fn live_count(self) -> int {
        self.slots.len() - self.free.len()
    }

    /// Every slot is in use.
    pub open spec fn full(self) -> bool {
        self.free.len() == 0 && self.slots.len() == self.cap
    }

    /// The slot that is used next: the one freed last, or else a new one.
    pub open spec fn next_slot(self) -> int {
        if self.free.len() > 0 {
            self.free.last() as int
        } else {
            self.slots.len() as int
        }
    }

    /// The descriptor that the next slot gets: a new one, or the old one used again.
    pub open spec fn next_desc(
        self,
        arena: ArenaId,
        region: Region,
        align: usize,
    ) -> LargeDescriptor {
        if self.free.len() > 0 {
            self.slots[self.next_slot()].0.recycled(arena, region.base, region.len, align)
        } else {
            LargeDescriptor {
                id: LargeId(self.next_id),
                arena,
                base: region.base,
                usable: region.len,
                align,
                state: LargeState::Active,
                generation: Generation(0),
            }
        }
    }

    /// With the next slot in use.
    pub open spec fn taken(
        self,
        desc: LargeDescriptor,
        backing: Option<ExtentRef>,
    ) -> PoolView {
        PoolView {
            slots: if self.free.len() > 0 {
                self.slots.update(self.next_slot(), (desc, backing))
            } else {
                self.slots.push((desc, backing))
            },
            free: if self.free.len() > 0 {
                self.free.drop_last()
            } else {
                self.free
            },
            next_id: self.next_id.wrapping_add(1),
            ..self
        }
    }

    /// With slot `i` free.
    pub open spec fn freed(self, i: int) -> PoolView {
        PoolView { free: self.free.push(i as u32), ..self }
    }

    /// The slot that a descriptor's address names.
    pub open spec fn named(self, at: LargeRef) -> Option<int> {
        let off = at.0 - self.base;
        if off < 0 || off % (LARGE_SLOT_BYTES as int) != 0 || off / (LARGE_SLOT_BYTES as int)
            >= self.cap {
            None
        } else {
            Some(off / (LARGE_SLOT_BYTES as int))
        }
    }
}

/// The pool of descriptors.
struct LargePool {
    base: usize,
    cap: u32,
    slots: Vec<LargeSlot>,
    free_head: u32,
    next_id: u32,
    live: u32,
    stack: Ghost<Seq<u32>>,
}

impl View for LargePool {
    type V = PoolView;

    closed spec fn view(&self) -> PoolView {
        PoolView {
            base: self.base as int,
            cap: self.cap as int,
            slots: self.slots@.map_values(|s: LargeSlot| (s.desc, s.backing)),
            free: self.stack@,
            next_id: self.next_id,
        }
    }
}

impl LargePool {
    /// What the pool keeps: the free slots are linked from the one to be used next down.
    #[verifier::opaque]
    closed spec fn wf(self) -> bool {
        let s = self.stack@;
        &&& 0 < self.cap <= NIL
        &&& self.base % LARGE_SLOT_ALIGN == 0
        &&& self.base + self.cap * LARGE_SLOT_BYTES <= usize::MAX
        &&& self.slots@.len() <= self.cap
        &&& forall|i: int| #![trigger self.slots@[i]] 0 <= i < self.slots@.len() ==> self.slots@[i].desc.wf()
        &&& self.live == self.slots@.len() - s.len()
        &&& s.no_duplicates()
        &&& forall|k: int| #![trigger s[k]] 0 <= k < s.len() ==> s[k] < self.slots@.len()
        &&& self.free_head == (if s.len() == 0 {
            NIL
        } else {
            s.last()
        })
        &&& forall|k: int|
            #![trigger s[k]]
            0 <= k < s.len() ==> self.slots@[s[k] as int].free_next == (if k == 0 {
                NIL
            } else {
                s[k - 1]
            })
    }

    /// A pool of `cap` slots; `None` when there can be no such pool, or the metadata runs out.
    fn new(meta: &mut BumpArena, cap: usize) -> (res: Option<LargePool>)
        requires
            old(meta).wf(),
        ensures
            final(meta).wf(),
            final(meta).base() == old(meta).base(),
            final(meta).len() == old(meta).len(),
            match res {
                Some(p) => poolable(*old(meta), cap as int) && p.wf() && p@ == empty_pool(
                    *old(meta),
                    cap as int,
                ),
                None => !poolable(*old(meta), cap as int),
            },
    {
        proof {
            reveal(LargePool::wf);
        }
        if cap == 0 || cap > NIL as usize {
            return None;
        }
        let bytes: usize = match cap.checked_mul(LARGE_SLOT_BYTES) {
            Some(n) => n,
            None => return None,
        };
        proof {
            vstd::arithmetic::power2::lemma2_to64();
            assert(overflow::is_pow2(LARGE_SLOT_ALIGN as int)) by {
                assert(LARGE_SLOT_ALIGN as int == vstd::arithmetic::power2::pow2(3));
            }
            overflow::lemma_round_up(meta.base() + meta.used(), LARGE_SLOT_ALIGN as int);
        }
        let base: usize = match meta.vend(bytes, LARGE_SLOT_ALIGN) {
            Some(a) => a,
            None => return None,
        };
        let pool = LargePool {
            base,
            cap: cap as u32,
            slots: Vec::new(),
            free_head: NIL,
            next_id: 0,
            live: 0,
            stack: Ghost(Seq::empty()),
        };
        proof {
            assert(pool@.slots =~= Seq::<(LargeDescriptor, Option<ExtentRef>)>::empty());
        }
        Some(pool)
    }

    /// The address of slot `i`.
    fn address(&self, i: u32) -> (res: LargeRef)
        requires
            self.wf(),
            i < self.cap,
        ensures
            res.0 == self@.address(i as int),
            res.0 % 8 == 0,
            self@.named(res) == Some(i as int),
    {
        proof {
            reveal(LargePool::wf);
        }
        proof {
            lemma_address(self@, i as int);
            assert(i * LARGE_SLOT_BYTES <= self.cap * LARGE_SLOT_BYTES) by (nonlinear_arith)
                requires
                    i <= self.cap,
            ;
        }
        LargeRef(self.base + i as usize * LARGE_SLOT_BYTES)
    }

    /// Take the next slot for a region; `None` when every slot is in use.
    fn acquire(
        &mut self,
        arena: ArenaId,
        region: Region,
        align: usize,
        backing: Option<ExtentRef>,
    ) -> (res: Option<u32>)
        requires
            old(self).wf(),
            region.base + region.len <= usize::MAX,
        ensures
            final(self).wf(),
            match res {
                Some(i) => {
                    &&& !old(self)@.full()
                    &&& i == old(self)@.next_slot()
                    &&& i < old(self)@.cap
                    &&& final(self)@ == old(self)@.taken(
                        old(self)@.next_desc(arena, region, align),
                        backing,
                    )
                },
                None => old(self)@.full() && *final(self) == *old(self),
            },
    {
        proof {
            reveal(LargePool::wf);
        }
        let ghost before = *self;
        let ghost v = self@;
        let id: LargeId = LargeId(self.next_id);
        if self.free_head != NIL {
            let i: u32 = self.free_head;
            let next: u32 = self.slots[i as usize].free_next;
            let mut desc: LargeDescriptor = self.slots[i as usize].desc;
            desc.recycle(arena, region.base, region.len, align);
            self.slots.set(i as usize, LargeSlot { desc, backing, free_next: NIL });
            self.free_head = next;
            self.live = self.live + 1;
            self.next_id = self.next_id.wrapping_add(1);
            proof {
                let s = before.stack@;
                self.stack@ = s.drop_last();
                assert(v.slots[i as int].0 == before.slots@[i as int].desc);
                assert(self@.slots =~= v.taken(v.next_desc(arena, region, align), backing).slots);
                assert forall|k: int| #![trigger self.stack@[k]] 0 <= k < self.stack@.len() implies {
                    &&& self.slots@[self.stack@[k] as int].free_next == (if k == 0 {
                        NIL
                    } else {
                        self.stack@[k - 1]
                    })
                    &&& self.stack@[k] < self.slots@.len()
                } by {
                    assert(s[k] == self.stack@[k]);
                    assert(s[k] != s[s.len() - 1]);
                    assert(self.slots@[s[k] as int] == before.slots@[s[k] as int]);
                }
                if s.len() > 1 {
                    assert(s[s.len() - 1] == i);
                    assert(next == s[s.len() - 2]);
                }
            }
            Some(i)
        } else if self.slots.len() < self.cap as usize {
            let i: u32 = self.slots.len() as u32;
            let desc: LargeDescriptor = LargeDescriptor::new(
                id,
                arena,
                region.base,
                region.len,
                align,
            );
            self.slots.push(LargeSlot { desc, backing, free_next: NIL });
            self.live = self.live + 1;
            self.next_id = self.next_id.wrapping_add(1);
            proof {
                assert(before.stack@.len() == 0) by {
                    if before.stack@.len() > 0 {
                        assert(before.stack@[before.stack@.len() - 1] < before.slots@.len());
                    }
                }
                assert(self@.slots =~= v.taken(v.next_desc(arena, region, align), backing).slots);
            }
            Some(i)
        } else {
            proof {
                if before.stack@.len() > 0 {
                    assert(before.stack@[before.stack@.len() - 1] < before.slots@.len());
                }
            }
            None
        }
    }

    /// Free slot `i`.
    fn release(&mut self, i: u32)
        requires
            old(self).wf(),
            old(self)@.live(i as int),
        ensures
            final(self).wf(),
            final(self)@ == old(self)@.freed(i as int),
    {
        proof {
            reveal(LargePool::wf);
        }
        let ghost before = *self;
        proof {
            lemma_free_fits(before.stack@.push(i), before.slots@.len() as int);
        }
        let mut slot: LargeSlot = self.slots[i as usize];
        slot.free_next = self.free_head;
        self.slots.set(i as usize, slot);
        self.free_head = i;
        self.live = self.live - 1;
        proof {
            let s = before.stack@;
            self.stack@ = s.push(i);
            assert(self@.slots =~= before@.slots);
            assert forall|k: int| #![trigger self.stack@[k]] 0 <= k < self.stack@.len() implies {
                &&& self.slots@[self.stack@[k] as int].free_next == (if k == 0 {
                    NIL
                } else {
                    self.stack@[k - 1]
                })
                &&& self.stack@[k] < self.slots@.len()
            } by {
                if k < s.len() {
                    assert(s[k] == self.stack@[k]);
                    assert(s.contains(s[k]));
                    assert(self.slots@[s[k] as int] == before.slots@[s[k] as int]);
                    if k > 0 {
                        assert(s[k - 1] == self.stack@[k - 1]);
                    }
                }
            }
            assert forall|a: int, b: int|
                0 <= a < b < self.stack@.len() implies self.stack@[a] != self.stack@[b] by {
                assert(s[a] == self.stack@[a]);
                assert(s.contains(s[a]));
            }
        }
    }

    /// The slot that a descriptor's address names; `None` for an address that is none of the
    /// pool's.
    fn index_of(&self, at: LargeRef) -> (res: Option<u32>)
        requires
            self.wf(),
        ensures
            match res {
                Some(i) => self@.named(at) == Some(i as int) && i < self.cap,
                None => self@.named(at) is None,
            },
    {
        proof {
            reveal(LargePool::wf);
        }
        if at.0 < self.base {
            return None;
        }
        let off: usize = at.0 - self.base;
        if off % LARGE_SLOT_BYTES != 0 {
            return None;
        }
        let i: usize = off / LARGE_SLOT_BYTES;
        if i < self.cap as usize {
            Some(i as u32)
        } else {
            None
        }
    }
}

/// A pool of `cap` slots can be had from the metadata.
pub open spec fn poolable(meta: BumpArena, cap: int) -> bool {
    &&& 0 < cap <= u32::MAX
    &&& cap * LARGE_SLOT_BYTES <= usize::MAX
    &&& meta.next_start(LARGE_SLOT_ALIGN as int) + cap * LARGE_SLOT_BYTES <= meta.base()
        + meta.len()
}

/// A pool with no slot used.
pub open spec fn empty_pool(meta: BumpArena, cap: int) -> PoolView {
    PoolView {
        base: meta.next_start(LARGE_SLOT_ALIGN as int),
        cap,
        slots: Seq::empty(),
        free: Seq::empty(),
        next_id: 0,
    }
}

/// The address of a slot names that slot.
pub proof fn lemma_address(v: PoolView, i: int)
    requires
        0 <= i < v.cap,
        0 <= v.base,
        v.base % (LARGE_SLOT_ALIGN as int) == 0,
        v.base + v.cap * LARGE_SLOT_BYTES <= usize::MAX,
    ensures
        0 <= v.address(i) <= usize::MAX,
        v.address(i) % 8 == 0,
        v.named(LargeRef(v.address(i) as usize)) == Some(i),
{
    assert(0 <= i * LARGE_SLOT_BYTES <= v.cap * LARGE_SLOT_BYTES) by (nonlinear_arith)
        requires
            0 <= i <= v.cap,
    ;
    assert((i * 64) % 64 == 0 && (i * 64) / 64 == i);
}

/// Distinct slots are no more than there are.
proof fn lemma_free_fits(s: Seq<u32>, n: int)
    requires
        0 <= n,
        forall|k: int| #![trigger s[k]] 0 <= k < s.len() - 1 ==> s[k] < n,
        s.len() > 0,
        s.last() < n,
        s.drop_last().no_duplicates(),
        !s.drop_last().contains(s.last()),
    ensures
        s.len() <= n,
{
    let t = Seq::new(s.len(), |k: int| s[k] as usize);
    assert forall|a: int, b: int| 0 <= a < b < t.len() implies t[a] != t[b] by {
        let d = s.drop_last();
        assert(s[a] == d[a]);
        if b == s.len() - 1 {
            assert(d.contains(d[a]));
        } else {
            assert(s[b] == d[b]);
        }
    }
    overflow::lemma_distinct_below(t, n);
}

/// A large allocator, mathematically.
pub struct LargeView<X: ExtentSource> {
    /// The manager of its extents.
    pub extents: X,
    /// The arena of allocations for no arena in particular.
    pub arena: ArenaId,
    /// The descriptors.
    pub pool: PoolView,
}

/// What a page map has for a pool's descriptors: each page of one that it finds is a page of an
/// allocation in use, so that no page leads to a descriptor that was freed or used again.
#[verifier::opaque]
pub open spec fn fits(v: PoolView, pm: PageMapView) -> bool {
    forall|p: int|
        #![trigger pm.entry(p)]
        match pm.entry(p) {
            PageEntry::Large(at) => match v.named(at) {
                Some(i) => {
                    &&& v.live(i)
                    &&& pagemap::large_pages(v.slots[i].0).0 <= p < pagemap::large_pages(
                        v.slots[i].0,
                    ).1
                },
                None => true,
            },
            _ => true,
        }
}

/// The slot of the allocation that an address belongs to.
pub open spec fn resolves(v: PoolView, pm: PageMapView, addr: usize) -> Option<int> {
    if addr == 0 {
        None
    } else {
        match pm.entry(pagemap::page_no(addr as int)) {
            PageEntry::Large(at) => v.named(at),
            _ => None,
        }
    }
}

/// Where the region of an allocation went back to: its extent is freed, or its region is offered
/// to the cache that it came from. `ok` is `false` when `revoke` names an arena and its extent
/// could not be revoked.
pub open spec fn returned<X: ExtentSource, H: RegionCacheHook>(
    extents: X,
    extents_after: X,
    hook: H,
    hook_after: H,
    backing: Option<ExtentRef>,
    region: Region,
    revoke: Option<ArenaId>,
    ok: bool,
) -> bool {
    match backing {
        Some(ext) => {
            &&& hook_after == hook
            &&& match revoke {
                Some(arena) => exists|r: Result<(), ExtentError>| #[trigger]
                    extents.may_free_revoking(&extents_after, ext, arena, r) && ok == (r is Ok),
                None => ok && exists|r: Result<(), ExtentError>| #[trigger]
                    extents.may_free(&extents_after, ext, r),
            }
        },
        None => {
            &&& extents_after == extents
            &&& ok
            &&& exists|taken: bool| #[trigger] hook.may_take(&hook_after, region, taken)
        },
    }
}

/// The region of an allocation.
pub open spec fn region_of(d: LargeDescriptor) -> Region {
    Region { base: d.base, len: d.usable }
}

/// The metadata ran out while the pages were published, and those that were are nobody's again.
pub open spec fn rolled_back(
    before: PageMapView,
    after: PageMapView,
    meta: (BumpArena, BumpArena),
    pages: (int, int),
    entry: PageEntry,
) -> bool {
    exists|mid: PageMapView| #[trigger]
        before.publishes(
            mid,
            meta.0,
            meta.1,
            pages,
            entry,
            Err(PagemapError::OutOfMetadata),
        ) && after == mid.overwritten(pages.0, pages.1, PageEntry::Empty)
}

/// Publishing that failed and whose pages were cleared is rolled back.
proof fn lemma_rolled_back(
    before: PageMapView,
    mid: PageMapView,
    after: PageMapView,
    meta: (BumpArena, BumpArena),
    pages: (int, int),
    entry: PageEntry,
)
    requires
        before.publishes(mid, meta.0, meta.1, pages, entry, Err(PagemapError::OutOfMetadata)),
        after == mid.overwritten(pages.0, pages.1, PageEntry::Empty),
    ensures
        rolled_back(before, after, meta, pages, entry),
{
}

/// What became of a region that was had for an allocation of `arena`: a descriptor has it and the
/// page map finds that, or it went back where it came from and nothing of it is left.
pub open spec fn settles<X: ExtentSource, H: RegionCacheHook>(
    before: LargeView<X>,
    after: LargeView<X>,
    pm: (PageMapView, PageMapView),
    meta: (BumpArena, BumpArena),
    extents: X,
    hook: (H, H),
    arena: ArenaId,
    align: usize,
    got: (Region, Option<ExtentRef>),
    res: Option<usize>,
) -> bool {
    let (region, backing) = got;
    let i = before.pool.next_slot();
    let desc = before.pool.next_desc(arena, region, align);
    let taken = before.pool.taken(desc, backing);
    let pages = pagemap::large_pages(desc);
    let entry = PageEntry::Large(LargeRef(before.pool.address(i) as usize));
    if before.pool.full() || region.base + region.len > usize::MAX {
        &&& res is None
        &&& after == (LargeView { extents: after.extents, ..before })
        &&& pm.1 == pm.0
        &&& meta.1 == meta.0
        &&& returned(extents, after.extents, hook.0, hook.1, backing, region, None, true)
    } else {
        match res {
            Some(addr) => {
                &&& addr == region.base
                &&& after == (LargeView { extents, pool: taken, ..before })
                &&& hook.1 == hook.0
                &&& pm.0.publishes(pm.1, meta.0, meta.1, pages, entry, Ok(()))
            },
            None => {
                &&& after == (LargeView {
                    extents: after.extents,
                    pool: taken.freed(i),
                    ..before
                })
                &&& rolled_back(pm.0, pm.1, meta, pages, entry)
                &&& returned(extents, after.extents, hook.0, hook.1, backing, region, None, true)
            },
        }
    }
}

/// What an allocation did, whatever the cache and the manager of the extents answered.
pub open spec fn allocates<X: ExtentSource, H: RegionCacheHook>(
    before: LargeView<X>,
    after: LargeView<X>,
    pm: (PageMapView, PageMapView),
    meta: (BumpArena, BumpArena),
    hook: (H, H),
    arena: ArenaId,
    bytes: usize,
    align: usize,
    res: Option<usize>,
) -> bool {
    exists|extents: X, h: H, got: Result<(Region, Option<ExtentRef>), ExtentError>| #[trigger]
        allocates_from(
            before,
            after,
            pm,
            meta,
            hook,
            arena,
            bytes,
            align,
            res,
            (extents, h, got),
        )
}

/// What an allocation did, when `from` is what was had for it, and what the cache and the
/// manager of the extents were then.
pub open spec fn allocates_from<X: ExtentSource, H: RegionCacheHook>(
    before: LargeView<X>,
    after: LargeView<X>,
    pm: (PageMapView, PageMapView),
    meta: (BumpArena, BumpArena),
    hook: (H, H),
    arena: ArenaId,
    bytes: usize,
    align: usize,
    res: Option<usize>,
    from: (X, H, Result<(Region, Option<ExtentRef>), ExtentError>),
) -> bool {
    let (extents, h, got) = from;
    &&& extent::obtains(before.extents, extents, hook.0, h, bytes, align, got)
    &&& match got {
        Ok(g) => settles(before, after, pm, meta, extents, (h, hook.1), arena, align, g, res),
        Err(_) => {
            &&& res is None
            &&& after == (LargeView { extents, ..before })
            &&& pm.1 == pm.0
            &&& meta.1 == meta.0
            &&& hook.1 == h
        },
    }
}

/// What freeing the allocation at an address did: its pages are nobody's, its descriptor is free,
/// and its region went back; nothing for an address that is not the first of an allocation in use.
pub open spec fn frees<X: ExtentSource, H: RegionCacheHook>(
    before: LargeView<X>,
    after: LargeView<X>,
    pm: (PageMapView, PageMapView),
    hook: (H, H),
    addr: usize,
    revoke: Option<ArenaId>,
    res: (bool, bool),
) -> bool {
    let v = before.pool;
    let found = resolves(v, pm.0, addr);
    if found is Some && v.slots[found->0].0.base == addr {
        let i = found->0;
        let (desc, backing) = v.slots[i];
        let pages = pagemap::large_pages(desc);
        &&& res.0
        &&& pm.1 == pm.0.overwritten(pages.0, pages.1, PageEntry::Empty)
        &&& after == (LargeView { extents: after.extents, pool: v.freed(i), ..before })
        &&& returned(
            before.extents,
            after.extents,
            hook.0,
            hook.1,
            backing,
            region_of(desc),
            revoke,
            res.1,
        )
    } else {
        res == (false, false) && after == before && pm.1 == pm.0 && hook.1 == hook.0
    }
}

/// The allocation in slot `i` is one of `arena` that the page map finds at its first address.
pub open spec fn found_of(v: PoolView, pm: PageMapView, arena: ArenaId, i: int) -> bool {
    &&& 0 <= i < v.slots.len()
    &&& v.slots[i].0.arena == arena
    &&& pm.entry(pagemap::page_no(v.slots[i].0.base as int)) == PageEntry::Large(
        LargeRef(v.address(i) as usize),
    )
}

/// The first allocation of `arena` that is found.
pub open spec fn first_of(v: PoolView, pm: PageMapView, arena: ArenaId, i: int) -> bool {
    found_of(v, pm, arena, i) && forall|j: int|
        0 <= j < i ==> !#[trigger] found_of(v, pm, arena, j)
}

/// No allocation of `arena` is found.
pub open spec fn none_of(v: PoolView, pm: PageMapView, arena: ArenaId) -> bool {
    forall|j: int| !#[trigger] found_of(v, pm, arena, j)
}

/// One step of freeing the allocations of an arena.
pub open spec fn drain_step<X: ExtentSource>(
    before: (LargeView<X>, PageMapView),
    after: (LargeView<X>, PageMapView),
    arena: ArenaId,
    i: int,
    ok: bool,
) -> bool {
    &&& first_of(before.0.pool, before.1, arena, i)
    &&& frees(
        before.0,
        after.0,
        (before.1, after.1),
        (NoRegionCache, NoRegionCache),
        before.0.pool.slots[i].0.base,
        Some(arena),
        (true, ok),
    )
}

/// The bytes of some allocations, capped at the machine word.
pub open spec fn usable_total<X: ExtentSource>(
    states: Seq<(LargeView<X>, PageMapView)>,
    freed: Seq<int>,
    n: int,
) -> int
    decreases n,
{
    if n <= 0 {
        0
    } else {
        let rest = usable_total(states, freed, n - 1);
        let more = states[n - 1].0.pool.slots[freed[n - 1]].0.usable;
        if rest + more > usize::MAX {
            usize::MAX as int
        } else {
            rest + more
        }
    }
}

/// What freeing every allocation of an arena did: the first that was found was freed again and
/// again, until none was found, or until the one found was at address 0, which is never freed.
pub open spec fn drains<X: ExtentSource>(
    states: Seq<(LargeView<X>, PageMapView)>,
    freed: Seq<int>,
    oks: Seq<bool>,
    arena: ArenaId,
    res: (usize, usize, bool),
) -> bool {
    let n = freed.len() as int;
    &&& states.len() == n + 1
    &&& oks.len() == n
    &&& forall|k: int|
        #![trigger freed[k]]
        0 <= k < n ==> drain_step(states[k], states[k + 1], arena, freed[k], oks[k])
    &&& res.0 == n
    &&& res.1 == usable_total(states, freed, n)
    &&& ({
        ||| {
            &&& none_of(states[n].0.pool, states[n].1, arena)
            &&& res.2 == (forall|k: int| #![trigger oks[k]] 0 <= k < n ==> oks[k])
        }
        ||| {
            &&& exists|i: int| #[trigger]
                first_of(states[n].0.pool, states[n].1, arena, i)
                    && states[n].0.pool.slots[i].0.base == 0
            &&& !res.2
        }
    })
}

/// Sizing of a large allocator.
#[derive(Clone, Copy, PartialEq, Eq, Debug, Structural)]
pub struct LargeConfig {
    /// Bytes to reserve.
    pub region_bytes: usize,
    /// The alignment of the reservation.
    pub region_align: usize,
    /// The most extents.
    pub extent_slots: usize,
    /// The most large allocations at a time.
    pub large_slots: usize,
}

/// The allocator of large allocations.
pub struct LargeAllocator<X: ExtentSource> {
    extents: X,
    arena: ArenaId,
    pool: LargePool,
}

impl<X: ExtentSource> View for LargeAllocator<X> {
    type V = LargeView<X>;

    closed spec fn view(&self) -> LargeView<X> {
        LargeView { extents: self.extents, arena: self.arena, pool: self.pool@ }
    }
}

impl<X: ExtentSource> LargeAllocator<X> {
    /// What the allocator keeps.
    pub closed spec fn wf(self) -> bool {
        self.extents.extents_wf() && self.pool.wf()
    }

    /// What follows from the invariant.
    pub proof fn lemma_wf(self)
        requires
            self.wf(),
        ensures
            self@.extents.extents_wf(),
            0 < self@.pool.cap <= u32::MAX,
            0 <= self@.pool.base,
            self@.pool.base % (LARGE_SLOT_ALIGN as int) == 0,
            self@.pool.base + self@.pool.cap * LARGE_SLOT_BYTES <= usize::MAX,
            self@.pool.slots.len() <= self@.pool.cap,
            0 <= self@.pool.live_count() <= u32::MAX,
            forall|i: int|
                #![trigger self@.pool.slots[i]]
                0 <= i < self@.pool.slots.len() ==> self@.pool.slots[i].0.wf(),
            self@.pool.free.no_duplicates(),
            forall|k: int|
                #![trigger self@.pool.free[k]]
                0 <= k < self@.pool.free.len() ==> self@.pool.free[k] < self@.pool.slots.len(),
    {
        reveal(LargePool::wf);
    }

    /// An allocator over a manager of extents, with its descriptors from the metadata. The size
    /// of the reservation and the number of extents are the manager's affair.
    pub fn new(extents: X, meta: &mut BumpArena, arena: ArenaId, cfg: LargeConfig) -> (res: Result<
        LargeAllocator<X>,
        ExtentError,
    >)
        requires
            extents.extents_wf(),
            old(meta).wf(),
        ensures
            final(meta).wf(),
            final(meta).base() == old(meta).base(),
            final(meta).len() == old(meta).len(),
            match res {
                Ok(a) => {
                    &&& poolable(*old(meta), cfg.large_slots as int)
                    &&& a.wf()
                    &&& a@ == (LargeView {
                        extents,
                        arena,
                        pool: empty_pool(*old(meta), cfg.large_slots as int),
                    })
                    &&& forall|pm: PageMapView|
                        (forall|p: int| !(#[trigger] pm.entry(p) is Large)) ==> #[trigger] fits(
                            a@.pool,
                            pm,
                        )
                },
                Err(e) => e == ExtentError::Exhausted && !poolable(
                    *old(meta),
                    cfg.large_slots as int,
                ),
            },
    {
        proof {
            reveal(fits);
        }
        match LargePool::new(meta, cfg.large_slots) {
            Some(pool) => Ok(LargeAllocator { extents, arena, pool }),
            None => Err(ExtentError::Exhausted),
        }
    }

    /// Large allocations in use.
    pub fn live_count(&self) -> (res: usize)
        requires
            self.wf(),
        ensures
            res == self@.pool.live_count(),
    {
        proof {
            reveal(LargePool::wf);
        }
        self.pool.live as usize
    }

    /// Whether the manager of the extents is as it should be.
    pub fn check_invariants(&self) -> (res: bool)
        requires
            self.wf(),
        ensures
            self@.extents.may_be_good(res),
    {
        self.extents.check_invariants()
    }

    /// The bytes of the reservation by state.
    pub fn state_bytes(&self) -> (res: StateBytes)
        requires
            self.wf(),
        ensures
            self@.extents.may_hold(res),
    {
        self.extents.state_bytes()
    }

    /// The provider's name.
    pub fn backend_name(&self) -> (res: &'static str)
        ensures
            self@.extents.may_be_named(res@),
    {
        self.extents.backend_name()
    }

    /// Give a region back where it came from.
    fn return_backing<H: RegionCacheHook>(
        &mut self,
        backing: Option<ExtentRef>,
        region: Region,
        hook: &mut H,
        revoke: Option<ArenaId>,
    ) -> (res: bool)
        requires
            old(self).wf(),
            old(hook).hook_wf(),
        ensures
            final(self).wf(),
            final(hook).hook_wf(),
            final(self)@ == (LargeView { extents: final(self)@.extents, ..old(self)@ }),
            returned(
                old(self)@.extents,
                final(self)@.extents,
                *old(hook),
                *final(hook),
                backing,
                region,
                revoke,
                res,
            ),
    {
        let ghost x = self.extents;
        let ghost h = *hook;
        match backing {
            Some(ext) => match revoke {
                Some(arena) => {
                    let r: Result<(), ExtentError> = self.extents.free_revoking(ext, arena);
                    proof {
                        assert(x.may_free_revoking(&self.extents, ext, arena, r));
                    }
                    r.is_ok()
                },
                None => {
                    let r: Result<(), ExtentError> = self.extents.free(ext);
                    proof {
                        assert(x.may_free(&self.extents, ext, r));
                    }
                    true
                },
            },
            None => {
                let taken: bool = hook.try_cache(region);
                proof {
                    assert(h.may_take(hook, region, taken));
                }
                true
            },
        }
    }
}

/// A pool is in order: its free slots are slots, each once.
pub open spec fn pool_ok(v: PoolView) -> bool {
    &&& 0 < v.cap <= u32::MAX
    &&& 0 <= v.base
    &&& v.base % (LARGE_SLOT_ALIGN as int) == 0
    &&& v.base + v.cap * LARGE_SLOT_BYTES <= usize::MAX
    &&& v.slots.len() <= v.cap
    &&& v.free.no_duplicates()
    &&& forall|k: int| #![trigger v.free[k]] 0 <= k < v.free.len() ==> v.free[k] < v.slots.len()
}

/// Taking a slot takes none that is in use, and leaves those in use as they are.
proof fn lemma_taken(v: PoolView, desc: LargeDescriptor, backing: Option<ExtentRef>)
    requires
        pool_ok(v),
        !v.full(),
    ensures
        ({
            let i = v.next_slot();
            let w = v.taken(desc, backing);
            &&& 0 <= i < v.cap
            &&& !v.live(i)
            &&& w.live(i)
            &&& w.slots[i] == (desc, backing)
            &&& forall|j: int| #[trigger]
                v.live(j) ==> w.live(j) && w.slots[j] == v.slots[j] && w.freed(i).live(j)
        }),
{
    let i = v.next_slot();
    let w = v.taken(desc, backing);
    if v.free.len() > 0 {
        assert(v.free[v.free.len() - 1] == i);
        assert(v.free.contains(i as u32));
        if w.free.contains(i as u32) {
            let k = w.free.index_of(i as u32);
            assert(v.free[k] == i);
        }
        assert forall|j: int| #[trigger] v.live(j) implies w.live(j) && w.slots[j] == v.slots[j]
            && w.freed(i).live(j) by {
            if w.free.contains(j as u32) {
                let k = w.free.index_of(j as u32);
                assert(v.free[k] == j);
            }
            if w.freed(i).free.contains(j as u32) {
                let k = w.freed(i).free.index_of(j as u32);
                if k < w.free.len() {
                    assert(v.free[k] == j);
                }
            }
        }
    } else {
        assert forall|j: int| #[trigger] v.live(j) implies w.live(j) && w.slots[j] == v.slots[j]
            && w.freed(i).live(j) by {
            if w.freed(i).free.contains(j as u32) {
                let k = w.freed(i).free.index_of(j as u32);
                assert(k == 0);
            }
        }
    }
}

/// Publishing an allocation keeps the page map in step with the pool.
proof fn lemma_fits_published(
    v: PoolView,
    pm: PageMapView,
    desc: LargeDescriptor,
    backing: Option<ExtentRef>,
    end: int,
    nodes: Set<pagemap::Place>,
)
    requires
        pool_ok(v),
        !v.full(),
        fits(v, pm),
        end <= pagemap::large_pages(desc).1,
    ensures
        fits(
            v.taken(desc, backing),
            pm.installed(
                pagemap::large_pages(desc).0,
                end,
                PageEntry::Large(LargeRef(v.address(v.next_slot()) as usize)),
                nodes,
            ),
        ),
{
    let i = v.next_slot();
    let w = v.taken(desc, backing);
    let at = LargeRef(v.address(i) as usize);
    let first = pagemap::large_pages(desc).0;
    let m = pm.installed(first, end, PageEntry::Large(at), nodes);
    reveal(fits);
    lemma_taken(v, desc, backing);
    lemma_address(v, i);
    assert forall|p: int|
        #![trigger m.entry(p)]
        match m.entry(p) {
            PageEntry::Large(a) => match w.named(a) {
                Some(j) => {
                    &&& w.live(j)
                    &&& pagemap::large_pages(w.slots[j].0).0 <= p < pagemap::large_pages(
                        w.slots[j].0,
                    ).1
                },
                None => true,
            },
            _ => true,
        } by {
        pagemap::law_install_then_lookup(pm, first, end, PageEntry::Large(at), nodes, p);
        if !(first <= p < end) {
            assert(m.entry(p) == pm.entry(p));
            if let PageEntry::Large(a) = pm.entry(p) {
                if let Some(j) = v.named(a) {
                    assert(v.live(j));
                }
            }
        }
    }
}

/// Clearing the pages of a slot, and freeing it, keeps the page map in step with the pool.
proof fn lemma_fits_freed(v: PoolView, pm: PageMapView, i: int)
    requires
        pool_ok(v),
        fits(v, pm),
        v.live(i),
        forall|p: int| #[trigger]
            pm.owned.contains_key(p) ==> pm.mapped.contains(p) && pm.owned[p] != PageEntry::Empty,
    ensures
        fits(
            v.freed(i),
            pm.overwritten(
                pagemap::large_pages(v.slots[i].0).0,
                pagemap::large_pages(v.slots[i].0).1,
                PageEntry::Empty,
            ),
        ),
        pool_ok(v.freed(i)),
{
    let w = v.freed(i);
    let (first, end) = pagemap::large_pages(v.slots[i].0);
    let m = pm.overwritten(first, end, PageEntry::Empty);
    reveal(fits);
    assert(pool_ok(w)) by {
        assert forall|a: int, b: int| 0 <= a < b < w.free.len() implies w.free[a] != w.free[b] by {
            assert(v.free[a] == w.free[a]);
            assert(v.free.contains(v.free[a]));
        }
        assert forall|k: int| #![trigger w.free[k]] 0 <= k < w.free.len() implies w.free[k]
            < w.slots.len() by {
            if k < v.free.len() {
                assert(v.free[k] == w.free[k]);
            }
        }
    }
    assert forall|p: int|
        #![trigger m.entry(p)]
        match m.entry(p) {
            PageEntry::Large(a) => match w.named(a) {
                Some(j) => {
                    &&& w.live(j)
                    &&& pagemap::large_pages(w.slots[j].0).0 <= p < pagemap::large_pages(
                        w.slots[j].0,
                    ).1
                },
                None => true,
            },
            _ => true,
        } by {
        if m.entry(p) is Large {
            assert(pm.owned.contains_key(p));
            assert(m.entry(p) == pm.entry(p));
            let a = pm.entry(p)->Large_0;
            if let Some(j) = v.named(a) {
                assert(v.live(j));
                if j == i {
                    assert(first <= p < end);
                    assert(pm.mapped.contains(p));
                }
                if w.free.contains(j as u32) {
                    let k = w.free.index_of(j as u32);
                    if k < v.free.len() {
                        assert(v.free[k] == j as u32);
                        assert(v.free.contains(j as u32));
                    }
                }
            }
        }
    }
}

impl<X: ExtentSource> LargeAllocator<X> {
    /// Give a region that was had for an allocation of `arena` a descriptor, and let the page map
    /// find it; or give it back.
    fn settle<H: RegionCacheHook>(
        &mut self,
        pm: &mut PageMap,
        meta: &mut BumpArena,
        arena: ArenaId,
        align: usize,
        region: Region,
        backing: Option<ExtentRef>,
        hook: &mut H,
    ) -> (res: Option<usize>)
        requires
            old(self).wf(),
            old(pm).wf(),
            old(meta).wf(),
            old(hook).hook_wf(),
            fits(old(self)@.pool, old(pm)@),
        ensures
            final(self).wf(),
            final(pm).wf(),
            final(meta).wf(),
            final(hook).hook_wf(),
            fits(final(self)@.pool, final(pm)@),
            settles(
                old(self)@,
                final(self)@,
                (old(pm)@, final(pm)@),
                (*old(meta), *final(meta)),
                old(self)@.extents,
                (*old(hook), *final(hook)),
                arena,
                align,
                (region, backing),
                res,
            ),
    {
        let ghost before = self@;
        let ghost v = before.pool;
        let ghost pm0 = pm@;
        let ghost meta0 = *meta;
        let ghost hook0 = *hook;
        proof {
            self.lemma_wf();
            pm.lemma_wf();
        }
        if region.len > usize::MAX - region.base {
            let ok: bool = self.return_backing(backing, region, hook, None);
            return None;
        }
        let i: u32 = match self.pool.acquire(arena, region, align, backing) {
            Some(i) => i,
            None => {
                let ok: bool = self.return_backing(backing, region, hook, None);
                return None;
            },
        };
        let ghost desc = v.next_desc(arena, region, align);
        let ghost taken = v.taken(desc, backing);
        let ghost pages = pagemap::large_pages(desc);
        proof {
            lemma_taken(v, desc, backing);
            lemma_address(v, i as int);
        }
        let at: LargeRef = self.pool.address(i);
        let made: LargeDescriptor = self.pool.slots[i as usize].desc;
        let ghost entry = PageEntry::Large(at);
        proof {
            assert(self@.pool == taken);
            assert(self@.pool.slots[i as int].0 == made);
            assert(made == desc);
            assert(at == LargeRef(v.address(i as int) as usize));
        }
        match pm.install_large(meta, at, &made) {
            Ok(u) => {
                proof {
                    assert(u == ());
                    lemma_fits_published(v, pm0, desc, backing, pages.1, pm@.nodes);
                    assert(pm0.publishes(pm@, meta0, *meta, pages, entry, Ok(())));
                    assert(self@ == (LargeView { pool: taken, ..before }));
                    assert(settles(
                        before,
                        self@,
                        (pm0, pm@),
                        (meta0, *meta),
                        before.extents,
                        (hook0, *hook),
                        arena,
                        align,
                        (region, backing),
                        Some(region.base),
                    ));
                }
                Some(region.base)
            },
            Err(e) => {
                let ghost mid = pm@;
                proof {
                    assert(pm0.publishes(mid, meta0, *meta, pages, entry, Err(e)));
                    let p = choose|p: int| #[trigger] pm0.publishes_up_to(mid, pages, entry, p);
                    lemma_fits_published(v, pm0, desc, backing, p, mid.nodes);
                    self.lemma_wf();
                    pm.lemma_wf();
                    lemma_fits_freed(taken, mid, i as int);
                }
                pm.retire_large(&made);
                self.pool.release(i);
                let ok: bool = self.return_backing(backing, region, hook, None);
                proof {
                    assert(pm@ == mid.overwritten(pages.0, pages.1, PageEntry::Empty));
                    assert(self@ == (LargeView {
                        extents: self@.extents,
                        pool: taken.freed(i as int),
                        ..before
                    }));
                    assert(ok);
                    assert(e == PagemapError::OutOfMetadata);
                    assert(pm0.publishes(
                        mid,
                        meta0,
                        *meta,
                        pages,
                        entry,
                        Err(PagemapError::OutOfMetadata),
                    ));
                    lemma_rolled_back(pm0, mid, pm@, (meta0, *meta), pages, entry);
                    assert(settles(
                        before,
                        self@,
                        (pm0, pm@),
                        (meta0, *meta),
                        before.extents,
                        (hook0, *hook),
                        arena,
                        align,
                        (region, backing),
                        None,
                    ));
                }
                None
            },
        }
    }

    /// Allocate at least `bytes` bytes at `align` for `arena`, and let the page map find them;
    /// their first address. The cache is asked for a region first. `None` when there is none,
    /// when too many allocations are in use, or when the page map has no metadata; nothing of
    /// the attempt is left then.
    pub fn allocate_with_in<H: RegionCacheHook>(
        &mut self,
        pm: &mut PageMap,
        meta: &mut BumpArena,
        arena: ArenaId,
        bytes: usize,
        align: usize,
        hook: &mut H,
    ) -> (res: Option<usize>)
        requires
            old(self).wf(),
            old(pm).wf(),
            old(meta).wf(),
            old(hook).hook_wf(),
            fits(old(self)@.pool, old(pm)@),
        ensures
            final(self).wf(),
            final(pm).wf(),
            final(meta).wf(),
            final(hook).hook_wf(),
            fits(final(self)@.pool, final(pm)@),
            allocates(
                old(self)@,
                final(self)@,
                (old(pm)@, final(pm)@),
                (*old(meta), *final(meta)),
                (*old(hook), *final(hook)),
                arena,
                bytes,
                align,
                res,
            ),
    {
        let ghost before = self@;
        let ghost hook0 = *hook;
        let ghost pm0 = pm@;
        let ghost meta0 = *meta;
        let got = alloc_large(&mut self.extents, bytes, align, hook);
        let ghost x = self@.extents;
        let ghost h = *hook;
        let res: Option<usize> = match got {
            Ok((region, backing)) => self.settle(pm, meta, arena, align, region, backing, hook),
            Err(_) => None,
        };
        proof {
            assert(allocates_from(
                before,
                self@,
                (pm0, pm@),
                (meta0, *meta),
                (hook0, *hook),
                arena,
                bytes,
                align,
                res,
                (x, h, got),
            ));
        }
        res
    }

    /// Allocate for the allocator's own arena.
    pub fn allocate_with<H: RegionCacheHook>(
        &mut self,
        pm: &mut PageMap,
        meta: &mut BumpArena,
        bytes: usize,
        align: usize,
        hook: &mut H,
    ) -> (res: Option<usize>)
        requires
            old(self).wf(),
            old(pm).wf(),
            old(meta).wf(),
            old(hook).hook_wf(),
            fits(old(self)@.pool, old(pm)@),
        ensures
            final(self).wf(),
            final(pm).wf(),
            final(meta).wf(),
            final(hook).hook_wf(),
            fits(final(self)@.pool, final(pm)@),
            allocates(
                old(self)@,
                final(self)@,
                (old(pm)@, final(pm)@),
                (*old(meta), *final(meta)),
                (*old(hook), *final(hook)),
                old(self)@.arena,
                bytes,
                align,
                res,
            ),
    {
        let arena: ArenaId = self.arena;
        self.allocate_with_in(pm, meta, arena, bytes, align, hook)
    }

    /// Allocate for the allocator's own arena, with no cache.
    pub fn allocate(
        &mut self,
        pm: &mut PageMap,
        meta: &mut BumpArena,
        bytes: usize,
        align: usize,
    ) -> (res: Option<usize>)
        requires
            old(self).wf(),
            old(pm).wf(),
            old(meta).wf(),
            fits(old(self)@.pool, old(pm)@),
        ensures
            final(self).wf(),
            final(pm).wf(),
            final(meta).wf(),
            fits(final(self)@.pool, final(pm)@),
            allocates(
                old(self)@,
                final(self)@,
                (old(pm)@, final(pm)@),
                (*old(meta), *final(meta)),
                (NoRegionCache, NoRegionCache),
                old(self)@.arena,
                bytes,
                align,
                res,
            ),
    {
        let mut none: NoRegionCache = NoRegionCache;
        self.allocate_with(pm, meta, bytes, align, &mut none)
    }

    /// Allocate for `arena`, with no cache.
    pub fn allocate_in(
        &mut self,
        pm: &mut PageMap,
        meta: &mut BumpArena,
        arena: ArenaId,
        bytes: usize,
        align: usize,
    ) -> (res: Option<usize>)
        requires
            old(self).wf(),
            old(pm).wf(),
            old(meta).wf(),
            fits(old(self)@.pool, old(pm)@),
        ensures
            final(self).wf(),
            final(pm).wf(),
            final(meta).wf(),
            fits(final(self)@.pool, final(pm)@),
            allocates(
                old(self)@,
                final(self)@,
                (old(pm)@, final(pm)@),
                (*old(meta), *final(meta)),
                (NoRegionCache, NoRegionCache),
                arena,
                bytes,
                align,
                res,
            ),
    {
        let mut none: NoRegionCache = NoRegionCache;
        self.allocate_with_in(pm, meta, arena, bytes, align, &mut none)
    }

    /// The slot of the allocation that an address belongs to.
    fn find(&self, pm: &PageMap, addr: usize) -> (res: Option<u32>)
        requires
            self.wf(),
            pm.wf(),
            fits(self@.pool, pm@),
        ensures
            match res {
                Some(i) => resolves(self@.pool, pm@, addr) == Some(i as int) && self@.pool.live(
                    i as int,
                ),
                None => resolves(self@.pool, pm@, addr) is None,
            },
    {
        proof {
            reveal(fits);
        }
        if addr == 0 {
            return None;
        }
        match pm.lookup(addr).large_ptr() {
            Some(at) => self.pool.index_of(at),
            None => None,
        }
    }

    /// The arena of the allocation that an address belongs to; `None` when it belongs to none of
    /// this allocator's.
    pub fn arena_of(&self, pm: &PageMap, addr: usize) -> (res: Option<ArenaId>)
        requires
            self.wf(),
            pm.wf(),
            fits(self@.pool, pm@),
        ensures
            res == (match resolves(self@.pool, pm@, addr) {
                Some(i) => Some(self@.pool.slots[i].0.arena),
                None => None,
            }),
    {
        match self.find(pm, addr) {
            Some(i) => {
                let slot: LargeSlot = self.pool.slots[i as usize];
                Some(slot.desc.arena)
            },
            None => None,
        }
    }

    /// The usable bytes of the allocation that an address belongs to; `None` when it belongs to
    /// none of this allocator's.
    pub fn usable_size(&self, pm: &PageMap, addr: usize) -> (res: Option<usize>)
        requires
            self.wf(),
            pm.wf(),
            fits(self@.pool, pm@),
        ensures
            res == (match resolves(self@.pool, pm@, addr) {
                Some(i) => Some(self@.pool.slots[i].0.usable),
                None => None,
            }),
    {
        match self.find(pm, addr) {
            Some(i) => {
                let slot: LargeSlot = self.pool.slots[i as usize];
                Some(slot.desc.usable)
            },
            None => None,
        }
    }
}

impl<X: ExtentSource> LargeAllocator<X> {
    /// Free the allocation at an address: whether there was one, and whether its region went
    /// back.
    fn free_inner<H: RegionCacheHook>(
        &mut self,
        pm: &mut PageMap,
        addr: usize,
        hook: &mut H,
        revoke: Option<ArenaId>,
    ) -> (res: (bool, bool))
        requires
            old(self).wf(),
            old(pm).wf(),
            old(hook).hook_wf(),
            fits(old(self)@.pool, old(pm)@),
        ensures
            final(self).wf(),
            final(pm).wf(),
            final(hook).hook_wf(),
            fits(final(self)@.pool, final(pm)@),
            frees(
                old(self)@,
                final(self)@,
                (old(pm)@, final(pm)@),
                (*old(hook), *final(hook)),
                addr,
                revoke,
                res,
            ),
    {
        let ghost before = self@;
        let ghost pm0 = pm@;
        proof {
            self.lemma_wf();
            pm.lemma_wf();
        }
        let i: u32 = match self.find(pm, addr) {
            Some(i) => i,
            None => return (false, false),
        };
        let slot: LargeSlot = self.pool.slots[i as usize];
        proof {
            assert(before.pool.slots[i as int] == (slot.desc, slot.backing));
        }
        if slot.desc.base != addr {
            return (false, false);
        }
        let region: Region = Region { base: slot.desc.base, len: slot.desc.usable };
        proof {
            lemma_fits_freed(before.pool, pm0, i as int);
        }
        pm.retire_large(&slot.desc);
        self.pool.release(i);
        let reclaimed: bool = self.return_backing(slot.backing, region, hook, revoke);
        (true, reclaimed)
    }

    /// Free the allocation whose first address is `addr`, and let the cache have its region when
    /// it came from there. `false`, with nothing changed, when there is no such allocation.
    pub fn free_with<H: RegionCacheHook>(
        &mut self,
        pm: &mut PageMap,
        addr: usize,
        hook: &mut H,
    ) -> (res: bool)
        requires
            old(self).wf(),
            old(pm).wf(),
            old(hook).hook_wf(),
            fits(old(self)@.pool, old(pm)@),
        ensures
            final(self).wf(),
            final(pm).wf(),
            final(hook).hook_wf(),
            fits(final(self)@.pool, final(pm)@),
            frees(
                old(self)@,
                final(self)@,
                (old(pm)@, final(pm)@),
                (*old(hook), *final(hook)),
                addr,
                None,
                (res, res),
            ),
    {
        let (retired, _reclaimed): (bool, bool) = self.free_inner(pm, addr, hook, None);
        retired
    }

    /// Free the allocation whose first address is `addr`, with no cache.
    pub fn free(&mut self, pm: &mut PageMap, addr: usize) -> (res: bool)
        requires
            old(self).wf(),
            old(pm).wf(),
            fits(old(self)@.pool, old(pm)@),
        ensures
            final(self).wf(),
            final(pm).wf(),
            fits(final(self)@.pool, final(pm)@),
            frees(
                old(self)@,
                final(self)@,
                (old(pm)@, final(pm)@),
                (NoRegionCache, NoRegionCache),
                addr,
                None,
                (res, res),
            ),
    {
        let mut none: NoRegionCache = NoRegionCache;
        self.free_with(pm, addr, &mut none)
    }

    /// Free the allocation whose first address is `addr`, once what `arena` derived from its
    /// extent is revoked: whether there was one, and whether its extent was freed. An extent that
    /// could not be revoked stays allocated; the allocation is gone all the same.
    pub fn free_revoking(&mut self, pm: &mut PageMap, addr: usize, arena: ArenaId) -> (res: (
        bool,
        bool,
    ))
        requires
            old(self).wf(),
            old(pm).wf(),
            fits(old(self)@.pool, old(pm)@),
        ensures
            final(self).wf(),
            final(pm).wf(),
            fits(final(self)@.pool, final(pm)@),
            frees(
                old(self)@,
                final(self)@,
                (old(pm)@, final(pm)@),
                (NoRegionCache, NoRegionCache),
                addr,
                Some(arena),
                res,
            ),
    {
        let mut none: NoRegionCache = NoRegionCache;
        self.free_inner(pm, addr, &mut none, Some(arena))
    }

    /// The first allocation of `arena` that the page map finds.
    fn first_of_arena(&self, pm: &PageMap, arena: ArenaId) -> (res: Option<u32>)
        requires
            self.wf(),
            pm.wf(),
        ensures
            match res {
                Some(i) => first_of(self@.pool, pm@, arena, i as int),
                None => none_of(self@.pool, pm@, arena),
            },
    {
        let ghost v = self@.pool;
        proof {
            self.lemma_wf();
        }
        let mut i: u32 = 0;
        while (i as usize) < self.pool.slots.len()
            invariant
                self.wf(),
                pm.wf(),
                v == self@.pool,
                pool_ok(v),
                v.slots.len() == self.pool.slots@.len(),
                i <= v.slots.len(),
                forall|j: int| 0 <= j < i ==> !#[trigger] found_of(v, pm@, arena, j),
            decreases v.slots.len() - i,
        {
            proof {
                self.lemma_in_range(i as int);
                lemma_address(v, i as int);
            }
            let at: LargeRef = self.pool.address(i);
            let slot: LargeSlot = self.pool.slots[i as usize];
            proof {
                assert(v.slots[i as int].0 == slot.desc);
            }
            let found: bool = match pm.lookup(slot.desc.base).large_ptr() {
                Some(r) => r.0 == at.0,
                None => false,
            };
            if found && slot.desc.arena == arena {
                return Some(i);
            }
            i = i + 1;
        }
        None
    }

    /// Free every allocation of `arena`, once what the arena derived from each extent is revoked:
    /// how many there were, their bytes, and whether every extent was freed.
    pub fn free_arena(&mut self, pm: &mut PageMap, arena: ArenaId) -> (res: (usize, usize, bool))
        requires
            old(self).wf(),
            old(pm).wf(),
            fits(old(self)@.pool, old(pm)@),
        ensures
            final(self).wf(),
            final(pm).wf(),
            fits(final(self)@.pool, final(pm)@),
            exists|
                states: Seq<(LargeView<X>, PageMapView)>,
                freed: Seq<int>,
                oks: Seq<bool>,
            |
                {
                    &&& #[trigger] drains(states, freed, oks, arena, res)
                    &&& states[0] == (old(self)@, old(pm)@)
                    &&& states.last() == (final(self)@, final(pm)@)
                },
    {
        let mut count: usize = 0;
        let mut bytes: usize = 0;
        let mut all: bool = true;
        let ghost mut states: Seq<(LargeView<X>, PageMapView)> = seq![(self@, pm@)];
        let ghost mut freed: Seq<int> = Seq::empty();
        let ghost mut oks: Seq<bool> = Seq::empty();
        proof {
            self.lemma_wf();
        }
        loop
            invariant
                self.wf(),
                pm.wf(),
                fits(self@.pool, pm@),
                states.len() == freed.len() + 1,
                oks.len() == freed.len(),
                states[0] == (old(self)@, old(pm)@),
                states.last() == (self@, pm@),
                count == freed.len(),
                count + self@.pool.live_count() <= usize::MAX,
                bytes == usable_total(states, freed, freed.len() as int),
                all == (forall|k: int| #![trigger oks[k]] 0 <= k < oks.len() ==> oks[k]),
                forall|k: int|
                    #![trigger freed[k]]
                    0 <= k < freed.len() ==> drain_step(
                        states[k],
                        states[k + 1],
                        arena,
                        freed[k],
                        oks[k],
                    ),
            decreases self@.pool.live_count(),
        {
            let ghost n = freed.len() as int;
            match self.first_of_arena(pm, arena) {
                None => {
                    proof {
                        assert(drains(states, freed, oks, arena, (count, bytes, all)));
                    }
                    return (count, bytes, all);
                },
                Some(i) => {
                    let slot: LargeSlot = self.pool.slots[i as usize];
                    let ghost now = (self@, pm@);
                    proof {
                        self.lemma_wf();
                        assert(now.0.pool.slots[i as int] == (slot.desc, slot.backing));
                        lemma_address(now.0.pool, i as int);
                    }
                    let (retired, ok): (bool, bool) = self.free_revoking(
                        pm,
                        slot.desc.base,
                        arena,
                    );
                    if !retired {
                        proof {
                            assert(first_of(states[n].0.pool, states[n].1, arena, i as int));
                            assert(drains(states, freed, oks, arena, (count, bytes, false)));
                        }
                        return (count, bytes, false);
                    }
                    let ghost before_states = states;
                    let ghost before_freed = freed;
                    let ghost before_oks = oks;
                    proof {
                        assert(drain_step(now, (self@, pm@), arena, i as int, ok));
                        states = states.push((self@, pm@));
                        freed = freed.push(i as int);
                        oks = oks.push(ok);
                        lemma_total_extends(before_states, before_freed, states, freed, n);
                        self.lemma_wf();
                        assert((all && ok) == (forall|k: int|
                            #![trigger oks[k]]
                            0 <= k < oks.len() ==> oks[k])) by {
                            assert(oks[n] == ok);
                            assert forall|k: int| #![trigger before_oks[k]] 0 <= k < n implies oks[k]
                                == before_oks[k] by {}
                        }
                    }
                    count = count + 1;
                    bytes = bytes.saturating_add(slot.desc.usable);
                    all = all && ok;
                },
            }
        }
    }

    /// A slot of the pool is within it.
    proof fn lemma_in_range(self, i: int)
        requires
            self.wf(),
            0 <= i < self.pool.slots@.len(),
        ensures
            i < self.pool.cap,
    {
        reveal(LargePool::wf);
    }
}

/// The bytes of the allocations freed so far do not depend on those freed later.
proof fn lemma_total_extends<X: ExtentSource>(
    states: Seq<(LargeView<X>, PageMapView)>,
    freed: Seq<int>,
    more_states: Seq<(LargeView<X>, PageMapView)>,
    more_freed: Seq<int>,
    n: int,
)
    requires
        n <= freed.len(),
        freed.len() < states.len(),
        forall|k: int| #![trigger more_states[k]] 0 <= k < states.len() ==> more_states[k] == states[k],
        forall|k: int| #![trigger more_freed[k]] 0 <= k < freed.len() ==> more_freed[k] == freed[k],
    ensures
        usable_total(more_states, more_freed, n) == usable_total(states, freed, n),
    decreases n,
{
    if n > 0 {
        lemma_total_extends(states, freed, more_states, more_freed, n - 1);
    }
}

/// The large allocations of some backend, whatever its extents are.
///
/// The relations say what an operation may answer and what the backend then is, so that a caller
/// learns of each call what was asked and what came of it.
pub trait LargeBacking: Sized {
    /// What the backend keeps.
    spec fn backing_wf(&self) -> bool;

    /// What a page map has for the backend is in step with it.
    spec fn in_step(&self, pm: PageMapView) -> bool;

    /// The outcomes of [`allocate_in`](Self::allocate_in), with the page map and the metadata
    /// before and after it.
    spec fn may_allocate(
        &self,
        after: &Self,
        pm: (PageMapView, PageMapView),
        meta: (BumpArena, BumpArena),
        arena: ArenaId,
        bytes: usize,
        align: usize,
        res: Option<usize>,
    ) -> bool;

    /// The outcomes of [`free`](Self::free), with the page map before and after it.
    spec fn may_free(
        &self,
        after: &Self,
        pm: (PageMapView, PageMapView),
        addr: usize,
        res: bool,
    ) -> bool;

    /// The outcomes of [`free_arena`](Self::free_arena), with the page map before and after it.
    spec fn may_free_arena(
        &self,
        after: &Self,
        pm: (PageMapView, PageMapView),
        arena: ArenaId,
        res: (usize, usize, bool),
    ) -> bool;

    /// The usable bytes and the arena of the allocation that an address belongs to.
    spec fn allocation_at(&self, pm: PageMapView, addr: usize) -> Option<(usize, ArenaId)>;

    /// Large allocations in use.
    spec fn in_use(&self) -> int;

    /// The answers to [`state_bytes`](Self::state_bytes).
    spec fn may_hold(&self, res: StateBytes) -> bool;

    /// The answers to [`check_invariants`](Self::check_invariants).
    spec fn may_be_good(&self, res: bool) -> bool;

    /// Allocate for `arena`.
    fn allocate_in(
        &mut self,
        pm: &mut PageMap,
        meta: &mut BumpArena,
        arena: ArenaId,
        bytes: usize,
        align: usize,
    ) -> (res: Option<usize>)
        requires
            old(self).backing_wf(),
            old(self).in_step(old(pm)@),
            old(pm).wf(),
            old(meta).wf(),
        ensures
            final(self).backing_wf(),
            final(self).in_step(final(pm)@),
            final(pm).wf(),
            final(meta).wf(),
            old(self).may_allocate(
                final(self),
                (old(pm)@, final(pm)@),
                (*old(meta), *final(meta)),
                arena,
                bytes,
                align,
                res,
            ),
    ;

    /// The usable bytes of the allocation of this backend that an address belongs to.
    fn usable_size(&self, pm: &PageMap, addr: usize) -> (res: Option<usize>)
        requires
            self.backing_wf(),
            self.in_step(pm@),
            pm.wf(),
        ensures
            res == (match self.allocation_at(pm@, addr) {
                Some((usable, _)) => Some(usable),
                None => None,
            }),
    ;

    /// The arena of the allocation of this backend that an address belongs to.
    fn arena_of(&self, pm: &PageMap, addr: usize) -> (res: Option<ArenaId>)
        requires
            self.backing_wf(),
            self.in_step(pm@),
            pm.wf(),
        ensures
            res == (match self.allocation_at(pm@, addr) {
                Some((_, arena)) => Some(arena),
                None => None,
            }),
    ;

    /// Free the allocation of this backend whose first address is `addr`.
    fn free(&mut self, pm: &mut PageMap, addr: usize) -> (res: bool)
        requires
            old(self).backing_wf(),
            old(self).in_step(old(pm)@),
            old(pm).wf(),
        ensures
            final(self).backing_wf(),
            final(self).in_step(final(pm)@),
            final(pm).wf(),
            old(self).may_free(final(self), (old(pm)@, final(pm)@), addr, res),
    ;

    /// Free every allocation of `arena`.
    fn free_arena(&mut self, pm: &mut PageMap, arena: ArenaId) -> (res: (usize, usize, bool))
        requires
            old(self).backing_wf(),
            old(self).in_step(old(pm)@),
            old(pm).wf(),
        ensures
            final(self).backing_wf(),
            final(self).in_step(final(pm)@),
            final(pm).wf(),
            old(self).may_free_arena(final(self), (old(pm)@, final(pm)@), arena, res),
    ;

    /// Large allocations in use.
    fn live_count(&self) -> (res: usize)
        requires
            self.backing_wf(),
        ensures
            res == self.in_use(),
    ;

    /// The bytes of the reservation by state.
    fn state_bytes(&self) -> (res: StateBytes)
        requires
            self.backing_wf(),
        ensures
            self.may_hold(res),
    ;

    /// Whether the backend is as it should be.
    fn check_invariants(&self) -> (res: bool)
        requires
            self.backing_wf(),
        ensures
            self.may_be_good(res),
    ;
}

impl<X: ExtentSource> LargeBacking for LargeAllocator<X> {
    open spec fn backing_wf(&self) -> bool {
        self.wf()
    }

    open spec fn in_step(&self, pm: PageMapView) -> bool {
        fits(self@.pool, pm)
    }

    open spec fn may_allocate(
        &self,
        after: &Self,
        pm: (PageMapView, PageMapView),
        meta: (BumpArena, BumpArena),
        arena: ArenaId,
        bytes: usize,
        align: usize,
        res: Option<usize>,
    ) -> bool {
        allocates(
            self@,
            after@,
            pm,
            meta,
            (NoRegionCache, NoRegionCache),
            arena,
            bytes,
            align,
            res,
        )
    }

    open spec fn may_free(
        &self,
        after: &Self,
        pm: (PageMapView, PageMapView),
        addr: usize,
        res: bool,
    ) -> bool {
        frees(self@, after@, pm, (NoRegionCache, NoRegionCache), addr, None, (res, res))
    }

    open spec fn may_free_arena(
        &self,
        after: &Self,
        pm: (PageMapView, PageMapView),
        arena: ArenaId,
        res: (usize, usize, bool),
    ) -> bool {
        exists|states: Seq<(LargeView<X>, PageMapView)>, freed: Seq<int>, oks: Seq<bool>|
            {
                &&& #[trigger] drains(states, freed, oks, arena, res)
                &&& states[0] == (self@, pm.0)
                &&& states.last() == (after@, pm.1)
            }
    }

    open spec fn allocation_at(&self, pm: PageMapView, addr: usize) -> Option<(usize, ArenaId)> {
        match resolves(self@.pool, pm, addr) {
            Some(i) => Some((self@.pool.slots[i].0.usable, self@.pool.slots[i].0.arena)),
            None => None,
        }
    }

    open spec fn in_use(&self) -> int {
        self@.pool.live_count()
    }

    open spec fn may_hold(&self, res: StateBytes) -> bool {
        self@.extents.may_hold(res)
    }

    open spec fn may_be_good(&self, res: bool) -> bool {
        self@.extents.may_be_good(res)
    }

    fn allocate_in(
        &mut self,
        pm: &mut PageMap,
        meta: &mut BumpArena,
        arena: ArenaId,
        bytes: usize,
        align: usize,
    ) -> (res: Option<usize>) {
        LargeAllocator::allocate_in(self, pm, meta, arena, bytes, align)
    }

    fn usable_size(&self, pm: &PageMap, addr: usize) -> (res: Option<usize>) {
        LargeAllocator::usable_size(self, pm, addr)
    }

    fn arena_of(&self, pm: &PageMap, addr: usize) -> (res: Option<ArenaId>) {
        LargeAllocator::arena_of(self, pm, addr)
    }

    fn free(&mut self, pm: &mut PageMap, addr: usize) -> (res: bool) {
        LargeAllocator::free(self, pm, addr)
    }

    fn free_arena(&mut self, pm: &mut PageMap, arena: ArenaId) -> (res: (usize, usize, bool)) {
        LargeAllocator::free_arena(self, pm, arena)
    }

    fn live_count(&self) -> (res: usize) {
        LargeAllocator::live_count(self)
    }

    fn state_bytes(&self) -> (res: StateBytes) {
        LargeAllocator::state_bytes(self)
    }

    fn check_invariants(&self) -> (res: bool) {
        LargeAllocator::check_invariants(self)
    }
}

/// The cache and the manager of the extents serve what they are asked for: what they answer to
/// such a request is as large and as aligned as was asked.
pub open spec fn serves_requests<X: ExtentSource, H: RegionCacheHook>(
    extents: X,
    hook: H,
    bytes: usize,
    align: usize,
) -> bool {
    &&& forall|after: H, hints: Hints, region: Region| #[trigger]
        hook.may_serve(&after, bytes, align, hints, Some(region)) ==> region.len >= bytes
            && region.base as int % (align as int) == 0
    &&& forall|after: X, region: Region, extent: ExtentRef| #[trigger]
        extents.may_allocate(&after, bytes, align, Ok((region, extent))) ==> region.len >= bytes
            && region.base as int % (align as int) == 0
}

/// Where the cache and the manager of the extents serve what they are asked for, an allocation is
/// aligned as was asked, and its usable size is at least what was asked for, and is found at its
/// address, but for an allocation of nothing or at address 0.
pub proof fn law_allocation_is_large_enough_and_aligned<X: ExtentSource, H: RegionCacheHook>(
    before: LargeView<X>,
    after: LargeView<X>,
    pm: (PageMapView, PageMapView),
    meta: (BumpArena, BumpArena),
    hook: (H, H),
    arena: ArenaId,
    bytes: usize,
    align: usize,
    base: usize,
)
    requires
        pool_ok(before.pool),
        serves_requests(before.extents, hook.0, bytes, align),
        allocates(before, after, pm, meta, hook, arena, bytes, align, Some(base)),
    ensures
        base as int % (align as int) == 0,
        after.pool.slots[before.pool.next_slot()].0.base == base,
        after.pool.slots[before.pool.next_slot()].0.usable >= bytes,
        0 < bytes && base != 0 ==> resolves(after.pool, pm.1, base) == Some(
            before.pool.next_slot(),
        ),
{
    let (x, h, got) = choose|
        extents: X,
        h: H,
        got: Result<(Region, Option<ExtentRef>), ExtentError>,
    | #[trigger]
        allocates_from(
            before,
            after,
            pm,
            meta,
            hook,
            arena,
            bytes,
            align,
            Some(base),
            (extents, h, got),
        );
    let g = got->Ok_0;
    assert(g.0.base == base);
    assert(g.0.len >= bytes);
    lemma_taken(before.pool, before.pool.next_desc(arena, g.0, align), g.1);
    if 0 < bytes && base != 0 {
        law_allocation_is_found(
            before,
            after,
            pm,
            meta,
            x,
            (h, hook.1),
            arena,
            align,
            g,
            base,
            base,
        );
    }
}

/// Every address of an allocation belongs to it, from the moment it is handed out; so its usable
/// size and its arena are found, and freeing it at its first address succeeds.
pub proof fn law_allocation_is_found<X: ExtentSource, H: RegionCacheHook>(
    before: LargeView<X>,
    after: LargeView<X>,
    pm: (PageMapView, PageMapView),
    meta: (BumpArena, BumpArena),
    extents: X,
    hook: (H, H),
    arena: ArenaId,
    align: usize,
    got: (Region, Option<ExtentRef>),
    base: usize,
    addr: usize,
)
    requires
        pool_ok(before.pool),
        settles(before, after, pm, meta, extents, hook, arena, align, got, Some(base)),
        addr != 0,
        got.0.has(addr as int),
    ensures
        ({
            let found = resolves(after.pool, pm.1, addr);
            &&& found == Some(before.pool.next_slot())
            &&& after.pool.live(found->0)
            &&& after.pool.slots[found->0].0.base == base
            &&& after.pool.slots[found->0].0.usable == got.0.len
            &&& after.pool.slots[found->0].0.arena == arena
        }),
{
    let v = before.pool;
    let i = v.next_slot();
    let desc = v.next_desc(arena, got.0, align);
    let pages = pagemap::large_pages(desc);
    let at = LargeRef(v.address(i) as usize);
    lemma_taken(v, desc, got.1);
    lemma_address(v, i);
    pagemap::law_install_then_lookup(
        pm.0,
        pages.0,
        pages.1,
        PageEntry::Large(at),
        pm.1.nodes,
        pagemap::page_no(addr as int),
    );
    assert(desc.base == got.0.base && desc.usable == got.0.len);
    lemma_page_inside(desc.base as int, desc.base + desc.usable, addr as int);
}

/// An address in a range has its page among the pages of the range.
proof fn lemma_page_inside(base: int, stop: int, addr: int)
    requires
        0 <= base <= addr < stop,
    ensures
        pagemap::page_no(base) <= pagemap::page_no(addr) < pagemap::page_end(base, stop),
{
}

/// Once an allocation is freed none of its addresses belongs to any, so freeing it again is
/// refused with nothing changed.
pub proof fn law_double_free_is_refused<X: ExtentSource, H: RegionCacheHook>(
    before: LargeView<X>,
    after: LargeView<X>,
    pm: (PageMapView, PageMapView),
    hook: (H, H),
    base: usize,
    revoke: Option<ArenaId>,
    ok: bool,
    addr: usize,
)
    requires
        frees(before, after, pm, hook, base, revoke, (true, ok)),
        forall|p: int| #[trigger]
            pm.0.owned.contains_key(p) ==> pm.0.mapped.contains(p),
        ({
            let i = resolves(before.pool, pm.0, base)->0;
            region_of(before.pool.slots[i].0).has(addr as int)
        }),
    ensures
        resolves(after.pool, pm.1, addr) is None,
        frees(after, after, (pm.1, pm.1), hook_pair(hook.1), addr, revoke, (false, false)),
{
    let i = resolves(before.pool, pm.0, base)->0;
    let d = before.pool.slots[i].0;
    lemma_page_inside(d.base as int, d.base + d.usable, addr as int);
}

/// A cache that stays as it is.
pub open spec fn hook_pair<H: RegionCacheHook>(h: H) -> (H, H) {
    (h, h)
}

/// Freeing at an address inside an allocation that is not its first is refused with nothing
/// changed.
pub proof fn law_interior_free_is_refused<X: ExtentSource, H: RegionCacheHook>(
    before: LargeView<X>,
    after: LargeView<X>,
    pm: (PageMapView, PageMapView),
    hook: (H, H),
    addr: usize,
    revoke: Option<ArenaId>,
    res: (bool, bool),
)
    requires
        frees(before, after, pm, hook, addr, revoke, res),
        resolves(before.pool, pm.0, addr) matches Some(i) ==> before.pool.slots[i].0.base != addr,
    ensures
        res == (false, false),
        after == before,
        pm.1 == pm.0,
{
}

/// Freeing an allocation right after it was handed out undoes it: as many allocations are in use
/// as before, and the page map has its pages as before when they were nobody's.
pub proof fn law_free_undoes_allocate(
    v: PoolView,
    pm: PageMapView,
    region: Region,
    arena: ArenaId,
    align: usize,
    backing: Option<ExtentRef>,
    nodes: Set<pagemap::Place>,
)
    requires
        pool_ok(v),
        !v.full(),
        region.base + region.len <= usize::MAX,
        ({
            let pages = pagemap::large_pages(v.next_desc(arena, region, align));
            forall|p: int| pages.0 <= p < pages.1 ==> !#[trigger] pm.owned.contains_key(p)
        }),
    ensures
        ({
            let i = v.next_slot();
            let desc = v.next_desc(arena, region, align);
            let pages = pagemap::large_pages(desc);
            let entry = PageEntry::Large(LargeRef(v.address(i) as usize));
            let w = v.taken(desc, backing).freed(i);
            &&& w.live_count() == v.live_count()
            &&& forall|j: int| #[trigger] v.live(j) ==> w.live(j) && w.slots[j] == v.slots[j]
            &&& pm.installed(pages.0, pages.1, entry, nodes).overwritten(
                pages.0,
                pages.1,
                PageEntry::Empty,
            ).owned == pm.owned
        }),
{
    let desc = v.next_desc(arena, region, align);
    let pages = pagemap::large_pages(desc);
    lemma_taken(v, desc, backing);
    lemma_pages_bounded(region.base as int, region.base + region.len);
    if pages.0 <= pages.1 {
        pagemap::law_retire_undoes_install(
            pm,
            pages.0,
            pages.1,
            PageEntry::Large(LargeRef(v.address(v.next_slot()) as usize)),
            nodes,
        );
    } else {
        let m = pm.installed(
            pages.0,
            pages.1,
            PageEntry::Large(LargeRef(v.address(v.next_slot()) as usize)),
            nodes,
        );
        assert(m.overwritten(pages.0, pages.1, PageEntry::Empty).owned =~= pm.owned);
    }
}

/// The pages of a range of addresses are pages.
proof fn lemma_pages_bounded(base: int, stop: int)
    requires
        0 <= base <= stop <= usize::MAX,
    ensures
        0 <= pagemap::page_no(base),
        pagemap::page_end(base, stop) <= pagemap::PAGE_LIMIT,
{
}

/// A freed descriptor is used next, as a new generation.
pub proof fn law_descriptors_are_used_again(
    v: PoolView,
    i: int,
    arena: ArenaId,
    region: Region,
    align: usize,
)
    requires
        0 <= i < v.slots.len(),
        v.slots.len() <= u32::MAX,
    ensures
        v.freed(i).next_slot() == i,
        v.freed(i).next_desc(arena, region, align).id == v.slots[i].0.id,
        v.freed(i).next_desc(arena, region, align).generation != v.slots[i].0.generation,
{
}

/// What others do to a page map keeps it in step with a pool, when they install nothing that
/// names a slot of it.
pub proof fn law_others_keep_in_step(
    v: PoolView,
    pm: PageMapView,
    first: int,
    end: int,
    e: PageEntry,
    nodes: Set<pagemap::Place>,
)
    requires
        fits(v, pm),
        e matches PageEntry::Large(at) ==> v.named(at) is None,
    ensures
        fits(v, pm.installed(first, end, e, nodes)),
        fits(v, pm.overwritten(first, end, e)),
{
    reveal(fits);
    let m = pm.installed(first, end, e, nodes);
    let o = pm.overwritten(first, end, e);
    assert forall|p: int|
        #![trigger m.entry(p)]
        m.entry(p) == e || m.entry(p) == pm.entry(p) by {}
    assert forall|p: int|
        #![trigger o.entry(p)]
        o.entry(p) == e || o.entry(p) == pm.entry(p) by {}
}

} // verus!
