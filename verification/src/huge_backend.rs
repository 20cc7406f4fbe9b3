//! The hugepage backend: a filler and a region cache over one reservation, with the provider
//! asked for every change of physical state.
use vstd::prelude::*;
use vstd::set_lib::*;
use crate::backend;
use crate::backend::{
    region_contains, BackendError, Region, RegionCacheHook, Request, StateBytes,
    TopoBackingProvider,
};
use crate::bitmap;
use crate::bitmap::{HUGEPAGE_SIZE, PAGES_PER_HUGEPAGE, PAGE_SIZE};
use crate::bootstrap::BumpArena;
use crate::filler;
use crate::filler::{HugePageFiller, HugeRun, Placement, Subrelease, HUGE_SLOT_BYTES};
use crate::filler_laws;
use crate::filler_model;
use crate::filler_model::{FillerView, HugePageView, Metric, PlaceRequest};
use crate::flags::{Hints, HugepagePolicy};
use crate::huge_bin::{Hotness, HugeStats, PlaceHints};
use crate::ids::ArenaId;
use crate::overflow;
use crate::overflow::{is_power_of_two, pages_for};
use crate::region_cache;
use crate::region_cache::{RegionCache, REGION_CACHE_SLOT_BYTES};
use crate::release;
use crate::release::{ReleaseController, ReleaseInputs, ReleasePlan};

verus! {

/// Why a backend could not be built. Nothing stays reserved.
#[derive(Clone, Copy, PartialEq, Eq, Debug, Structural)]
pub enum HugeError {
    /// The metadata could not be had.
    NoSpace,
    /// No hugepages, or more than the address space holds.
    InvalidRequest,
    /// The provider refused the reservation.
    Backend(BackendError),
}

/// The size of a backend.
#[derive(Clone, Copy, PartialEq, Eq, Debug, Structural)]
pub struct HugeConfig {
    /// Hugepages to reserve.
    pub capacity_hugepages: usize,
    /// Entries of the region cache.
    pub region_cache_slots: usize,
}

/// `n`, capped at the machine word.
pub open spec fn cap_word(n: int) -> int {
    if n > usize::MAX {
        usize::MAX as int
    } else {
        n
    }
}

/// The product of two sizes, capped at the machine word.
fn saturating_product(a: usize, b: usize) -> (res: usize)
    ensures
        res == cap_word(a * b),
{
    match a.checked_mul(b) {
        Some(v) => v,
        None => usize::MAX,
    }
}

impl HugeConfig {
    /// A configuration of `capacity_hugepages` hugepages with a small region cache.
    pub fn with_capacity(capacity_hugepages: usize) -> (res: HugeConfig)
        ensures
            res == (HugeConfig { capacity_hugepages, region_cache_slots: 16 }),
    {
        HugeConfig { capacity_hugepages, region_cache_slots: 16 }
    }

    /// The metadata bytes that a backend of this size takes, capped at the machine word.
    pub fn metadata_bytes(&self) -> (res: usize)
        ensures
            res == cap_word(
                self.capacity_hugepages * HUGE_SLOT_BYTES + self.region_cache_slots
                    * REGION_CACHE_SLOT_BYTES,
            ),
    {
        saturating_product(self.capacity_hugepages, HUGE_SLOT_BYTES).saturating_add(
            saturating_product(self.region_cache_slots, REGION_CACHE_SLOT_BYTES),
        )
    }
}

/// A backend, mathematically.
#[verifier::ext_equal]
pub struct BackendView {
    /// The reservation.
    pub region: Region,
    /// The arena that the reservation was made for.
    pub arena: ArenaId,
    /// The filler.
    pub filler: FillerView,
    /// The region cache: base and length in hugepages of each entry.
    pub cache: Seq<(int, int)>,
    /// Whether the reservation has been given back.
    pub released: bool,
}

impl BackendView {
    /// Whether a request is one the backend takes.
    pub open spec fn servable(self, bytes: int, align: int) -> bool {
        &&& !self.released
        &&& 0 < bytes
        &&& overflow::round_up(bytes, PAGE_SIZE as int) <= usize::MAX
        &&& filler_model::alignable(align)
    }

    /// The backend with the request placed and backed at page `off` of hugepage `hp`.
    pub open spec fn packed(self, r: PlaceRequest, hp: int, off: int) -> BackendView {
        let w = self.filler.placed(r, hp, off);
        BackendView { filler: w.with_page(hp, w.pages[hp].backed(off, r.pages)), ..self }
    }

    /// The backend after the request was placed there and could not be backed.
    pub open spec fn unpacked(self, r: PlaceRequest, hp: int, off: int) -> BackendView {
        let w = self.filler.placed(r, hp, off);
        BackendView { filler: w.with_page(hp, w.pages[hp].freed(off, r.pages)), ..self }
    }

    /// A run of `n` hugepages goes to hugepage `start` and leaves the entries `cache`: it is
    /// the first cached run of that size that is still free; or with none the lowest hugepages
    /// that hold nothing live; or with none the next fresh ones.
    pub open spec fn run_goes_to(self, n: int, start: int, cache: Seq<(int, int)>) -> bool {
        ||| exists|i: int| #[trigger]
            region_cache::first_warm(self.cache, self.filler, n, i) && start == self.filler.index_of(
                self.cache[i].0,
            ) && cache == region_cache::pruned(self.cache, n, i + 1)
        ||| {
            &&& region_cache::no_warm(self.cache, self.filler, n)
            &&& cache == region_cache::pruned(self.cache, n, self.cache.len() as int)
            &&& self.filler.first_empty_run(start, n) || (start == self.filler.opened
                && self.filler.no_empty_run(n) && start + n <= self.filler.pages.len())
        }
    }

    /// No run of `n` hugepages can be had.
    pub open spec fn no_run(self, n: int) -> bool {
        &&& region_cache::no_warm(self.cache, self.filler, n)
        &&& self.filler.no_empty_run(n)
        &&& self.filler.opened + n > self.filler.pages.len()
    }

    /// The backend with the run of `n` hugepages at `start` reserved and backed.
    pub open spec fn run_taken(self, n: int, start: int, cache: Seq<(int, int)>) -> BackendView {
        BackendView {
            filler: self.filler.reserved(start, n).each_page(
                start,
                n,
                |p: HugePageView| p.backed_whole(),
            ),
            cache,
            ..self
        }
    }

    /// The backend after the run was reserved and could not be backed.
    pub open spec fn run_dropped(self, n: int, start: int, cache: Seq<(int, int)>) -> BackendView {
        BackendView {
            filler: self.filler.reserved(start, n).each_page(
                start,
                n,
                |p: HugePageView| p.emptied(),
            ),
            cache,
            ..self
        }
    }

    /// Whether `region` is exactly what is allocated at its base: packed when it is at most a
    /// hugepage, else a run of whole hugepages.
    pub open spec fn is_allocated(self, region: Region) -> bool {
        let pages = region.len as int / (PAGE_SIZE as int);
        let start = self.filler.index_of(region.base as int);
        &&& !self.released
        &&& self.region.has(region.base as int)
        &&& region.len != 0
        &&& if pages <= PAGES_PER_HUGEPAGE {
            self.filler.is_allocation(region.base as int, pages)
        } else {
            &&& self.filler.opened_at(region.base as int)
            &&& region.base == self.filler.huge_base(start)
            &&& self.filler.pages[start].run_len == hugepages_for(pages)
        }
    }

    /// The backend with `region` freed, and a run recorded in the entries `cache`.
    pub open spec fn without_region(self, region: Region, cache: Seq<(int, int)>) -> BackendView {
        let pages = region.len as int / (PAGE_SIZE as int);
        let hp = self.filler.index_of(region.base as int);
        if pages <= PAGES_PER_HUGEPAGE {
            BackendView {
                filler: self.filler.with_page(
                    hp,
                    self.filler.pages[hp].freed(self.filler.page_at(region.base as int), pages),
                ),
                ..self
            }
        } else {
            BackendView {
                filler: self.filler.each_page(
                    hp,
                    hugepages_for(pages),
                    |p: HugePageView| p.emptied(),
                ),
                cache,
                ..self
            }
        }
    }

    /// The backend with `pages` pages at `base` returned.
    pub open spec fn subreleased(self, base: int, pages: int) -> BackendView {
        let v = self.filler;
        let hp = v.index_of(base);
        BackendView {
            filler: FillerView {
                subreleases: if v.subreleases < u64::MAX {
                    v.subreleases + 1
                } else {
                    v.subreleases
                },
                ..v.with_page(hp, v.pages[hp].returned(v.page_at(base), pages))
            },
            ..self
        }
    }

    /// The backend after those pages were returned and taken back.
    pub open spec fn resumed(self, base: int, pages: int) -> BackendView {
        let w = self.subreleased(base, pages).filler;
        let hp = self.filler.index_of(base);
        BackendView {
            filler: w.with_page(hp, w.pages[hp].backed(self.filler.page_at(base), pages)),
            ..self
        }
    }
}

impl BackendView {
    /// The request to back `len` bytes at `offset`.
    pub open spec fn commit_request(
        self,
        offset: int,
        len: int,
        answer: Result<(), BackendError>,
    ) -> Request {
        Request::Commit { region: self.region, offset: offset as usize, len: len as usize, answer }
    }

    /// The request to revoke what was derived from `[base, base + len)`.
    pub open spec fn revoke_request(
        self,
        base: int,
        len: int,
        answer: Result<(), BackendError>,
    ) -> Request {
        Request::Revoke {
            arena: self.arena,
            region: Region { base: base as usize, len: len as usize },
            answer,
        }
    }

    /// The request to take the backing of `[base, base + len)` away.
    pub open spec fn decommit_request(
        self,
        base: int,
        len: int,
        answer: Result<(), BackendError>,
    ) -> Request {
        Request::Decommit {
            region: self.region,
            offset: (base - self.region.base) as usize,
            len: len as usize,
            answer,
        }
    }

    /// What the provider is asked for so that it takes `[base, base + len)` back: to revoke what
    /// was derived from it first, and once that is granted, and only then, to take its backing
    /// away.
    pub open spec fn takes_back(self, base: int, len: int, taken: bool, asked: Seq<Request>) -> bool {
        if taken {
            asked == seq![
                self.revoke_request(base, len, Ok(())),
                self.decommit_request(base, len, Ok(())),
            ]
        } else {
            ||| exists|e: BackendError|
                asked == seq![#[trigger] self.revoke_request(base, len, Err(e))]
            ||| exists|e: BackendError|
                asked == seq![
                    self.revoke_request(base, len, Ok(())),
                    #[trigger] self.decommit_request(base, len, Err(e)),
                ]
        }
    }
}

/// A run of backed pages of a hugepage that was offered to the provider, and whether it took it
/// back.
pub struct DrainStep {
    /// The hugepage.
    pub page: int,
    /// The first page of the run.
    pub off: int,
    /// The pages of the run.
    pub pages: int,
    /// Whether the provider took the run back.
    pub taken: bool,
    /// What the provider was asked for.
    pub asked: Seq<Request>,
}

impl DrainStep {
    /// Page `x` of hugepage `i` is in the run.
    pub open spec fn covers(self, i: int, x: int) -> bool {
        self.page == i && self.off <= x < self.off + self.pages
    }

    /// The run comes before another: on a hugepage before it, or before it on the same one with
    /// a gap between them.
    pub open spec fn precedes(self, s: DrainStep) -> bool {
        self.page < s.page || (self.page == s.page && self.off + self.pages < s.off)
    }
}

/// The bytes that were taken back.
pub open spec fn taken_bytes(steps: Seq<DrainStep>) -> int
    decreases steps.len(),
{
    if steps.len() == 0 {
        0
    } else {
        taken_bytes(steps.drop_last()) + (if steps.last().taken {
            steps.last().pages * PAGE_SIZE
        } else {
            0
        })
    }
}

/// What the provider was asked for, one run after the other.
pub open spec fn asked_for(steps: Seq<DrainStep>) -> Seq<Request>
    decreases steps.len(),
{
    if steps.len() == 0 {
        Seq::empty()
    } else {
        asked_for(steps.drop_last()) + steps.last().asked
    }
}

/// The run of `pages` pages at `off` is in the set, and no longer run is.
pub open spec fn maximal_run(s: Set<int>, off: int, pages: int) -> bool {
    &&& 0 < pages
    &&& bitmap::page_run(off, pages).subset_of(s)
    &&& !s.contains(off - 1)
    &&& !s.contains(off + pages)
}

impl BackendView {
    /// The backend after a run was offered.
    pub open spec fn stepped(self, s: DrainStep) -> BackendView {
        let base = filler_laws::page_address(self.filler, s.page, s.off);
        if s.taken {
            self.subreleased(base, s.pages)
        } else {
            self.resumed(base, s.pages)
        }
    }

    /// The backend after some runs were offered, one after the other.
    pub open spec fn after_steps(self, steps: Seq<DrainStep>) -> BackendView
        decreases steps.len(),
    {
        if steps.len() == 0 {
            self
        } else {
            self.after_steps(steps.drop_last()).stepped(steps.last())
        }
    }
}

/// Offering some runs and then others is offering them all.
proof fn lemma_steps_join(v: BackendView, a: Seq<DrainStep>, b: Seq<DrainStep>)
    ensures
        v.after_steps(a + b) == v.after_steps(a).after_steps(b),
        taken_bytes(a + b) == taken_bytes(a) + taken_bytes(b),
        asked_for(a + b) == asked_for(a) + asked_for(b),
    decreases b.len(),
{
    if b.len() == 0 {
        assert(a + b =~= a);
        assert(asked_for(a) + asked_for(b) =~= asked_for(a));
    } else {
        assert((a + b).drop_last() =~= a + b.drop_last());
        lemma_steps_join(v, a, b.drop_last());
        assert(asked_for(a + b) =~= asked_for(a) + asked_for(b));
    }
}

/// How many whole hugepages hold `pages` pages.
pub open spec fn hugepages_for(pages: int) -> int {
    overflow::ceil_div(pages, PAGES_PER_HUGEPAGE as int)
}

/// The entries after a freed run of `n` hugepages at `base` was offered: it is in the first
/// vacant one, or nowhere when there is none.
pub open spec fn recorded(s: Seq<(int, int)>, base: int, n: int, t: Seq<(int, int)>) -> bool {
    ||| exists|i: int| #[trigger] region_cache::first_vacant(s, i) && t == s.update(i, (base, n))
    ||| t == s && forall|j: int| #![trigger s[j]] 0 <= j < s.len() ==> s[j].1 != 0
}

/// The entries that the cache may hold once `region` is freed: the same when it was packed, and
/// with the run offered when it was one.
pub open spec fn offered(v: BackendView, region: Region, cache: Seq<(int, int)>) -> bool {
    let pages = region.len as int / (PAGE_SIZE as int);
    if pages <= PAGES_PER_HUGEPAGE {
        cache == v.cache
    } else {
        recorded(v.cache, region.base as int, hugepages_for(pages), cache)
    }
}

/// The pages that an allocation cut to `new_len` bytes keeps: at least one.
pub open spec fn kept_pages(new_len: int) -> int {
    if new_len == 0 {
        1
    } else {
        overflow::ceil_div(new_len, PAGE_SIZE as int)
    }
}

/// The hints that a request's hints come down to.
pub open spec fn place_hints(hints: Hints) -> PlaceHints {
    PlaceHints { hotness: Hotness::of_hint(hints.hotness as int), lifetime: hints.lifetime }
}

/// What a release controller reads, with what a backend holds filled in.
pub open spec fn sampled_inputs(inputs: ReleaseInputs, st: HugeStats) -> ReleaseInputs {
    ReleaseInputs {
        empty_backed_hugepage_bytes: st.empty_backed_bytes,
        hugepage_coverage_ratio_bp: st.ratio_bp() as u32,
        ..inputs
    }
}

/// Whether a backend of that size can be built over a reservation at `base`: the reservation is
/// aligned and does not wrap, there are cache entries, and the metadata suffices.
pub open spec fn tileable(meta: BumpArena, base: int, cfg: HugeConfig) -> bool {
    let slots = meta.next_start(8) + cfg.capacity_hugepages * HUGE_SLOT_BYTES;
    &&& filler::valid_region(base, cfg.capacity_hugepages as int)
    &&& slots <= meta.base() + meta.len()
    &&& 0 < cfg.region_cache_slots <= u32::MAX
    &&& overflow::round_up(slots, 8) + cfg.region_cache_slots * REGION_CACHE_SLOT_BYTES
        <= meta.base() + meta.len()
}

/// A backend in which nothing was allocated yet.
pub open spec fn new_backend(region: Region, arena: ArenaId, cfg: HugeConfig) -> BackendView {
    BackendView {
        region,
        arena,
        filler: filler::empty_filler(region.base as int, cfg.capacity_hugepages as int),
        cache: Seq::new(cfg.region_cache_slots as nat, |i: int| (0int, 0int)),
        released: false,
    }
}

/// What opening a backend asked the provider for, and what came of it: nothing for a size that no
/// reservation can have; else one reservation, which is given back once when it is of no use.
pub open spec fn opens(
    meta: BumpArena,
    arena: ArenaId,
    cfg: HugeConfig,
    asked: Seq<Request>,
    res: Result<Region, HugeError>,
) -> bool {
    let len = cfg.capacity_hugepages * HUGEPAGE_SIZE;
    let first = |reserved: Result<Region, BackendError>|
        Request::Reserve { arena, size: len as usize, align: HUGEPAGE_SIZE, reserved };
    if cfg.capacity_hugepages == 0 || len > usize::MAX {
        res == Err::<Region, HugeError>(HugeError::InvalidRequest) && asked == Seq::<
            Request,
        >::empty()
    } else {
        match res {
            Ok(region) => asked == seq![first(Ok(region))] && tileable(
                meta,
                region.base as int,
                cfg,
            ),
            Err(HugeError::InvalidRequest) => false,
            Err(HugeError::Backend(e)) => asked == seq![first(Err(e))],
            Err(HugeError::NoSpace) => exists|region: Region, answer: Result<(), BackendError>|
                {
                    &&& asked == seq![
                        first(Ok(region)),
                        #[trigger] given_back(arena, region, answer),
                    ]
                    &&& !tileable(meta, region.base as int, cfg)
                },
        }
    }
}

/// The request to take a reservation back.
pub open spec fn given_back(
    arena: ArenaId,
    region: Region,
    answer: Result<(), BackendError>,
) -> Request {
    Request::Release { arena, region, answer }
}

/// The hugepage backend.
pub struct HugePageBackend<P: TopoBackingProvider> {
    provider: P,
    region: Region,
    arena: ArenaId,
    filler: HugePageFiller,
    cache: RegionCache,
    released: bool,
}

impl<P: TopoBackingProvider> View for HugePageBackend<P> {
    type V = BackendView;

    closed spec fn view(&self) -> BackendView {
        BackendView {
            region: self.region,
            arena: self.arena,
            filler: self.filler@,
            cache: self.cache@,
            released: self.released,
        }
    }
}

/// Turning one hugepage into one whose live pages are all backed keeps the filler confirmed.
proof fn lemma_confirmed_page(v: FillerView, i: int, q: HugePageView)
    requires
        v.geometry(),
        v.confirmed(),
        q.confirmed(),
        0 <= i < v.pages.len(),
    ensures
        v.with_page(i, q).confirmed(),
{
}

/// A placement goes to an opened hugepage or to the next one.
proof fn lemma_goes_to(v: FillerView, r: PlaceRequest, hp: int, off: int)
    requires
        v.goes_to(r, hp, off),
    ensures
        hp <= v.opened,
{
    reveal(FillerView::goes_to);
}

/// Placing and backing a run, and placing and freeing it, keep every live page backed.
proof fn lemma_packing_confirms(v: FillerView, r: PlaceRequest, hp: int, off: int)
    requires
        v.ok(),
        v.confirmed(),
        0 <= hp < v.pages.len(),
        hp <= v.opened,
        0 <= off,
        0 < r.pages,
        off + r.pages <= PAGES_PER_HUGEPAGE,
        v.pages[hp].live.disjoint(bitmap::page_run(off, r.pages)),
    ensures
        ({
            let w = v.placed(r, hp, off);
            &&& w.with_page(hp, w.pages[hp].backed(off, r.pages)).confirmed()
            &&& w.with_page(hp, w.pages[hp].freed(off, r.pages)).confirmed()
        }),
{
    let w = v.placed(r, hp, off);
    let p = v.pages[hp];
    assert(p.ok());
    assert(p.confirmed()) by {
        if hp == v.opened {
            assert(p == HugePageView::fresh());
        }
    }
    filler_laws::law_placing_and_backing_is_confirmed(p, off, r.pages, r.hints);
    filler_laws::law_free_undoes_place(p, off, r.pages, r.hints);
    let a = w.with_page(hp, w.pages[hp].backed(off, r.pages));
    let b = w.with_page(hp, w.pages[hp].freed(off, r.pages));
    assert forall|i: int| #![trigger a.pages[i]] 0 <= i < a.opened implies a.pages[i].confirmed() by {
        if i != hp {
            assert(a.pages[i] == v.pages[i]);
        }
    }
    assert forall|i: int| #![trigger b.pages[i]] 0 <= i < b.opened implies b.pages[i].confirmed() by {
        if i != hp {
            assert(b.pages[i] == v.pages[i]);
        }
    }
}

/// A reserved run of whole hugepages is one run, and backing it or emptying it keeps every
/// live page backed.
proof fn lemma_reserved(v: FillerView, start: int, n: int)
    requires
        v.ok(),
        v.confirmed(),
        0 < n,
        v.empty_run(start, n) || (start == v.opened && v.opened + n <= v.pages.len()),
    ensures
        ({
            let w = v.reserved(start, n);
            &&& w.base == v.base
            &&& w.pages.len() == v.pages.len()
            &&& start + n <= w.opened
            &&& w.pages[start].run_len == n
            &&& w.index_of(v.huge_base(start)) == start
            &&& w.opened_at(v.huge_base(start))
            &&& w.each_page(start, n, |p: HugePageView| p.backed_whole()).confirmed()
            &&& w.each_page(start, n, |p: HugePageView| p.emptied()).confirmed()
        }),
{
    let w = v.reserved(start, n);
    let t = |p: HugePageView| p.taken_whole();
    let f = |p: HugePageView| p.backed_whole();
    let g = |p: HugePageView| p.emptied();
    if start == v.opened {
        v.lemma_take_fresh(n);
    } else {
        v.lemma_each_page(start, n, t);
    }
    w.lemma_each_page(start, n, f);
    w.lemma_each_page(start, n, g);
    let a = w.each_page(start, n, f);
    let b = w.each_page(start, n, g);
    assert forall|i: int| #![trigger a.pages[i]] 0 <= i < a.opened implies a.pages[i].confirmed() by {
        if i < start || start + n <= i {
            assert(a.pages[i] == v.pages[i]);
        }
    }
    assert forall|i: int| #![trigger b.pages[i]] 0 <= i < b.opened implies b.pages[i].confirmed() by {
        if i < start || start + n <= i {
            assert(b.pages[i] == v.pages[i]);
        }
    }
}

/// The stride of an alignment is positive.
proof fn lemma_stride_positive(align: int)
    ensures
        filler_model::stride_of(align) > 0,
{
}

/// Emptying the members of a run keeps every live page backed.
proof fn lemma_emptying_confirms(v: FillerView, start: int, n: int)
    requires
        v.ok(),
        v.confirmed(),
        0 <= start,
        0 < n,
        start + n <= v.opened,
    ensures
        v.each_page(start, n, |p: HugePageView| p.emptied()).confirmed(),
        v.each_page(start, n, |p: HugePageView| p.emptied()).base == v.base,
{
    let g = |p: HugePageView| p.emptied();
    v.lemma_each_page(start, n, g);
    let b = v.each_page(start, n, g);
    assert forall|i: int| #![trigger b.pages[i]] 0 <= i < b.opened implies b.pages[i].confirmed() by {
        if i < start || start + n <= i {
            assert(b.pages[i] == v.pages[i]);
        }
    }
}

/// Taking a run of pages out of a set that holds it takes out that many pages.
proof fn lemma_without_run(s: Set<int>, off: int, pages: int)
    requires
        s.finite(),
        0 <= pages,
        bitmap::page_run(off, pages).subset_of(s),
    ensures
        s.difference(bitmap::page_run(off, pages)).len() == s.len() - pages,
{
    let run = bitmap::page_run(off, pages);
    lemma_int_range(off, off + pages);
    assert(run =~= set_int_range(off, off + pages));
    let rest = s.difference(run);
    lemma_set_disjoint_lens(rest, run);
    assert(rest.union(run) =~= s);
}

impl<P: TopoBackingProvider> HugePageBackend<P> {
    /// The provider.
    pub closed spec fn source(self) -> P {
        self.provider
    }

    /// The provider was asked for that, and for nothing else.
    pub open spec fn asks(self, after: Self, r: Request) -> bool {
        self.asks_all(after, seq![r])
    }

    /// The provider was asked for those, one after the other, and for nothing else.
    pub open spec fn asks_all(self, after: Self, asked: Seq<Request>) -> bool {
        backend::requested(self.source(), after.source(), asked)
    }

    /// The filler and the cache are good, and the filler tiles the reservation.
    closed spec fn sound(self) -> bool {
        &&& self.filler.wf()
        &&& self.cache.wf()
        &&& self.filler@.base == self.region.base
    }

    /// What the backend keeps: the filler and the cache are good, the filler tiles the
    /// reservation, and every live page is backed.
    pub closed spec fn wf(self) -> bool {
        self.sound() && self.filler@.confirmed()
    }

    /// What follows from the invariant.
    pub proof fn lemma_wf(self)
        requires
            self.wf(),
        ensures
            self@.filler.ok(),
            self@.filler.confirmed(),
            self@.filler.base == self@.region.base,
    {
        self.filler.lemma_wf();
    }

    /// Build the filler and the cache over a reservation at `base`; `None` when the
    /// reservation or the size of the cache is no good, or the metadata runs out.
    fn tile(meta: &mut BumpArena, base: usize, cfg: HugeConfig) -> (res: Option<
        (HugePageFiller, RegionCache),
    >)
        requires
            old(meta).wf(),
        ensures
            final(meta).wf(),
            final(meta).base() == old(meta).base(),
            final(meta).len() == old(meta).len(),
            match res {
                Some((f, c)) => {
                    &&& f.wf()
                    &&& c.wf()
                    &&& f@ == filler::empty_filler(base as int, cfg.capacity_hugepages as int)
                    &&& c@ == Seq::new(cfg.region_cache_slots as nat, |i: int| (0int, 0int))
                    &&& tileable(*old(meta), base as int, cfg)
                },
                None => !tileable(*old(meta), base as int, cfg),
            },
    {
        let f: HugePageFiller = match HugePageFiller::new(meta, base, cfg.capacity_hugepages) {
            Some(f) => f,
            None => return None,
        };
        match RegionCache::new(meta, cfg.region_cache_slots) {
            Some(c) => Some((f, c)),
            None => None,
        }
    }

    /// Reserve the hugepages that `cfg` asks for, and build a filler and a cache over them. A
    /// reservation that cannot be used is given back. The provider is asked for nothing else,
    /// and for nothing at all on a size that no reservation can have.
    pub fn reserve_tiled(
        provider: &mut P,
        meta: &mut BumpArena,
        arena: ArenaId,
        cfg: HugeConfig,
    ) -> (res: Result<(Region, HugePageFiller, RegionCache), HugeError>)
        requires
            old(meta).wf(),
        ensures
            final(meta).wf(),
            final(meta).base() == old(meta).base(),
            final(meta).len() == old(meta).len(),
            res matches Ok((region, f, c)) ==> {
                &&& f.wf()
                &&& c.wf()
                &&& f@ == filler::empty_filler(region.base as int, cfg.capacity_hugepages as int)
                &&& c@ == Seq::new(cfg.region_cache_slots as nat, |i: int| (0int, 0int))
            },
            exists|asked: Seq<Request>| #[trigger]
                backend::requested(*old(provider), *final(provider), asked) && opens(
                    *old(meta),
                    arena,
                    cfg,
                    asked,
                    match res {
                        Ok((region, _, _)) => Ok(region),
                        Err(e) => Err(e),
                    },
                ),
    {
        let ghost before = *provider;
        if cfg.capacity_hugepages == 0 {
            proof {
                assert(before.requests() + Seq::<Request>::empty() =~= before.requests());
                assert(backend::requested(before, *provider, Seq::<Request>::empty()));
            }
            return Err(HugeError::InvalidRequest);
        }
        let region_len: usize = match cfg.capacity_hugepages.checked_mul(HUGEPAGE_SIZE) {
            Some(n) => n,
            None => {
                proof {
                    assert(before.requests() + Seq::<Request>::empty() =~= before.requests());
                    assert(backend::requested(before, *provider, Seq::<Request>::empty()));
                }
                return Err(HugeError::InvalidRequest);
            },
        };
        let answer: Result<Region, BackendError> = provider.reserve(
            arena,
            region_len,
            HUGEPAGE_SIZE,
        );
        let ghost first = Request::Reserve {
            arena,
            size: region_len,
            align: HUGEPAGE_SIZE,
            reserved: answer,
        };
        proof {
            assert(before.requests() + seq![first] =~= before.requests().push(first));
            assert(backend::requested(before, *provider, seq![first]));
        }
        let region: Region = match answer {
            Ok(r) => r,
            Err(e) => return Err(HugeError::Backend(e)),
        };
        match Self::tile(meta, region.base, cfg) {
            Some((filler, cache)) => Ok((region, filler, cache)),
            None => {
                let answer: Result<(), BackendError> = provider.release(arena, region);
                proof {
                    let second = given_back(arena, region, answer);
                    let asked = seq![first, second];
                    assert(before.requests() + asked =~= before.requests().push(first).push(
                        second,
                    ));
                    assert(backend::requested(before, *provider, asked));
                }
                Err(HugeError::NoSpace)
            },
        }
    }

    /// Reserve the hugepages that `cfg` asks for and build a backend over them. Nothing is
    /// backed yet. A reservation that cannot be used is given back. The provider is asked as
    /// [`reserve_tiled`](Self::reserve_tiled) says; without a backend it is dropped, and its
    /// history with it.
    pub fn new(provider: P, meta: &mut BumpArena, arena: ArenaId, cfg: HugeConfig) -> (res: Result<
        HugePageBackend<P>,
        HugeError,
    >)
        requires
            old(meta).wf(),
        ensures
            final(meta).wf(),
            final(meta).base() == old(meta).base(),
            final(meta).len() == old(meta).len(),
            res matches Ok(b) ==> b.wf() && b@ == new_backend(b@.region, arena, cfg),
            exists|asked: Seq<Request>, after: P| #[trigger]
                backend::requested(provider, after, asked) && opens(
                    *old(meta),
                    arena,
                    cfg,
                    asked,
                    match res {
                        Ok(b) => Ok(b@.region),
                        Err(e) => Err(e),
                    },
                ) && (res matches Ok(b) ==> b.source() == after),
    {
        let mut provider: P = provider;
        match Self::reserve_tiled(&mut provider, meta, arena, cfg) {
            Ok((region, filler, cache)) => Ok(
                HugePageBackend { provider, region, arena, filler, cache, released: false },
            ),
            Err(e) => Err(e),
        }
    }

    /// The provider's name.
    pub fn backend_name(&self) -> (res: &'static str)
        ensures
            self.source().may_be_named(res@),
    {
        self.provider.name()
    }

    /// The provider.
    pub fn provider(&self) -> (res: &P)
        ensures
            *res == self.source(),
    {
        &self.provider
    }

    /// The whole reservation.
    pub fn reserved_region(&self) -> (res: Region)
        ensures
            res == self@.region,
    {
        self.region
    }

    /// Whether `addr` lies in the reservation.
    pub fn owns_addr(&self, addr: usize) -> (res: bool)
        ensures
            res == self@.region.has(addr as int),
    {
        region_contains(self.region.base, self.region.len, addr)
    }

    /// Ask for the memory of node `os_node` behind the whole reservation; whether that was
    /// granted. Only locality depends on it.
    pub fn bind_region(&mut self, os_node: u32) -> (res: bool)
        ensures
            old(self).wf() ==> final(self).wf(),
            old(self).binds(*final(self), os_node, res),
    {
        let ghost before = *self;
        let answer = self.provider.bind_node(self.region, os_node);
        proof {
            let r = Request::Bind { region: before@.region, os_node, answer };
            lemma_asked(before.source(), self.source(), r);
            assert(before.asks(*self, r));
        }
        answer.is_ok()
    }

    /// What asking for the memory of a node did, whatever the provider answered.
    pub open spec fn binds(self, after: Self, os_node: u32, res: bool) -> bool {
        &&& after@ == self@
        &&& exists|answer: Result<(), BackendError>|
            {
                &&& #[trigger] self.asks(
                    after,
                    Request::Bind { region: self@.region, os_node, answer },
                )
                &&& res == (answer is Ok)
            }
    }

    /// Confirm or roll back a placement, by whether its pages could be backed.
    fn finish_packed(&mut self, p: Placement, backed: bool) -> (res: Option<Region>)
        requires
            old(self).sound(),
            p.pages * PAGE_SIZE <= usize::MAX,
        ensures
            final(self).sound(),
            final(self).source() == old(self).source(),
            ({
                let v = old(self)@.filler;
                let hp = p.hugepage as int;
                let at = v.index_of(p.base as int);
                let filler = if backed && v.names_run(hp, p.base as int, p.pages as int) {
                    v.with_page(
                        hp,
                        v.pages[hp].backed(v.offset_in(hp, p.base as int), p.pages as int),
                    )
                } else if !backed && v.is_allocation(p.base as int, p.pages as int) {
                    v.with_page(at, v.pages[at].freed(v.page_at(p.base as int), p.pages as int))
                } else {
                    v
                };
                &&& final(self)@ == (BackendView { filler, ..old(self)@ })
                &&& res == (if backed {
                    Some(Region { base: p.base, len: (p.pages * PAGE_SIZE) as usize })
                } else {
                    None
                })
            }),
    {
        if !backed {
            let _ = self.filler.free(p.base, p.pages);
            return None;
        }
        self.filler.mark_committed(&p);
        Some(Region { base: p.base, len: p.pages * PAGE_SIZE })
    }

    /// What packing the request did, whatever the provider answered.
    pub open spec fn packs(self, after: Self, r: PlaceRequest, res: Option<Region>) -> bool {
        let v = self@.filler;
        match res {
            Some(region) => exists|hp: int, off: int|
                {
                    &&& #[trigger] v.goes_to(r, hp, off)
                    &&& 0 <= hp < v.pages.len()
                    &&& 0 <= off
                    &&& off + r.pages <= PAGES_PER_HUGEPAGE
                    &&& v.pages[hp].live.disjoint(bitmap::page_run(off, r.pages))
                    &&& region.base == filler_laws::page_address(v, hp, off)
                    &&& region.len == r.pages * PAGE_SIZE
                    &&& after@ == self@.packed(r, hp, off)
                    &&& if bitmap::page_run(off, r.pages).subset_of(v.pages[hp].committed) {
                        after.source() == self.source()
                    } else {
                        self.asks(
                            after,
                            self@.commit_request(region.base - v.base, region.len as int, Ok(())),
                        )
                    }
                },
            None => {
                ||| {
                    &&& after@ == self@
                    &&& after.source() == self.source()
                    &&& v.no_candidate(r)
                    &&& v.opened == v.pages.len()
                }
                ||| exists|hp: int, off: int, e: BackendError|
                    {
                        &&& #[trigger] v.goes_to(r, hp, off)
                        &&& 0 <= hp < v.pages.len()
                        &&& 0 <= off
                        &&& off + r.pages <= PAGES_PER_HUGEPAGE
                        &&& v.pages[hp].live.disjoint(bitmap::page_run(off, r.pages))
                        &&& !bitmap::page_run(off, r.pages).subset_of(v.pages[hp].committed)
                        &&& after@ == self@.unpacked(r, hp, off)
                        &&& self.asks(
                            after,
                            #[trigger] self@.commit_request(
                                filler_laws::page_address(v, hp, off) - v.base,
                                r.pages * PAGE_SIZE,
                                Err(e),
                            ),
                        )
                    }
            },
        }
    }

    /// Pack a request of at most a hugepage.
    fn allocate_packed(&mut self, pages: usize, align: usize, hints: PlaceHints) -> (res: Option<
        Region,
    >)
        requires
            old(self).wf(),
            0 < pages <= PAGES_PER_HUGEPAGE,
            filler_model::alignable(align as int),
        ensures
            final(self).wf(),
            old(self).packs(
                *final(self),
                PlaceRequest {
                    pages: pages as int,
                    stride: filler_model::stride_of(align as int),
                    hints,
                },
                res,
            ),
    {
        let ghost before = *self;
        let ghost v = self@.filler;
        let ghost r = PlaceRequest {
            pages: pages as int,
            stride: filler_model::stride_of(align as int),
            hints,
        };
        proof {
            self.lemma_wf();
        }
        let p: Placement = match self.filler.place(pages, align, hints) {
            Some(p) => p,
            None => return None,
        };
        let ghost hp = p.hugepage as int;
        let ghost off = (p.base - v.huge_base(hp)) / (PAGE_SIZE as int);
        let ghost w = v.placed(r, hp, off);
        proof {
            lemma_goes_to(v, r, hp, off);
            filler_laws::law_filler_free_undoes_place(v, r, hp, off);
            filler_laws::lemma_address(v, hp, off);
            filler_laws::lemma_address(w, hp, off);
            assert(w.names_run(hp, p.base as int, pages as int));
            lemma_packing_confirms(v, r, hp, off);
        }
        let ghost mut asked: Request = arbitrary();
        let backed: bool = match p.commit_run {
            Some((offset, len)) => {
                let answer = self.provider.commit(self.region, offset, len);
                proof {
                    asked = Request::Commit { region: before@.region, offset, len, answer };
                    lemma_asked(before.source(), self.source(), asked);
                }
                answer.is_ok()
            },
            None => true,
        };
        let res = self.finish_packed(p, backed);
        proof {
            if p.commit_run is Some {
                let offset = filler_laws::page_address(v, hp, off) - v.base;
                let len = r.pages * PAGE_SIZE;
                match asked->Commit_answer {
                    Ok(u) => {
                        assert(u == ());
                        assert(asked == before@.commit_request(offset, len, Ok(())));
                    },
                    Err(e) => assert(asked == before@.commit_request(offset, len, Err(e))),
                }
                assert(before.asks(*self, asked));
            }
            assert(p.base == filler_laws::page_address(v, hp, off));
            assert(v.goes_to(r, hp, off));
            if backed {
                assert(self@ == before@.packed(r, hp, off));
            } else {
                assert(self@ == before@.unpacked(r, hp, off));
            }
        }
        res
    }

    /// Confirm or roll back a run of whole hugepages, by whether it could be backed.
    fn finish_run(&mut self, run: HugeRun, len: usize, backed: bool) -> (res: Option<Region>)
        requires
            old(self).sound(),
        ensures
            final(self).sound(),
            final(self).source() == old(self).source(),
            ({
                let v = old(self)@.filler;
                let n = run.hugepages as int;
                let start = v.index_of(run.base as int);
                let named = v.opened_at(run.base as int) && run.base == v.huge_base(start) && 0 < n;
                let filler = if backed && named && start + n <= v.opened {
                    v.each_page(start, n, |p: HugePageView| p.backed_whole())
                } else if !backed && named && v.pages[start].run_len == n {
                    v.each_page(start, n, |p: HugePageView| p.emptied())
                } else {
                    v
                };
                &&& final(self)@ == (BackendView { filler, ..old(self)@ })
                &&& res == (if backed {
                    Some(Region { base: run.base, len })
                } else {
                    None
                })
            }),
    {
        proof {
            let v = self@.filler;
            let n = run.hugepages as int;
            let start = v.index_of(run.base as int);
            self.filler.lemma_wf();
            if v.opened_at(run.base as int) && 0 < n {
                assert(v.run_ok(start));
                if start + n <= v.opened {
                    v.lemma_each_page(start, n, |p: HugePageView| p.backed_whole());
                    v.lemma_each_page(start, n, |p: HugePageView| p.emptied());
                }
            }
        }
        if !backed {
            let _ = self.filler.free_hugepages(run.base, run.hugepages);
            return None;
        }
        self.filler.mark_run_committed(&run);
        Some(Region { base: run.base, len })
    }

    /// What taking a run of whole hugepages for `pages` pages did, whatever the provider
    /// answered.
    pub open spec fn runs(self, after: Self, pages: int, res: Option<Region>) -> bool {
        let v = self@.filler;
        let n = hugepages_for(pages);
        match res {
            Some(region) => exists|start: int, cache: Seq<(int, int)>|
                {
                    &&& #[trigger] self@.run_goes_to(n, start, cache)
                    &&& 0 <= start
                    &&& start + n <= v.pages.len()
                    &&& region.base == v.huge_base(start)
                    &&& region.len == pages * PAGE_SIZE
                    &&& after@ == self@.run_taken(n, start, cache)
                    &&& if v.unbacked_in(start, n) {
                        self.asks(
                            after,
                            self@.commit_request(region.base - v.base, n * HUGEPAGE_SIZE, Ok(())),
                        )
                    } else {
                        after.source() == self.source()
                    }
                },
            None => {
                ||| {
                    &&& self@.no_run(n)
                    &&& after.source() == self.source()
                    &&& after@ == (BackendView {
                        cache: region_cache::pruned(self@.cache, n, self@.cache.len() as int),
                        ..self@
                    })
                }
                ||| exists|start: int, cache: Seq<(int, int)>, e: BackendError|
                    {
                        &&& #[trigger] self@.run_goes_to(n, start, cache)
                        &&& 0 <= start
                        &&& start + n <= v.pages.len()
                        &&& v.unbacked_in(start, n)
                        &&& after@ == self@.run_dropped(n, start, cache)
                        &&& self.asks(
                            after,
                            #[trigger] self@.commit_request(
                                v.huge_base(start) - v.base,
                                n * HUGEPAGE_SIZE,
                                Err(e),
                            ),
                        )
                    }
            },
        }
    }

    /// Serve a request of more than a hugepage by a run of whole hugepages: a freed run that is
    /// still warm, or else one reserved anew. The region is as long as the request in whole
    /// pages, not as the run.
    fn allocate_run(&mut self, pages: usize) -> (res: Option<Region>)
        requires
            old(self).wf(),
            PAGES_PER_HUGEPAGE < pages,
            pages * PAGE_SIZE <= usize::MAX,
        ensures
            final(self).wf(),
            old(self).runs(*final(self), pages as int, res),
    {
        let ghost before = *self;
        let ghost v = self@.filler;
        let n: usize = (pages - 1) / PAGES_PER_HUGEPAGE + 1;
        proof {
            self.lemma_wf();
            assert(n == hugepages_for(pages as int));
        }
        let run: HugeRun = match self.cache.take(n, &mut self.filler) {
            Some(run) => {
                proof {
                    let i = choose|i: int|
                        {
                            &&& #[trigger] region_cache::first_warm(before@.cache, v, n as int, i)
                            &&& self.cache@ == region_cache::pruned(before@.cache, n as int, i + 1)
                            &&& run.base == before@.cache[i].0
                            &&& self.filler@ == v.reserved(
                                v.index_of(before@.cache[i].0),
                                n as int,
                            )
                        };
                    assert(region_cache::first_warm(before@.cache, v, n as int, i));
                }
                run
            },
            None => match self.filler.reserve_hugepages(n) {
                Some(run) => run,
                None => return None,
            },
        };
        let ghost start = v.index_of(run.base as int);
        let ghost cache = self.cache@;
        proof {
            assert(before@.run_goes_to(n as int, start, cache));
            lemma_reserved(v, start, n as int);
            assert(self@.filler == v.reserved(start, n as int));
        }
        let ghost mut asked: Request = arbitrary();
        let backed: bool = match run.commit_run {
            Some((offset, len)) => {
                let answer = self.provider.commit(self.region, offset, len);
                proof {
                    asked = Request::Commit { region: before@.region, offset, len, answer };
                    lemma_asked(before.source(), self.source(), asked);
                }
                answer.is_ok()
            },
            None => true,
        };
        let res = self.finish_run(run, pages * PAGE_SIZE, backed);
        proof {
            if run.commit_run is Some {
                let offset = v.huge_base(start) - v.base;
                let len = n * HUGEPAGE_SIZE;
                match asked->Commit_answer {
                    Ok(u) => {
                        assert(u == ());
                        assert(asked == before@.commit_request(offset, len, Ok(())));
                    },
                    Err(e) => assert(asked == before@.commit_request(offset, len, Err(e))),
                }
                assert(before.asks(*self, asked));
            }
            if backed {
                assert(self@ == before@.run_taken(n as int, start, cache));
            } else {
                assert(self@ == before@.run_dropped(n as int, start, cache));
            }
        }
        res
    }

    /// What an allocation did, whatever the provider answered: nothing on a request that the
    /// backend does not take; else it packed one of at most a hugepage, and took a run of
    /// whole hugepages for a larger one.
    pub open spec fn allocates(
        self,
        after: Self,
        bytes: usize,
        align: usize,
        hints: PlaceHints,
        res: Option<Region>,
    ) -> bool {
        let pages = overflow::ceil_div(bytes as int, PAGE_SIZE as int);
        if !self@.servable(bytes as int, align as int) {
            res is None && after@ == self@ && after.source() == self.source()
        } else if pages <= PAGES_PER_HUGEPAGE {
            self.packs(
                after,
                PlaceRequest { pages, stride: filler_model::stride_of(align as int), hints },
                res,
            )
        } else {
            self.runs(after, pages, res)
        }
    }

    /// Allocate `bytes` bytes at `align`, backed by the provider. `None`, with nothing live
    /// changed, on a malformed request, when there is no room, when the provider does not back
    /// it, and after [`teardown`](Self::teardown).
    pub fn allocate(&mut self, bytes: usize, align: usize, hints: PlaceHints) -> (res: Option<
        Region,
    >)
        requires
            old(self).wf(),
        ensures
            final(self).wf(),
            old(self).allocates(*final(self), bytes, align, hints, res),
            res matches Some(region) ==> region.base as int % (align as int) == 0 && region.len
                == overflow::round_up(bytes as int, PAGE_SIZE as int),
    {
        proof {
            vstd::arithmetic::power2::lemma2_to64();
            assert(overflow::is_pow2(PAGE_SIZE as int)) by {
                assert(PAGE_SIZE as int == vstd::arithmetic::power2::pow2(14));
            }
            self.lemma_wf();
        }
        if self.released {
            return None;
        }
        let pages: usize = match pages_for(bytes, PAGE_SIZE) {
            Some(n) => n,
            None => return None,
        };
        if pages == 0 || !is_power_of_two(align) || align > HUGEPAGE_SIZE {
            return None;
        }
        let ghost before = *self;
        let ghost v = self@.filler;
        let ghost r = PlaceRequest {
            pages: pages as int,
            stride: filler_model::stride_of(align as int),
            hints,
        };
        let res = if pages <= PAGES_PER_HUGEPAGE {
            self.allocate_packed(pages, align, hints)
        } else {
            self.allocate_run(pages)
        };
        proof {
            lemma_stride_positive(align as int);
            if res is Some {
                let region = res->0;
                if pages <= PAGES_PER_HUGEPAGE {
                    let (hp, off) = choose|hp: int, off: int|
                        {
                            &&& #[trigger] v.goes_to(r, hp, off)
                            &&& 0 <= hp < v.pages.len()
                            &&& 0 <= off
                            &&& off + r.pages <= PAGES_PER_HUGEPAGE
                            &&& region.base == filler_laws::page_address(v, hp, off)
                        };
                    filler_laws::law_request_goes_to_its_stride(v, r, hp, off);
                    filler_laws::law_placement_is_aligned(v, hp, off, align as int);
                } else {
                    let n = hugepages_for(pages as int);
                    let (start, cache) = choose|start: int, cache: Seq<(int, int)>|
                        {
                            &&& #[trigger] before@.run_goes_to(n, start, cache)
                            &&& 0 <= start
                            &&& start + n <= v.pages.len()
                            &&& region.base == v.huge_base(start)
                        };
                    assert(0int % filler_model::stride_of(align as int) == 0) by {
                        vstd::arithmetic::div_mod::lemma_small_mod(
                            0,
                            filler_model::stride_of(align as int) as nat,
                        );
                    }
                    filler_laws::law_placement_is_aligned(v, start, 0, align as int);
                }
            }
        }
        res
    }

    /// What freeing a region did. The provider is not asked.
    pub open spec fn frees(self, after: Self, region: Region, res: bool) -> bool {
        after.source() == self.source() && self.frees_memory(after, region, res)
    }

    /// What freeing a region did to the memory.
    pub open spec fn frees_memory(self, after: Self, region: Region, res: bool) -> bool {
        &&& res == self@.is_allocated(region)
        &&& !res ==> after@ == self@
        &&& res ==> exists|cache: Seq<(int, int)>|
            {
                &&& #[trigger] offered(self@, region, cache)
                &&& after@ == self@.without_region(region, cache)
            }
    }

    /// What freeing a region after revoking what `arena` derived from it did, whatever the
    /// provider answered.
    pub open spec fn revokes(
        self,
        after: Self,
        region: Region,
        arena: ArenaId,
        res: bool,
    ) -> bool {
        ||| {
            &&& self.asks(after, Request::Revoke { arena, region, answer: Ok(()) })
            &&& self.frees_memory(after, region, res)
        }
        ||| {
            &&& exists|e: BackendError| #[trigger]
                self.asks(after, Request::Revoke { arena, region, answer: Err(e) })
            &&& !res
            &&& after@ == self@
        }
    }

    /// Free a region that was allocated here; its pages stay backed. A freed run of whole
    /// hugepages is remembered for reuse while there is an entry for it. Answers `false`, with
    /// nothing changed, for anything else: a foreign region, a second free, a part of an
    /// allocation, and any region after [`teardown`](Self::teardown).
    pub fn free_region(&mut self, region: Region) -> (res: bool)
        requires
            old(self).wf(),
        ensures
            final(self).wf(),
            old(self).frees(*final(self), region, res),
    {
        if self.released {
            return false;
        }
        if !region_contains(self.region.base, self.region.len, region.base) || region.len == 0 {
            return false;
        }
        let ghost before = self@;
        let ghost v = self@.filler;
        let ghost hp = v.index_of(region.base as int);
        proof {
            self.lemma_wf();
        }
        let pages: usize = region.len / PAGE_SIZE;
        if pages <= PAGES_PER_HUGEPAGE {
            let ok: bool = self.filler.free(region.base, pages).valid;
            proof {
                if ok {
                    filler_laws::law_operations_keep_live_pages_backed(
                        v.pages[hp],
                        v.page_at(region.base as int),
                        pages as int,
                        0,
                        false,
                    );
                    assert(v.pages[hp].ok());
                    assert(offered(before, region, before.cache));
                    assert(self@ == before.without_region(region, before.cache));
                }
            }
            ok
        } else {
            let n: usize = (pages - 1) / PAGES_PER_HUGEPAGE + 1;
            let ok: bool = self.filler.free_hugepages(region.base, n).valid;
            if ok {
                proof {
                    assert(v.run_ok(hp));
                    lemma_emptying_confirms(v, hp, n as int);
                }
                let _ = self.cache.store(region.base, n);
                proof {
                    assert(recorded(before.cache, region.base as int, n as int, self@.cache));
                    assert(offered(before, region, self@.cache));
                    assert(self@ == before.without_region(region, self@.cache));
                }
            }
            ok
        }
    }

    /// What cutting a region did. The provider is not asked.
    pub open spec fn trims(
        self,
        after: Self,
        region: Region,
        new_len: usize,
        res: Option<usize>,
    ) -> bool {
        let v = self@.filler;
        let base = region.base as int;
        let hp = v.index_of(base);
        let pages = region.len as int / (PAGE_SIZE as int);
        let kept = kept_pages(new_len as int);
        &&& after.source() == self.source()
        &&& if self@.is_allocated(region) && kept < pages <= PAGES_PER_HUGEPAGE {
            &&& res == Some(((pages - kept) * PAGE_SIZE) as usize)
            &&& after@ == (BackendView {
                filler: v.with_page(hp, v.pages[hp].trimmed(v.page_at(base), pages, kept)),
                ..self@
            })
        } else {
            res is None && after@ == self@
        }
    }

    /// Cut a packed allocation to `new_len` bytes, in whole pages and at least one, giving its
    /// tail back; the bytes given back. `None`, with nothing changed, unless that is a strict
    /// cut of exactly an allocation of at most a hugepage.
    pub fn trim_region(&mut self, region: Region, new_len: usize) -> (res: Option<usize>)
        requires
            old(self).wf(),
        ensures
            final(self).wf(),
            old(self).trims(*final(self), region, new_len, res),
    {
        proof {
            vstd::arithmetic::power2::lemma2_to64();
            assert(overflow::is_pow2(PAGE_SIZE as int)) by {
                assert(PAGE_SIZE as int == vstd::arithmetic::power2::pow2(14));
            }
            self.lemma_wf();
        }
        if self.released {
            return None;
        }
        if !region_contains(self.region.base, self.region.len, region.base) || region.len == 0 {
            return None;
        }
        let ghost v = self@.filler;
        let ghost hp = v.index_of(region.base as int);
        let old_pages: usize = region.len / PAGE_SIZE;
        let at_least_one: usize = if new_len == 0 {
            1
        } else {
            new_len
        };
        let new_pages: usize = match pages_for(at_least_one, PAGE_SIZE) {
            Some(n) => n,
            None => return None,
        };
        if new_pages >= old_pages || old_pages > PAGES_PER_HUGEPAGE {
            return None;
        }
        if self.filler.trim(region.base, old_pages, new_pages) {
            proof {
                assert(v.pages[hp].ok());
                filler_laws::law_operations_keep_live_pages_backed(
                    v.pages[hp],
                    v.page_at(region.base as int),
                    old_pages as int,
                    new_pages as int,
                    false,
                );
            }
            Some((old_pages - new_pages) * PAGE_SIZE)
        } else {
            None
        }
    }

    /// Whether the provider may refuse to take `[base, base + len)` back: it may not revoke what
    /// was derived from it, or may not take its backing away.
    pub open spec fn may_refuse(self, base: int, len: int) -> bool {
        exists|asked: Seq<Request>| #[trigger]
            self@.takes_back(base, len, false, asked) && self.may_answer(asked)
    }

    /// The provider may answer those requests like that.
    pub open spec fn may_answer(self, asked: Seq<Request>) -> bool {
        forall|k: int|
            #![trigger asked[k]]
            0 <= k < asked.len() ==> self.source().answers().contains(asked[k])
    }

    /// What a subrelease did, whatever the provider answered.
    pub open spec fn subreleases(
        self,
        after: Self,
        base: usize,
        pages: usize,
        pressure_high: bool,
        res: usize,
    ) -> bool {
        if self@.released || !self@.filler.may_return(base as int, pages as int, pressure_high) {
            res == 0 && after@ == self@ && after.source() == self.source()
        } else {
            exists|taken: bool, asked: Seq<Request>|
                {
                    &&& #[trigger] self@.takes_back(base as int, pages * PAGE_SIZE, taken, asked)
                    &&& self.asks_all(after, asked)
                    &&& res == (if taken {
                        pages * PAGE_SIZE
                    } else {
                        0
                    })
                    &&& after@ == (if taken {
                        self@.subreleased(base as int, pages as int)
                    } else {
                        self@.resumed(base as int, pages as int)
                    })
                }
        }
    }

    /// Keep or undo a subrelease that the filler decided, by whether the provider took the run
    /// back; the bytes returned.
    fn finish_subrelease(&mut self, sr: Subrelease, taken: bool) -> (res: usize)
        requires
            old(self).sound(),
        ensures
            final(self).sound(),
            final(self).source() == old(self).source(),
            ({
                let v = old(self)@.filler;
                let hp = sr.hugepage as int;
                let base = v.base + sr.region_offset;
                let pages = sr.len as int / (PAGE_SIZE as int);
                let filler = if !taken && v.names_run(hp, base, pages) {
                    v.with_page(hp, v.pages[hp].backed(v.offset_in(hp, base), pages))
                } else {
                    v
                };
                &&& final(self)@ == (BackendView { filler, ..old(self)@ })
                &&& res == (if taken {
                    sr.len
                } else {
                    0
                })
            }),
    {
        if taken {
            return sr.len;
        }
        self.filler.unsubrelease(&sr);
        0
    }

    /// Return the `pages` backed free pages at `base` to the operating system, if they may be:
    /// what was derived from them is revoked first, then their backing is taken away. The
    /// bytes returned; 0, with every page as it was, when they may not be or the provider
    /// refuses, and after [`teardown`](Self::teardown).
    pub fn subrelease(&mut self, base: usize, pages: usize, pressure_high: bool) -> (res: usize)
        requires
            old(self).wf(),
        ensures
            final(self).wf(),
            old(self).subreleases(*final(self), base, pages, pressure_high, res),
    {
        if self.released {
            return 0;
        }
        let ghost before = *self;
        let ghost v = self@.filler;
        let ghost hp = v.index_of(base as int);
        let ghost off = v.page_at(base as int);
        proof {
            self.lemma_wf();
        }
        let sr: Subrelease = match self.filler.subrelease(base, pages, pressure_high) {
            Some(sr) => sr,
            None => return 0,
        };
        proof {
            assert(v.pages[hp].ok());
            filler_laws::law_unsubrelease_undoes_subrelease(
                v.pages[hp],
                off,
                pages as int,
                pressure_high,
            );
            filler_laws::law_operations_keep_live_pages_backed(
                v.pages[hp],
                off,
                pages as int,
                0,
                pressure_high,
            );
            let w = self@.filler;
            assert(w.names_run(hp, base as int, pages as int));
            assert(w.offset_in(hp, base as int) == off);
            assert(sr.len as int / (PAGE_SIZE as int) == pages);
        }
        let sub = Region { base: self.region.base + sr.region_offset, len: sr.len };
        let ghost mut asked: Seq<Request> = Seq::empty();
        let revoked = self.provider.revoke_descendants(self.arena, sub);
        let ghost between = self.source();
        let ghost first = Request::Revoke { arena: before@.arena, region: sub, answer: revoked };
        proof {
            lemma_asked(before.source(), between, first);
        }
        let taken: bool = match revoked {
            Ok(u) => {
                let answer = self.provider.decommit(self.region, sr.region_offset, sr.len);
                proof {
                    let second = Request::Decommit {
                        region: before@.region,
                        offset: sr.region_offset,
                        len: sr.len,
                        answer,
                    };
                    lemma_asked(between, self.source(), second);
                    lemma_asked_twice(before.source(), between, self.source(), first, second);
                    asked = seq![first, second];
                    assert(u == ());
                    assert(first == before@.revoke_request(
                        base as int,
                        pages * PAGE_SIZE,
                        Ok(()),
                    ));
                    assert(second == before@.decommit_request(
                        base as int,
                        pages * PAGE_SIZE,
                        answer,
                    ));
                    match answer {
                        Ok(w) => assert(w == ()),
                        Err(e) => assert(before@.takes_back(
                            base as int,
                            pages * PAGE_SIZE,
                            false,
                            asked,
                        )),
                    }
                }
                answer.is_ok()
            },
            Err(e) => {
                proof {
                    asked = seq![first];
                    assert(first == before@.revoke_request(
                        base as int,
                        pages * PAGE_SIZE,
                        Err(e),
                    ));
                    assert(before@.takes_back(base as int, pages * PAGE_SIZE, false, asked));
                }
                false
            },
        };
        let res: usize = self.finish_subrelease(sr, taken);
        proof {
            assert(before@.takes_back(base as int, pages * PAGE_SIZE, taken, asked));
            assert(before.asks_all(*self, asked));
            if taken {
                assert(self@ == before@.subreleased(base as int, pages as int));
            } else {
                assert(self@ == before@.resumed(base as int, pages as int));
            }
        }
        res
    }

    /// Page `x` lies in a run of `pages` pages at page `off` of hugepage `i` that the provider
    /// may refuse to take back.
    pub open spec fn refused_run(self, i: int, x: int, off: int, pages: int) -> bool {
        &&& off <= x < off + pages
        &&& self.may_refuse(
            filler_laws::page_address(self@.filler, i, off),
            pages * PAGE_SIZE,
        )
    }

    /// Hugepage `i` turned from `p` into `q` by returning backed pages, all but those that the
    /// provider refused.
    pub open spec fn drained(self, i: int, p: HugePageView, q: HugePageView) -> bool {
        &&& q.committed.subset_of(p.committed)
        &&& q == (HugePageView {
            committed: q.committed,
            released: p.released.union(p.committed.difference(q.committed)),
            ..p
        })
        &&& forall|x: int| #[trigger]
            q.committed.contains(x) ==> exists|off: int, pages: int|
                self.refused_run(i, x, off, pages)
    }

    /// A maximal run of backed pages, with what the provider is asked for and may answer when it
    /// is offered.
    pub open spec fn offers(self, s: DrainStep) -> bool {
        let v = self@.filler;
        let base = filler_laws::page_address(v, s.page, s.off);
        &&& maximal_run(v.pages[s.page].committed, s.off, s.pages)
        &&& self@.takes_back(base, s.pages * PAGE_SIZE, s.taken, s.asked)
        &&& self.may_answer(s.asked)
    }

    /// The provider was asked for what the steps say, and for nothing else.
    pub open spec fn asks_steps(self, after: Self, steps: Seq<DrainStep>) -> bool {
        &&& after.source().answers() == self.source().answers()
        &&& after.source().requests() == self.source().requests() + asked_for(steps)
    }

    /// Every maximal run of backed pages of hugepage `i` was offered, from the first to the last.
    pub open spec fn drains_page(self, after: Self, i: int, steps: Seq<DrainStep>) -> bool {
        &&& forall|k: int|
            #![trigger steps[k]]
            0 <= k < steps.len() ==> steps[k].page == i && self.offers(steps[k])
        &&& forall|k: int, l: int|
            #![trigger steps[k], steps[l]]
            0 <= k < l < steps.len() ==> steps[k].precedes(steps[l])
        &&& forall|x: int| #[trigger]
            self@.filler.pages[i].committed.contains(x) ==> exists|k: int|
                0 <= k < steps.len() && (#[trigger] steps[k]).covers(i, x)
        &&& after@ == self@.after_steps(steps)
        &&& self.asks_steps(after, steps)
    }

    /// Every maximal run of backed pages of the hugepages beyond the first `reserve` that hold
    /// nothing live was offered, from the first to the last.
    pub open spec fn drains(self, after: Self, reserve: int, steps: Seq<DrainStep>) -> bool {
        let v = self@.filler;
        &&& forall|k: int|
            #![trigger steps[k]]
            0 <= k < steps.len() ==> {
                &&& 0 <= steps[k].page < v.opened
                &&& self.in_excess(steps[k].page, reserve)
                &&& self.offers(steps[k])
            }
        &&& forall|k: int, l: int|
            #![trigger steps[k], steps[l]]
            0 <= k < l < steps.len() ==> steps[k].precedes(steps[l])
        &&& forall|i: int, x: int|
            0 <= i < v.opened && self.in_excess(i, reserve) && #[trigger] v.pages[i].committed.contains(
                x,
            ) ==> exists|k: int| 0 <= k < steps.len() && (#[trigger] steps[k]).covers(i, x)
        &&& after@ == self@.after_steps(steps)
        &&& self.asks_steps(after, steps)
    }

    /// Return every backed page of hugepage `idx`, which holds nothing live, one maximal run at
    /// a time; the bytes returned. A run that the provider refuses is skipped.
    fn drain_hugepage(&mut self, idx: u32) -> (res: usize)
        requires
            old(self).wf(),
            !old(self)@.released,
            idx < old(self)@.filler.opened,
            old(self)@.filler.pages[idx as int].used() == 0,
        ensures
            final(self).wf(),
            ({
                let v = old(self)@.filler;
                let w = final(self)@.filler;
                &&& final(self)@ == (BackendView { filler: w, ..old(self)@ })
                &&& w.base == v.base
                &&& w.opened == v.opened
                &&& w.pages == v.pages.update(idx as int, w.pages[idx as int])
                &&& old(self).drained(idx as int, v.pages[idx as int], w.pages[idx as int])
                &&& res == (v.pages[idx as int].committed.len() - w.pages[idx as int].committed.len())
                    * PAGE_SIZE
            }),
            exists|steps: Seq<DrainStep>| #[trigger]
                old(self).drains_page(*final(self), idx as int, steps) && res == taken_bytes(
                    steps,
                ),
    {
        let ghost before = *self;
        let ghost v = self@.filler;
        let ghost i = idx as int;
        let ghost p = v.pages[i];
        proof {
            self.lemma_wf();
            assert(p.ok());
            bitmap::lemma_pages_bounded(p.live);
            bitmap::lemma_pages_bounded(p.committed);
            assert(v.pages.update(i, p) =~= v.pages);
            assert(p =~= (HugePageView {
                committed: p.committed,
                released: p.released.union(p.committed.difference(p.committed)),
                ..p
            }));
        }
        let base: usize = self.region.base + idx as usize * HUGEPAGE_SIZE;
        let mut released: usize = 0;
        let mut search_from: usize = 0;
        let ghost mut steps: Seq<DrainStep> = Seq::empty();
        proof {
            assert(before.source().requests() + asked_for(steps) =~= before.source().requests());
        }
        loop
            invariant
                self@ == before@.after_steps(steps),
                released == taken_bytes(steps),
                search_from == 0 || !p.committed.contains(search_from as int),
                forall|k: int|
                    #![trigger steps[k]]
                    0 <= k < steps.len() ==> {
                        &&& steps[k].page == i
                        &&& before.offers(steps[k])
                        &&& steps[k].off + steps[k].pages <= search_from
                    },
                forall|k: int, l: int|
                    #![trigger steps[k], steps[l]]
                    0 <= k < l < steps.len() ==> steps[k].precedes(steps[l]),
                forall|x: int|
                    x < search_from && #[trigger] p.committed.contains(x) ==> exists|k: int|
                        0 <= k < steps.len() && (#[trigger] steps[k]).covers(i, x),
                self.wf(),
                before == *old(self),
                before.asks_steps(*self, steps),
                before@.filler == v,
                !before@.released,
                v.ok(),
                i == idx < v.opened,
                p == v.pages[i],
                p.ok(),
                p.live == Set::<int>::empty(),
                p.committed.finite(),
                p.committed.len() <= PAGES_PER_HUGEPAGE,
                base == v.huge_base(i),
                search_from <= PAGES_PER_HUGEPAGE,
                self@ == (BackendView { filler: self@.filler, ..before@ }),
                self@.filler.base == v.base,
                self@.filler.opened == v.opened,
                self@.filler.pages == v.pages.update(i, self@.filler.pages[i]),
                self@.filler.pages[i].committed.subset_of(p.committed),
                self@.filler.pages[i] == (HugePageView {
                    committed: self@.filler.pages[i].committed,
                    released: p.released.union(
                        p.committed.difference(self@.filler.pages[i].committed),
                    ),
                    ..p
                }),
                forall|x: int|
                    x >= search_from ==> self@.filler.pages[i].committed.contains(x)
                        == #[trigger] p.committed.contains(x),
                forall|x: int|
                    x < search_from && #[trigger] self@.filler.pages[i].committed.contains(x)
                        ==> exists|off: int, pages: int| before.refused_run(i, x, off, pages),
                released == (p.committed.len() - self@.filler.pages[i].committed.len()) * PAGE_SIZE,
            decreases PAGES_PER_HUGEPAGE - search_from,
        {
            let ghost u = self@.filler;
            let ghost q = u.pages[i];
            proof {
                self.lemma_wf();
                lemma_set_subset_finite(p.committed, q.committed);
                lemma_len_subset(q.committed, p.committed);
            }
            let (off, pages): (usize, usize) = match self.filler.next_committed_run(
                idx,
                search_from,
            ) {
                Some(run) => run,
                None => {
                    proof {
                        assert forall|x: int| #[trigger]
                            q.committed.contains(x) implies exists|off: int, pages: int|
                            before.refused_run(i, x, off, pages) by {
                            if x >= search_from {
                                assert(p.committed.contains(x));
                            }
                        }
                        assert forall|x: int| #[trigger]
                            before@.filler.pages[i].committed.contains(x) implies exists|k: int|
                            0 <= k < steps.len() && (#[trigger] steps[k]).covers(i, x) by {
                            assert(x < search_from || q.committed.contains(x));
                        }
                        assert(before.drains_page(*self, i, steps));
                    }
                    return released;
                },
            };
            let ghost run = bitmap::page_run(off as int, pages as int);
            proof {
                filler_laws::lemma_address(u, i, off as int);
                assert(u.huge_base(i) == v.huge_base(i));
                assert(u.pages[i].may_return(off as int, pages as int, true));
                assert(q.ok());
                filler_laws::law_unsubrelease_undoes_subrelease(
                    q,
                    off as int,
                    pages as int,
                    true,
                );
                lemma_without_run(q.committed, off as int, pages as int);
                lemma_len_subset(q.returned(off as int, pages as int).committed, q.committed);
            }
            let ghost prior = *self;
            let ghost mut asked: Seq<Request> = Seq::empty();
            let bytes: usize = self.subrelease(base + off * PAGE_SIZE, pages, true);
            proof {
                let at = base + off * PAGE_SIZE;
                let now = self@.filler.pages[i];
                let (t, rs) = choose|t: bool, rs: Seq<Request>|
                    {
                        &&& #[trigger] prior@.takes_back(at, pages * PAGE_SIZE, t, rs)
                        &&& prior.asks_all(*self, rs)
                        &&& bytes == (if t {
                            pages * PAGE_SIZE
                        } else {
                            0
                        })
                        &&& self@ == (if t {
                            prior@.subreleased(at, pages as int)
                        } else {
                            prior@.resumed(at, pages as int)
                        })
                    };
                asked = rs;
                lemma_same_requests(prior@, before@, at, pages * PAGE_SIZE, t, rs);
                assert(before.may_answer(rs));
                if bytes == 0 {
                    assert(before.may_refuse(at, pages * PAGE_SIZE));
                    assert(now == q);
                    assert forall|x: int| off <= x < off + pages implies before.refused_run(
                        i,
                        x,
                        off as int,
                        pages as int,
                    ) by {}
                    assert forall|x: int|
                        x < off + pages && #[trigger] now.committed.contains(x) implies exists|
                        o: int,
                        n: int,
                    | before.refused_run(i, x, o, n) by {
                        if x >= off {
                            assert(before.refused_run(i, x, off as int, pages as int));
                        }
                    }
                } else {
                    assert(now == q.returned(off as int, pages as int));
                    assert(now.released =~= p.released.union(p.committed.difference(now.committed)))
                        by {
                        assert forall|x: int| run.contains(x) implies p.committed.contains(x) by {
                            assert(q.committed.contains(x));
                        }
                    }
                    assert forall|x: int|
                        x < off + pages && #[trigger] now.committed.contains(x) implies exists|
                        o: int,
                        n: int,
                    | before.refused_run(i, x, o, n) by {
                        assert(q.committed.contains(x));
                        if x >= off {
                            assert(run.contains(x));
                        }
                    }
                }
                assert(self@.filler.pages =~= v.pages.update(i, now));
                assert forall|x: int| x >= off + pages implies now.committed.contains(x)
                    == #[trigger] p.committed.contains(x) by {
                    assert(!run.contains(x));
                }
            }
            proof {
                let step = DrainStep {
                    page: i,
                    off: off as int,
                    pages: pages as int,
                    taken: bytes != 0,
                    asked,
                };
                let earlier = steps;
                assert(maximal_run(p.committed, off as int, pages as int)) by {
                    assert forall|x: int| run.contains(x) implies p.committed.contains(x) by {
                        assert(q.committed.contains(x));
                    }
                }
                assert(before.offers(step));
                steps = steps.push(step);
                assert(steps.drop_last() =~= earlier);
                assert(before.source().requests() + asked_for(earlier) + asked
                    =~= before.source().requests() + asked_for(steps));
                assert forall|x: int|
                    x < off + pages && #[trigger] p.committed.contains(x) implies exists|k: int|
                    0 <= k < steps.len() && (#[trigger] steps[k]).covers(i, x) by {
                    if x < search_from {
                        let k = choose|k: int|
                            0 <= k < earlier.len() && (#[trigger] earlier[k]).covers(i, x);
                        assert(steps[k].covers(i, x));
                    } else {
                        assert(q.committed.contains(x));
                        assert(steps[earlier.len() as int].covers(i, x));
                    }
                }
            }
            released = released + bytes;
            search_from = off + pages;
        }
    }

    /// Hugepage `i` holds a backed page and nothing live, and `reserve` hugepages before it do.
    pub open spec fn in_excess(self, i: int, reserve: int) -> bool {
        let v = self@.filler;
        &&& v.pages[i].empty_backed()
        &&& filler_model::sum_pages(Metric::EmptyBackedPages, v.pages, i) >= reserve
    }

    /// What returning the empty hugepages beyond the first `reserve` did: those are drained,
    /// the others are as they were, and `bytes` is what empty hugepages hold less.
    pub open spec fn shrinks(self, after: Self, reserve: int, bytes: int) -> bool {
        let v = self@.filler;
        let w = after@.filler;
        if self@.released {
            after@ == self@ && after.source() == self.source() && bytes == 0
        } else {
            &&& after@ == (BackendView { filler: w, ..self@ })
            &&& w.base == v.base
            &&& w.opened == v.opened
            &&& w.pages.len() == v.pages.len()
            &&& forall|i: int|
                #![trigger w.pages[i]]
                0 <= i < v.pages.len() ==> if i < v.opened && self.in_excess(i, reserve) {
                    self.drained(i, v.pages[i], w.pages[i])
                } else {
                    w.pages[i] == v.pages[i]
                }
            &&& bytes == v.total(Metric::EmptyBacked) - w.total(Metric::EmptyBacked)
            &&& exists|steps: Seq<DrainStep>| #[trigger]
                self.drains(after, reserve, steps) && bytes == taken_bytes(steps)
        }
    }

    /// What giving up `asked` bytes of empty hugepages did: as many hugepages as hold them are
    /// returned, and the others kept.
    pub open spec fn gives_up(self, after: Self, asked: int, bytes: int) -> bool {
        self.shrinks(
            after,
            release::monus(
                self@.filler.total(Metric::EmptyBackedPages),
                overflow::ceil_div(asked, HUGEPAGE_SIZE as int),
            ),
            bytes,
        )
    }

    /// Return the backing of the hugepages that hold nothing live, but for the first `reserve`
    /// of them; the bytes returned. What the provider refuses stays, and does not keep the rest
    /// from being returned.
    pub fn release_empty_excess(&mut self, reserve: usize) -> (res: usize)
        requires
            old(self).wf(),
        ensures
            final(self).wf(),
            old(self).shrinks(*final(self), reserve as int, res as int),
    {
        if self.released {
            return 0;
        }
        let ghost before = *self;
        let ghost v = self@.filler;
        proof {
            self.lemma_wf();
        }
        let mut released: usize = 0;
        let mut kept: usize = 0;
        let mut from: u32 = 0;
        let ghost mut steps: Seq<DrainStep> = Seq::empty();
        proof {
            assert(before.source().requests() + asked_for(steps) =~= before.source().requests());
        }
        loop
            invariant
                self@ == before@.after_steps(steps),
                released == taken_bytes(steps),
                forall|k: int|
                    #![trigger steps[k]]
                    0 <= k < steps.len() ==> {
                        &&& 0 <= steps[k].page < from
                        &&& before.in_excess(steps[k].page, reserve as int)
                        &&& before.offers(steps[k])
                    },
                forall|k: int, l: int|
                    #![trigger steps[k], steps[l]]
                    0 <= k < l < steps.len() ==> steps[k].precedes(steps[l]),
                forall|i: int, x: int|
                    0 <= i < from && before.in_excess(i, reserve as int)
                        && #[trigger] v.pages[i].committed.contains(x) ==> exists|k: int|
                        0 <= k < steps.len() && (#[trigger] steps[k]).covers(i, x),
                self.wf(),
                before == *old(self),
                before.asks_steps(*self, steps),
                before@.filler == v,
                !before@.released,
                v.ok(),
                from <= v.opened,
                self@ == (BackendView { filler: self@.filler, ..before@ }),
                self@.filler.base == v.base,
                self@.filler.opened == v.opened,
                self@.filler.pages.len() == v.pages.len(),
                forall|i: int|
                    #![trigger self@.filler.pages[i]]
                    0 <= i < from ==> if before.in_excess(i, reserve as int) {
                        before.drained(i, v.pages[i], self@.filler.pages[i])
                    } else {
                        self@.filler.pages[i] == v.pages[i]
                    },
                forall|i: int|
                    #![trigger self@.filler.pages[i]]
                    from <= i < v.pages.len() ==> self@.filler.pages[i] == v.pages[i],
                kept == filler_model::min_of(
                    reserve as int,
                    filler_model::sum_pages(Metric::EmptyBackedPages, v.pages, from as int),
                ),
                released == v.total(Metric::EmptyBacked) - self@.filler.total(Metric::EmptyBacked),
            decreases v.opened - from,
        {
            let ghost u = self@.filler;
            proof {
                self.lemma_wf();
            }
            let next = self.filler.next_empty_backed(from);
            let idx: u32 = match next {
                Some((idx, _base, _committed)) => idx,
                None => {
                    proof {
                        assert forall|i: int|
                            #![trigger u.pages[i]]
                            0 <= i < v.pages.len() implies if i < v.opened && before.in_excess(
                            i,
                            reserve as int,
                        ) {
                            before.drained(i, v.pages[i], u.pages[i])
                        } else {
                            u.pages[i] == v.pages[i]
                        } by {
                            if from <= i < v.opened {
                                assert(!u.pages[i].empty_backed());
                            }
                        }
                        assert forall|i: int| from <= i < v.opened implies !#[trigger] before.in_excess(
                            i,
                            reserve as int,
                        ) by {
                            assert(u.pages[i] == v.pages[i]);
                            assert(!u.pages[i].empty_backed());
                        }
                        assert(before.drains(*self, reserve as int, steps));
                    }
                    return released;
                },
            };
            let ghost i = idx as int;
            let ghost offered = steps;
            proof {
                assert forall|j: int| from <= j < i implies !#[trigger] before.in_excess(
                    j,
                    reserve as int,
                ) by {
                    assert(u.pages[j] == v.pages[j]);
                    assert(!u.pages[j].empty_backed());
                }
                assert forall|j: int|
                    #![trigger v.pages[j]]
                    from <= j < i implies filler_model::amount(
                    Metric::EmptyBackedPages,
                    v.pages[j],
                ) == 0 by {
                    assert(u.pages[j] == v.pages[j]);
                }
                filler_model::lemma_sum_gap(Metric::EmptyBackedPages, v.pages, from as int, i);
                assert(u.pages[i] == v.pages[i]);
                assert(filler_model::sum_pages(Metric::EmptyBackedPages, v.pages, i + 1)
                    == filler_model::sum_pages(Metric::EmptyBackedPages, v.pages, i) + 1);
            }
            if kept < reserve {
                proof {
                    assert(!before.in_excess(i, reserve as int));
                }
                kept = kept + 1;
            } else {
                let ghost prior = *self;
                let bytes: usize = self.drain_hugepage(idx);
                proof {
                    let w = self@.filler;
                    assert forall|x: int, o: int, n: int| #[trigger]
                        prior.refused_run(i, x, o, n) implies before.refused_run(i, x, o, n) by {
                        lemma_same_provider(
                            prior,
                            before,
                            filler_laws::page_address(prior@.filler, i, o),
                            n * PAGE_SIZE,
                        );
                    }
                    assert(before.drained(i, v.pages[i], w.pages[i])) by {
                        assert forall|x: int| #[trigger]
                            w.pages[i].committed.contains(x) implies exists|o: int, n: int|
                            before.refused_run(i, x, o, n) by {
                            let (o, n) = choose|o: int, n: int| prior.refused_run(i, x, o, n);
                            assert(before.refused_run(i, x, o, n));
                        }
                    }
                    filler_model::lemma_sum_update(
                        Metric::EmptyBacked,
                        u.pages,
                        u.opened,
                        i,
                        w.pages[i],
                    );
                    assert forall|j: int|
                        #![trigger w.pages[j]]
                        0 <= j < v.pages.len() && j != i implies w.pages[j] == u.pages[j] by {}
                    filler_model::lemma_sum_bounds(Metric::EmptyBacked, v.pages, v.opened);
                    self.lemma_wf();
                    filler_model::lemma_sum_bounds(Metric::EmptyBacked, w.pages, w.opened);
                    assert(w.pages[i].used() == 0);
                    let more = choose|more: Seq<DrainStep>| #[trigger]
                        prior.drains_page(*self, i, more) && bytes == taken_bytes(more);
                    let earlier = steps;
                    steps = earlier + more;
                    lemma_steps_join(before@, earlier, more);
                    assert(before.source().requests() + asked_for(earlier) + asked_for(more)
                        =~= before.source().requests() + asked_for(steps));
                    lemma_page_drained(before, prior, *self, reserve as int, earlier, more, i);
                }
                released = released + bytes;
            }
            proof {
                assert forall|j: int, x: int|
                    0 <= j < i + 1 && before.in_excess(j, reserve as int)
                        && #[trigger] v.pages[j].committed.contains(x) implies exists|k: int|
                    0 <= k < steps.len() && (#[trigger] steps[k]).covers(j, x) by {
                    if j < i {
                        assert(j < from);
                        let k = choose|k: int|
                            0 <= k < offered.len() && (#[trigger] offered[k]).covers(j, x);
                        assert(steps[k].covers(j, x));
                    }
                }
            }
            from = idx + 1;
        }
    }

    /// Tick the controller on what this backend holds, and return the empty hugepages that the
    /// plan asks for, in whole hugepages and at least one when it asks for any. The plan, and
    /// the bytes returned.
    pub fn release_tick(
        &mut self,
        controller: &mut ReleaseController,
        now_ms: u64,
        inputs: ReleaseInputs,
    ) -> (res: (ReleasePlan, u64))
        requires
            old(self).wf(),
        ensures
            final(self).wf(),
            exists|st: HugeStats| #[trigger]
                old(self)@.filler.has_stats(st) && {
                    let sampled = sampled_inputs(inputs, st);
                    let asked = res.0.release_empty_hugepages_bytes as int;
                    &&& res.0 == old(controller)@.plan(now_ms, sampled)
                    &&& final(controller)@ == old(controller)@.after(now_ms, sampled)
                    &&& if asked == 0 {
                        &&& final(self)@ == old(self)@
                        &&& final(self).source() == old(self).source()
                        &&& res.1 == 0
                    } else {
                        old(self).gives_up(*final(self), asked, res.1 as int)
                    }
                },
    {
        let ghost v = self@.filler;
        let cov: HugeStats = self.coverage();
        let mut inputs: ReleaseInputs = inputs;
        inputs.empty_backed_hugepage_bytes = cov.empty_backed_bytes;
        inputs.hugepage_coverage_ratio_bp = cov.coverage_ratio_bp();
        let plan: ReleasePlan = controller.tick(now_ms, inputs);
        proof {
            assert(v.has_stats(cov));
        }
        if plan.release_empty_hugepages_bytes == 0 {
            return (plan, 0);
        }
        let empty_hp: usize = self.empty_backed_hugepages();
        let release_hp: u64 = (plan.release_empty_hugepages_bytes - 1) / (HUGEPAGE_SIZE as u64) + 1;
        let reserve_hp: usize = if release_hp >= empty_hp as u64 {
            0
        } else {
            empty_hp - release_hp as usize
        };
        let released: usize = self.release_empty_excess(reserve_hp);
        (plan, released as u64)
    }

    /// The coverage statistics.
    pub fn coverage(&self) -> (res: HugeStats)
        requires
            self.wf(),
        ensures
            self@.filler.has_stats(res),
    {
        self.filler.coverage()
    }

    /// The bytes of the reservation by state. Backed free bytes are dirty, nothing is muzzy,
    /// and what was never backed is reserved, so that a reservation as large as what was
    /// opened of it is accounted for in full.
    pub fn state_bytes(&self) -> (res: StateBytes)
        requires
            self.wf(),
        ensures
            ({
                let v = self@.filler;
                &&& res.active == v.total(Metric::Live)
                &&& res.dirty == v.total(Metric::Fragmentation) + v.total(Metric::EmptyBacked)
                &&& res.muzzy == 0
                &&& res.released == v.total(Metric::EmptyReleased) + v.total(
                    Metric::PartialReleased,
                )
                &&& res.reserved == release::monus(
                    self@.region.len as int,
                    res.active + res.dirty + res.released,
                )
                &&& self@.region.len >= v.opened * HUGEPAGE_SIZE ==> res.reserved + res.active
                    + res.dirty + res.muzzy + res.released == self@.region.len
            }),
    {
        proof {
            let v = self@.filler;
            self.lemma_wf();
            lemma_states_fit(v, v.opened);
            filler_model::lemma_sum_bounds(Metric::Live, v.pages, v.opened);
            filler_model::lemma_sum_bounds(Metric::Fragmentation, v.pages, v.opened);
            filler_model::lemma_sum_bounds(Metric::EmptyBacked, v.pages, v.opened);
            filler_model::lemma_sum_bounds(Metric::EmptyReleased, v.pages, v.opened);
            filler_model::lemma_sum_bounds(Metric::PartialReleased, v.pages, v.opened);
        }
        let cov: HugeStats = self.coverage();
        let active: usize = cov.live_total_bytes as usize;
        let dirty: usize = cov.fragmentation_bytes as usize + cov.empty_backed_bytes as usize;
        let released: usize = cov.empty_released_bytes as usize
            + cov.partial_subreleased_bytes as usize;
        StateBytes {
            reserved: self.region.len.saturating_sub(active + dirty + released),
            active,
            dirty,
            muzzy: 0,
            released,
        }
    }

    /// How many hugepages hold a backed page and nothing live.
    pub fn empty_backed_hugepages(&self) -> (res: usize)
        requires
            self.wf(),
        ensures
            res == self@.filler.total(Metric::EmptyBackedPages),
    {
        self.filler.empty_backed_hugepages()
    }

    /// Subreleases so far.
    pub fn subrelease_events(&self) -> (res: u64)
        ensures
            res == self@.filler.subreleases,
    {
        self.filler.subrelease_events()
    }

    /// Mark the hugepage that covers `addr` cold; `false` when no opened hugepage does.
    pub fn mark_cold(&mut self, addr: usize) -> (res: bool)
        requires
            old(self).wf(),
        ensures
            final(self).wf(),
            final(self).source() == old(self).source(),
            ({
                let v = old(self)@.filler;
                let i = v.index_of(addr as int);
                &&& res == v.opened_at(addr as int)
                &&& final(self)@ == (if res {
                    BackendView {
                        filler: v.with_page(
                            i,
                            HugePageView { hotness: Hotness::Cold, ..v.pages[i] },
                        ),
                        ..old(self)@
                    }
                } else {
                    old(self)@
                })
            }),
    {
        let ghost v = self@.filler;
        proof {
            self.lemma_wf();
        }
        let res: bool = self.filler.mark_cold(addr);
        proof {
            let i = v.index_of(addr as int);
            if res {
                let q = HugePageView { hotness: Hotness::Cold, ..v.pages[i] };
                assert(v.pages[i].confirmed());
                assert(q.confirmed());
                lemma_confirmed_page(v, i, q);
            }
        }
        res
    }

    /// Hugepages opened so far.
    pub fn touched_hugepages(&self) -> (res: usize)
        ensures
            res == self@.filler.opened,
    {
        self.filler.touched()
    }

    /// The filler of the backend is consistent: every slot is good, the links of the bins spell
    /// their lists, and every live page is backed.
    pub closed spec fn consistent(self) -> bool {
        self.filler.consistent()
    }

    /// Whether the filler lies whole in the address space, so that it can be looked over. That
    /// of a good backend does.
    pub open spec fn checkable(self) -> bool {
        self.wf() || self@.filler.geometry()
    }

    /// A good backend is consistent.
    pub proof fn lemma_wf_consistent(self)
        requires
            self.wf(),
        ensures
            self.consistent(),
    {
        self.filler.lemma_consistent();
    }

    /// Whether the filler is as it should be. It is in a good backend.
    pub fn check_invariants(&self) -> (res: bool)
        requires
            self.checkable(),
        ensures
            res == self.consistent(),
            self.wf() ==> res,
    {
        proof {
            if self.wf() {
                self.lemma_wf();
                self.lemma_wf_consistent();
            }
        }
        self.filler.check_invariants()
    }

    /// What giving the reservation back did, whatever the provider answered.
    pub open spec fn tears_down(self, after: Self, res: Result<(), BackendError>) -> bool {
        if self@.released {
            res == Ok::<(), BackendError>(()) && after@ == self@ && after.source()
                == self.source()
        } else {
            &&& self.asks(after, given_back(self@.arena, self@.region, res))
            &&& after@ == (BackendView {
                cache: Seq::new(self@.cache.len(), |i: int| (0int, 0int)),
                released: true,
                ..self@
            })
        }
    }

    /// Give the reservation back, once. The backend answers no request after that.
    pub fn teardown(&mut self) -> (res: Result<(), BackendError>)
        requires
            old(self).wf(),
        ensures
            final(self).wf(),
            old(self).tears_down(*final(self), res),
    {
        if self.released {
            return Ok(());
        }
        self.released = true;
        self.cache.clear();
        let ghost before = self.source();
        let res: Result<(), BackendError> = self.provider.release(self.arena, self.region);
        proof {
            lemma_asked(before, self.source(), given_back(self.arena, self.region, res));
        }
        res
    }
}

impl<P: TopoBackingProvider> RegionCacheHook for HugePageBackend<P> {
    open spec fn hook_wf(&self) -> bool {
        self.wf()
    }

    open spec fn may_serve(
        &self,
        after: &Self,
        bytes: usize,
        align: usize,
        hints: Hints,
        res: Option<Region>,
    ) -> bool {
        &&& hints.hugepage == HugepagePolicy::Avoid ==> res is None && after@ == self@
            && after.source() == self.source()
        &&& hints.hugepage != HugepagePolicy::Avoid ==> self.allocates(
            *after,
            bytes,
            align,
            place_hints(hints),
            res,
        )
    }

    open spec fn may_take(&self, after: &Self, region: Region, res: bool) -> bool {
        self.frees(*after, region, res)
    }

    open spec fn may_take_revoking(
        &self,
        after: &Self,
        region: Region,
        arena: ArenaId,
        res: bool,
    ) -> bool {
        self.revokes(*after, region, arena, res)
    }

    open spec fn may_cut(
        &self,
        after: &Self,
        region: Region,
        new_len: usize,
        res: Option<usize>,
    ) -> bool {
        self.trims(*after, region, new_len, res)
    }

    fn state_bytes(&self) -> (res: StateBytes)
        ensures
            ({
                let v = self@.filler;
                &&& res.active == v.total(Metric::Live)
                &&& res.dirty == v.total(Metric::Fragmentation) + v.total(Metric::EmptyBacked)
                &&& res.muzzy == 0
                &&& res.released == v.total(Metric::EmptyReleased) + v.total(
                    Metric::PartialReleased,
                )
                &&& res.reserved == release::monus(
                    self@.region.len as int,
                    res.active + res.dirty + res.released,
                )
            }),
    {
        HugePageBackend::state_bytes(self)
    }

    /// A request that avoids hugepages is declined; any other is allocated with its hotness and
    /// lifetime.
    fn try_alloc(&mut self, bytes: usize, align: usize, hints: Hints) -> (res: Option<Region>)
        ensures
            res matches Some(region) ==> region.base as int % (align as int) == 0 && region.len
                == overflow::round_up(bytes as int, PAGE_SIZE as int),
    {
        if hints.hugepage == HugepagePolicy::Avoid {
            return None;
        }
        self.allocate(
            bytes,
            align,
            PlaceHints { hotness: Hotness::from_hint(hints.hotness), lifetime: hints.lifetime },
        )
    }

    fn try_cache(&mut self, region: Region) -> (res: bool) {
        self.free_region(region)
    }

    /// What `arena` derived from the region is revoked before the region is freed; when that is
    /// refused, nothing changes.
    fn try_cache_revoking(&mut self, region: Region, arena: ArenaId) -> (res: bool) {
        let ghost before = *self;
        let answer: Result<(), BackendError> = self.provider.revoke_descendants(arena, region);
        proof {
            lemma_asked(
                before.source(),
                self.source(),
                Request::Revoke { arena, region, answer },
            );
        }
        let ghost between = *self;
        match answer {
            Ok(u) => {
                let res: bool = self.free_region(region);
                proof {
                    assert(u == ());
                    assert(between@ == before@);
                    assert(before.frees_memory(*self, region, res));
                }
                res
            },
            Err(e) => {
                proof {
                    assert(before.asks(*self, Request::Revoke { arena, region, answer: Err(e) }));
                }
                false
            },
        }
    }

    fn try_trim(&mut self, region: Region, new_len: usize) -> (res: Option<usize>) {
        self.trim_region(region, new_len)
    }
}

/// The runs of one more hugepage follow those of the hugepages before it.
proof fn lemma_page_drained<P: TopoBackingProvider>(
    before: HugePageBackend<P>,
    prior: HugePageBackend<P>,
    after: HugePageBackend<P>,
    reserve: int,
    earlier: Seq<DrainStep>,
    more: Seq<DrainStep>,
    i: int,
)
    requires
        before.source().answers() == prior.source().answers(),
        before@.region == prior@.region,
        before@.arena == prior@.arena,
        before@.filler.base == prior@.filler.base,
        before@.filler.pages[i] == prior@.filler.pages[i],
        before.in_excess(i, reserve),
        prior.drains_page(after, i, more),
        0 <= i,
        forall|k: int|
            #![trigger earlier[k]]
            0 <= k < earlier.len() ==> {
                &&& 0 <= earlier[k].page < i
                &&& before.in_excess(earlier[k].page, reserve)
                &&& before.offers(earlier[k])
            },
        forall|k: int, l: int|
            #![trigger earlier[k], earlier[l]]
            0 <= k < l < earlier.len() ==> earlier[k].precedes(earlier[l]),
    ensures
        ({
            let steps = earlier + more;
            &&& forall|k: int|
                #![trigger steps[k]]
                0 <= k < steps.len() ==> {
                    &&& 0 <= steps[k].page <= i
                    &&& before.in_excess(steps[k].page, reserve)
                    &&& before.offers(steps[k])
                }
            &&& forall|k: int, l: int|
                #![trigger steps[k], steps[l]]
                0 <= k < l < steps.len() ==> steps[k].precedes(steps[l])
            &&& forall|x: int| #[trigger]
                before@.filler.pages[i].committed.contains(x) ==> exists|k: int|
                    0 <= k < steps.len() && (#[trigger] steps[k]).covers(i, x)
            &&& forall|j: int, x: int, k: int|
                0 <= k < earlier.len() && (#[trigger] earlier[k]).covers(j, x)
                    ==> #[trigger] steps[k].covers(j, x)
        }),
{
    let steps = earlier + more;
    let n = earlier.len() as int;
    assert forall|k: int| #![trigger steps[k]] 0 <= k < steps.len() implies {
        &&& 0 <= steps[k].page <= i
        &&& before.in_excess(steps[k].page, reserve)
        &&& before.offers(steps[k])
    } by {
        if k < n {
            assert(steps[k] == earlier[k]);
        } else {
            let s = more[k - n];
            assert(steps[k] == s);
            assert(prior.offers(s));
            lemma_same_requests(
                prior@,
                before@,
                filler_laws::page_address(prior@.filler, i, s.off),
                s.pages * PAGE_SIZE,
                s.taken,
                s.asked,
            );
        }
    }
    assert forall|k: int, l: int|
        #![trigger steps[k], steps[l]]
        0 <= k < l < steps.len() implies steps[k].precedes(steps[l]) by {
        if l < n {
            assert(steps[k] == earlier[k] && steps[l] == earlier[l]);
        } else if k < n {
            assert(steps[k] == earlier[k] && steps[l] == more[l - n]);
        } else {
            assert(steps[k] == more[k - n] && steps[l] == more[l - n]);
        }
    }
    assert forall|x: int| #[trigger]
        before@.filler.pages[i].committed.contains(x) implies exists|k: int|
        0 <= k < steps.len() && (#[trigger] steps[k]).covers(i, x) by {
        assert(prior@.filler.pages[i].committed.contains(x));
        let k = choose|k: int| 0 <= k < more.len() && (#[trigger] more[k]).covers(i, x);
        assert(steps[n + k] == more[k]);
    }
    assert forall|j: int, x: int, k: int|
        0 <= k < earlier.len() && (#[trigger] earlier[k]).covers(j, x) implies #[trigger] steps[k].covers(
        j,
        x,
    ) by {
        assert(steps[k] == earlier[k]);
    }
}

/// What a provider may refuse depends on the provider and on the reservation alone.
proof fn lemma_same_provider<P: TopoBackingProvider>(
    a: HugePageBackend<P>,
    b: HugePageBackend<P>,
    base: int,
    len: int,
)
    requires
        a.source().answers() == b.source().answers(),
        a@.region == b@.region,
        a@.arena == b@.arena,
    ensures
        a.may_refuse(base, len) ==> b.may_refuse(base, len),
{
    if a.may_refuse(base, len) {
        let asked = choose|asked: Seq<Request>| #[trigger]
            a@.takes_back(base, len, false, asked) && a.may_answer(asked);
        lemma_same_requests(a@, b@, base, len, false, asked);
    }
}

/// What a provider is asked for to take memory back depends on the reservation alone.
proof fn lemma_same_requests(
    a: BackendView,
    b: BackendView,
    base: int,
    len: int,
    taken: bool,
    asked: Seq<Request>,
)
    requires
        a.region == b.region,
        a.arena == b.arena,
        a.takes_back(base, len, taken, asked),
    ensures
        b.takes_back(base, len, taken, asked),
{
    assert forall|answer: Result<(), BackendError>|
        a.revoke_request(base, len, answer) == #[trigger] b.revoke_request(base, len, answer) by {}
    assert forall|answer: Result<(), BackendError>|
        a.decommit_request(base, len, answer) == #[trigger] b.decommit_request(
            base,
            len,
            answer,
        ) by {}
    if !taken {
        if exists|e: BackendError| asked == seq![#[trigger] a.revoke_request(base, len, Err(e))] {
            let e = choose|e: BackendError|
                asked == seq![#[trigger] a.revoke_request(base, len, Err(e))];
            assert(asked == seq![b.revoke_request(base, len, Err(e))]);
        } else {
            let e = choose|e: BackendError|
                asked == seq![
                    a.revoke_request(base, len, Ok(())),
                    #[trigger] a.decommit_request(base, len, Err(e)),
                ];
            assert(asked == seq![
                b.revoke_request(base, len, Ok(())),
                b.decommit_request(base, len, Err(e)),
            ]);
        }
    }
}

/// One request is what the provider was asked for.
proof fn lemma_asked<P: TopoBackingProvider>(before: P, after: P, r: Request)
    requires
        before.answers().contains(r),
        after.answers() == before.answers(),
        after.requests() == before.requests().push(r),
    ensures
        backend::requested(before, after, seq![r]),
{
    assert(before.requests() + seq![r] =~= before.requests().push(r));
}

/// Two requests are what the provider was asked for.
proof fn lemma_asked_twice<P: TopoBackingProvider>(
    before: P,
    between: P,
    after: P,
    r: Request,
    t: Request,
)
    requires
        backend::requested(before, between, seq![r]),
        backend::requested(between, after, seq![t]),
    ensures
        backend::requested(before, after, seq![r, t]),
{
    assert(seq![r][0] == r && seq![t][0] == t);
    assert(before.requests() + seq![r] + seq![t] =~= before.requests() + seq![r, t]);
}

/// The bytes of the opened hugepages by state fit what was opened.
proof fn lemma_states_fit(v: FillerView, n: int)
    requires
        v.ok(),
        v.confirmed(),
        0 <= n <= v.opened,
    ensures
        filler_model::sum_pages(Metric::Live, v.pages, n) + filler_model::sum_pages(
            Metric::Fragmentation,
            v.pages,
            n,
        ) + filler_model::sum_pages(Metric::EmptyBacked, v.pages, n) + filler_model::sum_pages(
            Metric::EmptyReleased,
            v.pages,
            n,
        ) + filler_model::sum_pages(Metric::PartialReleased, v.pages, n) <= n * HUGEPAGE_SIZE,
    decreases n,
{
    if n > 0 {
        lemma_states_fit(v, n - 1);
        assert(v.pages[n - 1].ok());
        filler_model::lemma_amounts(v.pages[n - 1]);
        assert(v.pages[n - 1].confirmed());
    }
}

} // verus!
