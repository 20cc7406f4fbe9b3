//! What the hugepage backend hands out, what it gives back, and how it is accounted for.
use vstd::prelude::*;
use vstd::set_lib::*;
use crate::backend::{Region, TopoBackingProvider};
use crate::bitmap;
use crate::bitmap::{HUGEPAGE_SIZE, PAGES_PER_HUGEPAGE, PAGE_SIZE};
use crate::filler_laws;
use crate::filler_model;
use crate::filler_model::{FillerView, HugePageView, Metric, PlaceRequest};
use crate::flags::Hints;
use crate::huge_backend;
use crate::huge_backend::{BackendView, HugePageBackend};
use crate::huge_bin::{Hotness, HugeBin, HugeStats, PlaceHints};
use crate::overflow;
use crate::region_cache;
use crate::release::ReleaseInputs;

verus! {

/// Pages are counted up to whole ones: enough for the bytes, and not one more.
proof fn lemma_pages_hold(bytes: int)
    requires
        0 < bytes,
    ensures
        ({
            let pages = overflow::ceil_div(bytes, PAGE_SIZE as int);
            0 < pages && bytes <= pages * PAGE_SIZE < bytes + PAGE_SIZE
        }),
{
}

/// What is handed out is what was asked for: at least as many bytes and less than a page more, in
/// whole pages, at an address of the alignment asked for.
pub proof fn law_allocation_is_as_asked<P: TopoBackingProvider>(
    before: HugePageBackend<P>,
    after: HugePageBackend<P>,
    bytes: usize,
    align: usize,
    hints: PlaceHints,
    region: Region,
)
    requires
        before.wf(),
        before.allocates(after, bytes, align, hints, Some(region)),
    ensures
        0 < bytes <= region.len < bytes + PAGE_SIZE,
        region.len % PAGE_SIZE == 0,
        region.base as int % (align as int) == 0,
        region.base >= before@.filler.base,
        region.base + region.len <= before@.filler.base + before@.filler.pages.len()
            * HUGEPAGE_SIZE,
{
    let v = before@.filler;
    let pages = overflow::ceil_div(bytes as int, PAGE_SIZE as int);
    before.lemma_wf();
    lemma_pages_hold(bytes as int);
    if pages <= PAGES_PER_HUGEPAGE {
        let r = PlaceRequest { pages, stride: filler_model::stride_of(align as int), hints };
        let (hp, off) = choose|hp: int, off: int|
            {
                &&& #[trigger] v.goes_to(r, hp, off)
                &&& 0 <= hp < v.pages.len()
                &&& 0 <= off
                &&& off + r.pages <= PAGES_PER_HUGEPAGE
                &&& v.pages[hp].live.disjoint(bitmap::page_run(off, r.pages))
                &&& region.base == filler_laws::page_address(v, hp, off)
                &&& region.len == r.pages * PAGE_SIZE
                &&& after@ == before@.packed(r, hp, off)
            };
        assert(0 < r.stride) by {
            if align > PAGE_SIZE {
                assert(r.stride == align as int / (PAGE_SIZE as int));
            }
        }
        filler_laws::law_request_goes_to_its_stride(v, r, hp, off);
        filler_laws::law_placement_is_aligned(v, hp, off, align as int);
        assert(hp * HUGEPAGE_SIZE + HUGEPAGE_SIZE <= v.pages.len() * HUGEPAGE_SIZE)
            by (nonlinear_arith)
            requires
                hp + 1 <= v.pages.len(),
        ;
    } else {
        let n = huge_backend::hugepages_for(pages);
        let (start, cache) = choose|start: int, cache: Seq<(int, int)>|
            {
                &&& #[trigger] before@.run_goes_to(n, start, cache)
                &&& 0 <= start
                &&& start + n <= v.pages.len()
                &&& region.base == v.huge_base(start)
                &&& region.len == pages * PAGE_SIZE
                &&& after@ == before@.run_taken(n, start, cache)
            };
        assert(0int % filler_model::stride_of(align as int) == 0) by {
            let s = filler_model::stride_of(align as int);
            assert(s > 0) by {
                if align > PAGE_SIZE {
                    assert(s == align as int / (PAGE_SIZE as int));
                }
            }
            assert(0int % s == 0) by (nonlinear_arith)
                requires
                    s > 0,
            ;
        }
        filler_laws::law_placement_is_aligned(v, start, 0, align as int);
        assert(filler_laws::page_address(v, start, 0) == region.base);
        assert(pages <= n * PAGES_PER_HUGEPAGE);
        assert(start * HUGEPAGE_SIZE + n * HUGEPAGE_SIZE <= v.pages.len() * HUGEPAGE_SIZE)
            by (nonlinear_arith)
            requires
                start + n <= v.pages.len(),
        ;
    }
}

/// A packed allocation was free, and is live and backed from then on; no other page is live that
/// was not, and none is live no more.
pub proof fn law_packed_pages_become_live<P: TopoBackingProvider>(
    before: HugePageBackend<P>,
    after: HugePageBackend<P>,
    bytes: usize,
    align: usize,
    hints: PlaceHints,
    region: Region,
    i: int,
    p: int,
)
    requires
        before.wf(),
        before.allocates(after, bytes, align, hints, Some(region)),
        bytes <= HUGEPAGE_SIZE,
        0 <= i < before@.filler.pages.len(),
        0 <= p < PAGES_PER_HUGEPAGE,
    ensures
        ({
            let v = before@.filler;
            let w = after@.filler;
            let at = filler_laws::page_address(v, i, p);
            let inside = region.base <= at < region.base + region.len;
            &&& inside ==> !v.pages[i].live.contains(p)
            &&& inside ==> w.pages[i].committed.contains(p)
            &&& w.pages[i].live.contains(p) <==> v.pages[i].live.contains(p) || inside
        }),
{
    let v = before@.filler;
    let pages = overflow::ceil_div(bytes as int, PAGE_SIZE as int);
    before.lemma_wf();
    lemma_pages_hold(bytes as int);
    let r = PlaceRequest { pages, stride: filler_model::stride_of(align as int), hints };
    let (hp, off) = choose|hp: int, off: int|
        {
            &&& #[trigger] v.goes_to(r, hp, off)
            &&& 0 <= hp < v.pages.len()
            &&& 0 <= off
            &&& off + r.pages <= PAGES_PER_HUGEPAGE
            &&& v.pages[hp].live.disjoint(bitmap::page_run(off, r.pages))
            &&& region.base == filler_laws::page_address(v, hp, off)
            &&& region.len == r.pages * PAGE_SIZE
            &&& after@ == before@.packed(r, hp, off)
        };
    let inside = region.base <= filler_laws::page_address(v, i, p) < region.base + region.len;
    assert(inside <==> i == hp && off <= p < off + pages);
    if inside {
        assert(bitmap::page_run(off, pages).contains(p));
    }
}

/// An opened hugepage that holds nothing live.
pub open spec fn vacant(v: FillerView, i: int) -> bool {
    0 <= i < v.opened && v.pages[i].live.len() == 0
}

/// A run of whole hugepages is made of opened ones that hold nothing live, while there are as
/// many in a row; fresh ones are opened only when there are not. It is as many as it takes, and
/// no more.
pub proof fn law_runs_reuse_vacant_hugepages(
    v: BackendView,
    pages: int,
    start: int,
    cache: Seq<(int, int)>,
    s: int,
)
    requires
        v.filler.ok(),
        0 < pages,
        v.run_goes_to(huge_backend::hugepages_for(pages), start, cache),
    ensures
        ({
            let n = huge_backend::hugepages_for(pages);
            &&& (n - 1) * PAGES_PER_HUGEPAGE < pages <= n * PAGES_PER_HUGEPAGE
            &&& start >= v.filler.opened ==> start == v.filler.opened && exists|i: int|
                s <= i < s + n && !#[trigger] vacant(v.filler, i)
            &&& start < v.filler.opened ==> forall|i: int|
                start <= i < start + n ==> #[trigger] vacant(v.filler, i)
        }),
{
    let n = huge_backend::hugepages_for(pages);
    if exists|i: int| #[trigger]
        region_cache::first_warm(v.cache, v.filler, n, i) && start == v.filler.index_of(
            v.cache[i].0,
        ) && cache == region_cache::pruned(v.cache, n, i + 1) {
        assert(v.filler.empty_run(start, n));
        assert forall|i: int| start <= i < start + n implies #[trigger] vacant(v.filler, i) by {
            assert(v.filler.pages[i].used() == 0);
        }
    } else if start >= v.filler.opened {
        assert(!v.filler.empty_run(s, n));
        if s < 0 {
            assert(!vacant(v.filler, s));
        } else if s + n > v.filler.opened {
            assert(!vacant(v.filler, s + n - 1));
        } else {
            let i = choose|i: int|
                #![trigger v.filler.pages[i]]
                s <= i < s + n && v.filler.pages[i].used() != 0;
            assert(!vacant(v.filler, i));
        }
    } else {
        assert(v.filler.empty_run(start, n));
        assert forall|i: int| start <= i < start + n implies #[trigger] vacant(v.filler, i) by {
            assert(v.filler.pages[i].used() == 0);
        }
    }
}

/// A run is refused only when it cannot be had: there are not as many hugepages in a row that are
/// opened and hold nothing live, nor as many fresh ones.
pub proof fn law_runs_are_refused_for_want_of_room(v: BackendView, n: int, s: int)
    requires
        v.filler.ok(),
        v.no_run(n),
        0 < n,
    ensures
        v.filler.pages.len() - v.filler.opened < n,
        exists|i: int| s <= i < s + n && !#[trigger] vacant(v.filler, i),
{
    assert(!v.filler.empty_run(s, n));
    if s < 0 {
        assert(!vacant(v.filler, s));
    } else if s + n > v.filler.opened {
        assert(!vacant(v.filler, s + n - 1));
    } else {
        let i = choose|i: int|
            #![trigger v.filler.pages[i]]
            s <= i < s + n && v.filler.pages[i].used() != 0;
        assert(!vacant(v.filler, i));
    }
}

/// A cut leaves what was asked for: the bytes that stay are at least the new length, less than a
/// page more, and a page for none; the rest comes back, and is something. It is refused when
/// there is nothing to give back.
pub proof fn law_trim_leaves_what_is_asked<P: TopoBackingProvider>(
    before: HugePageBackend<P>,
    after: HugePageBackend<P>,
    region: Region,
    new_len: usize,
    res: Option<usize>,
)
    requires
        before.trims(after, region, new_len, res),
        before@.is_allocated(region),
        region.len % PAGE_SIZE == 0,
        region.len <= HUGEPAGE_SIZE,
    ensures
        match res {
            Some(cut) => {
                &&& 0 < cut < region.len
                &&& cut % PAGE_SIZE == 0
                &&& region.len - cut >= new_len
                &&& new_len > 0 ==> region.len - cut < new_len + PAGE_SIZE
                &&& new_len == 0 ==> region.len - cut == PAGE_SIZE
            },
            None => {
                &&& region.len < new_len + PAGE_SIZE || region.len == PAGE_SIZE
                &&& after@ == before@
            },
        },
{
    let pages = region.len as int / (PAGE_SIZE as int);
    let kept = huge_backend::kept_pages(new_len as int);
    assert(pages * PAGE_SIZE == region.len);
    if new_len > 0 {
        lemma_pages_hold(new_len as int);
    }
    if let Some(cut) = res {
        let c = (pages - kept) * PAGE_SIZE;
        assert(0 < c <= region.len);
        assert(cut == c);
        assert(c % (PAGE_SIZE as int) == 0);
    }
}

/// A hint of 0 is cold, one of 128 or more is hot, and any other neutral; the lifetime is taken
/// as it is.
pub proof fn law_hints_are_classes(hints: Hints)
    ensures
        ({
            let h = huge_backend::place_hints(hints);
            &&& h.hotness == Hotness::Cold <==> hints.hotness == 0
            &&& h.hotness == Hotness::Hot <==> hints.hotness >= 128
            &&& h.lifetime == hints.lifetime
        }),
{
}

/// The bin of a hugepage tells its state: pages returned come first, then none live, then all
/// live, and between it goes by eighths of the pages that are live; hotness tells dense ones
/// apart and coldness sparse ones.
pub proof fn law_bin_tells_the_state(p: HugePageView)
    requires
        p.ok(),
    ensures
        ({
            let all = PAGES_PER_HUGEPAGE as int;
            let n = p.live.len() as int;
            let intact = p.released.len() == 0;
            let b = p.bin();
            &&& b == HugeBin::PartialSubreleased <==> !intact
            &&& b == HugeBin::EmptyBacked <==> intact && n == 0
            &&& b == HugeBin::NearlyEmpty <==> intact && 0 < 8 * n < all
            &&& b == HugeBin::Sparse <==> intact && all <= 8 * n < 3 * all && p.hotness
                != Hotness::Cold
            &&& b == HugeBin::ColdSparse <==> intact && all <= 8 * n < 3 * all && p.hotness
                == Hotness::Cold
            &&& b == HugeBin::Medium <==> intact && 3 * all <= 8 * n < 5 * all
            &&& b == HugeBin::NearlyFull <==> intact && 5 * all <= 8 * n < 8 * all && p.hotness
                != Hotness::Hot
            &&& b == HugeBin::Full <==> intact && n == all && p.hotness != Hotness::Hot
            &&& b == HugeBin::HotDense <==> intact && 5 * all <= 8 * n && p.hotness == Hotness::Hot
        }),
{
    bitmap::lemma_pages_bounded(p.live);
    let band = crate::huge_bin::occupancy_band(p.used(), PAGES_PER_HUGEPAGE as int);
    assert(band == (p.used() * 8) / 128);
}

/// Only what is worth it is returned: under pressure any free backed run; without, only a run of
/// a cold hugepage, or of an intact one with less than three eighths live, that is at least an
/// eighth as long as there are live pages.
pub proof fn law_subrelease_is_worth_it(p: HugePageView, off: int, pages: int, pressure: bool)
    requires
        p.ok(),
        0 < pages,
        0 <= off,
        off + pages <= PAGES_PER_HUGEPAGE,
        forall|x: int| off <= x < off + pages ==> !#[trigger] p.live.contains(x)
            && p.committed.contains(x),
    ensures
        ({
            let sparse = p.released.len() == 0 && 8 * p.live.len() < 3 * PAGES_PER_HUGEPAGE;
            p.may_return(off, pages, pressure) <==> pressure || ((p.hotness == Hotness::Cold
                || sparse) && 8 * pages + 7 >= p.live.len())
        }),
{
    law_bin_tells_the_state(p);
    let run = bitmap::page_run(off, pages);
    assert(p.live.disjoint(run));
    assert(run.subset_of(p.committed));
}

/// Live bytes are counted by placements and frees: a placement adds its pages, freeing takes them
/// away, and neither changes what is backed; backing what was placed and returning pages change
/// what is backed and nothing that is live.
pub proof fn law_bytes_follow_the_pages(
    p: HugePageView,
    off: int,
    pages: int,
    hints: PlaceHints,
    pressure: bool,
)
    requires
        p.ok(),
        0 <= off,
        0 < pages,
        off + pages <= PAGES_PER_HUGEPAGE,
    ensures
        p.live.disjoint(bitmap::page_run(off, pages)) ==> ({
            let q = p.carved(off, pages, hints);
            &&& filler_model::amount(Metric::Live, q) == filler_model::amount(Metric::Live, p)
                + pages * PAGE_SIZE
            &&& filler_model::amount(Metric::Backed, q) == filler_model::amount(Metric::Backed, p)
        }),
        bitmap::page_run(off, pages).subset_of(p.live) ==> ({
            let q = p.freed(off, pages);
            &&& filler_model::amount(Metric::Live, q) == filler_model::amount(Metric::Live, p)
                - pages * PAGE_SIZE
            &&& filler_model::amount(Metric::Backed, q) == filler_model::amount(Metric::Backed, p)
        }),
        p.committed.disjoint(bitmap::page_run(off, pages)) ==> ({
            let q = p.backed(off, pages);
            &&& filler_model::amount(Metric::Backed, q) == filler_model::amount(Metric::Backed, p)
                + pages * PAGE_SIZE
            &&& filler_model::amount(Metric::Live, q) == filler_model::amount(Metric::Live, p)
        }),
        p.may_return(off, pages, pressure) ==> ({
            let q = p.returned(off, pages);
            &&& filler_model::amount(Metric::Backed, q) == filler_model::amount(Metric::Backed, p)
                - pages * PAGE_SIZE
            &&& filler_model::amount(Metric::Released, q) == filler_model::amount(
                Metric::Released,
                p,
            ) + pages * PAGE_SIZE
            &&& filler_model::amount(Metric::Live, q) == filler_model::amount(Metric::Live, p)
            &&& filler_model::amount(Metric::LiveIntact, q) == 0
            &&& filler_model::amount(Metric::LivePartial, q) == filler_model::amount(Metric::Live, q)
        }),
        p.released.len() == 0 ==> filler_model::amount(Metric::LiveIntact, p)
            == filler_model::amount(Metric::Live, p),
        filler_model::amount(Metric::Live, HugePageView::fresh()) == 0,
        filler_model::amount(Metric::Backed, HugePageView::fresh()) == 0,
        filler_model::amount(Metric::Released, HugePageView::fresh()) == 0,
{
    let run = bitmap::page_run(off, pages);
    lemma_int_range(off, off + pages);
    bitmap::lemma_pages_bounded(p.live);
    bitmap::lemma_pages_bounded(p.committed);
    bitmap::lemma_pages_bounded(p.released);
    if p.live.disjoint(run) {
        lemma_set_disjoint_lens(p.live, run);
    }
    if run.subset_of(p.live) {
        lemma_removed(p.live, run);
    }
    if p.committed.disjoint(run) {
        lemma_set_disjoint_lens(p.committed, run);
    }
    if p.may_return(off, pages, pressure) {
        lemma_removed(p.committed, run);
        assert(p.released.disjoint(run));
        lemma_set_disjoint_lens(p.released, run);
        assert(p.returned(off, pages).released.len() > 0);
    }
}

/// Taking a part away leaves as many fewer.
proof fn lemma_removed(a: Set<int>, b: Set<int>)
    requires
        a.finite(),
        b.finite(),
        b.subset_of(a),
    ensures
        a.difference(b).len() == a.len() - b.len(),
{
    lemma_set_disjoint_lens(a.difference(b), b);
    assert(a.difference(b).union(b) =~= a);
}

/// The totals follow: a placement adds its bytes to the live ones of the whole filler.
pub proof fn law_placement_is_counted(v: FillerView, r: PlaceRequest, hp: int, off: int)
    requires
        v.ok(),
        0 <= hp <= v.opened,
        hp < v.pages.len(),
        0 < r.pages,
        0 <= off,
        off + r.pages <= PAGES_PER_HUGEPAGE,
        v.pages[hp].live.disjoint(bitmap::page_run(off, r.pages)),
    ensures
        v.placed(r, hp, off).total(Metric::Live) == v.total(Metric::Live) + r.pages * PAGE_SIZE,
        v.placed(r, hp, off).total(Metric::Backed) == v.total(Metric::Backed),
{
    let q = v.pages[hp].carved(off, r.pages, r.hints);
    let w = v.placed(r, hp, off);
    law_bytes_follow_the_pages(v.pages[hp], off, r.pages, r.hints, false);
    filler_model::lemma_sum_update(Metric::Live, v.pages, w.opened, hp, q);
    filler_model::lemma_sum_update(Metric::Backed, v.pages, w.opened, hp, q);
    if hp == v.opened {
        assert(v.pages[hp] == HugePageView::fresh());
        law_bytes_follow_the_pages(v.pages[hp], off, r.pages, r.hints, false);
    }
}

/// The coverage ratio is the share of live bytes that lie on intact hugepages, in basis points
/// rounded down; all of it when nothing is live.
pub proof fn law_coverage_ratio_is_the_intact_share(st: HugeStats)
    requires
        st.live_bytes_on_intact <= st.live_total_bytes,
        st.live_bytes_on_intact * 10_000 <= u64::MAX,
    ensures
        st.live_total_bytes == 0 ==> st.ratio_bp() == 10_000,
        st.live_total_bytes > 0 ==> st.ratio_bp() * st.live_total_bytes <= st.live_bytes_on_intact
            * 10_000 < (st.ratio_bp() + 1) * st.live_total_bytes,
{
    if st.live_total_bytes > 0 {
        let x = st.live_bytes_on_intact * 10_000;
        let n = st.live_total_bytes as int;
        assert(x / n <= 10_000 && (x / n) * n <= x < (x / n + 1) * n) by (nonlinear_arith)
            requires
                0 <= x <= n * 10_000,
                n > 0,
        ;
    }
}

/// A good request is taken: any bytes that can be counted in whole pages, at any alignment that is
/// a power of two up to a hugepage, until the reservation is given back; and no other.
pub proof fn law_good_requests_are_taken(v: BackendView, bytes: int, k: nat)
    requires
        0 <= bytes,
    ensures
        ({
            let align = vstd::arithmetic::power2::pow2(k) as int;
            v.servable(bytes, align) <==> {
                &&& !v.released
                &&& 0 < bytes
                &&& overflow::ceil_div(bytes, PAGE_SIZE as int) * PAGE_SIZE <= usize::MAX
                &&& align <= HUGEPAGE_SIZE
            }
        }),
{
    let align = vstd::arithmetic::power2::pow2(k) as int;
    assert(overflow::is_pow2(align));
}

/// The lowest run that will do is taken, unless a freed one of that size is remembered: then it is
/// one of those.
pub proof fn law_runs_go_to_a_remembered_place_or_the_lowest(
    v: BackendView,
    n: int,
    start: int,
    cache: Seq<(int, int)>,
    s: int,
)
    requires
        v.filler.ok(),
        0 < n,
        v.run_goes_to(n, start, cache),
        start < v.filler.opened,
    ensures
        (exists|j: int|
            #![trigger v.cache[j]]
            0 <= j < v.cache.len() && v.cache[j] == (v.filler.huge_base(start), n)) || (s < start
            ==> exists|i: int| s <= i < s + n && !#[trigger] vacant(v.filler, i)),
        cache.len() == v.cache.len(),
        forall|j: int|
            #![trigger cache[j]]
            0 <= j < cache.len() ==> cache[j] == v.cache[j] || (v.cache[j].1 == n && cache[j] == (
                0int,
                0int,
            )),
{
    if exists|i: int| #[trigger]
        region_cache::first_warm(v.cache, v.filler, n, i) && start == v.filler.index_of(
            v.cache[i].0,
        ) && cache == region_cache::pruned(v.cache, n, i + 1) {
        let i = choose|i: int| #[trigger]
            region_cache::first_warm(v.cache, v.filler, n, i) && start == v.filler.index_of(
                v.cache[i].0,
            ) && cache == region_cache::pruned(v.cache, n, i + 1);
        assert(v.cache[i] == (v.filler.huge_base(start), n));
    } else if s < start {
        assert(v.filler.first_empty_run(start, n));
        if s < 0 {
            assert(!vacant(v.filler, s));
        } else {
            assert(!v.filler.empty_run(s, n));
            if s + n > v.filler.opened {
                assert(!vacant(v.filler, s + n - 1));
            } else {
                let i = choose|i: int|
                    #![trigger v.filler.pages[i]]
                    s <= i < s + n && v.filler.pages[i].used() != 0;
                assert(!vacant(v.filler, i));
            }
        }
    }
}

/// A freed run is remembered while there is a place for it, and nothing that was remembered is
/// forgotten for it.
pub proof fn law_freed_run_is_remembered(
    v: BackendView,
    region: Region,
    cache: Seq<(int, int)>,
    j: int,
)
    requires
        huge_backend::offered(v, region, cache),
        region.len as int / (PAGE_SIZE as int) > PAGES_PER_HUGEPAGE,
        0 <= j < v.cache.len(),
    ensures
        cache.len() == v.cache.len(),
        v.cache[j].1 != 0 ==> cache[j] == v.cache[j],
        v.cache[j].1 == 0 ==> cache.contains(
            (
                region.base as int,
                huge_backend::hugepages_for(region.len as int / (PAGE_SIZE as int)),
            ),
        ),
{
    let n = huge_backend::hugepages_for(region.len as int / (PAGE_SIZE as int));
    if exists|i: int| #[trigger]
        region_cache::first_vacant(v.cache, i) && cache == v.cache.update(
            i,
            (region.base as int, n),
        ) {
        let i = choose|i: int| #[trigger]
            region_cache::first_vacant(v.cache, i) && cache == v.cache.update(
                i,
                (region.base as int, n),
            );
        assert(cache[i] == (region.base as int, n));
    }
}

/// The controller is told what the backend has: its idle bytes and its coverage, and the rest as
/// it was given.
pub proof fn law_controller_sees_the_backend(inputs: ReleaseInputs, st: HugeStats)
    requires
        st.live_bytes_on_intact <= st.live_total_bytes,
        st.live_bytes_on_intact * 10_000 <= u64::MAX,
    ensures
        ({
            let s = huge_backend::sampled_inputs(inputs, st);
            &&& s.empty_backed_hugepage_bytes == st.empty_backed_bytes
            &&& s.hugepage_coverage_ratio_bp == st.ratio_bp()
            &&& s.dirty_bytes == inputs.dirty_bytes
            &&& s.muzzy_bytes == inputs.muzzy_bytes
            &&& s.idle_cache_bytes == inputs.idle_cache_bytes
            &&& s.allocated_bytes_total == inputs.allocated_bytes_total
            &&& s.cgroup_current == inputs.cgroup_current
            &&& s.cgroup_max == inputs.cgroup_max
        }),
{
    law_coverage_ratio_is_the_intact_share(st);
}

/// The statistics of two backends add up field by field, as far as they can be counted, in
/// whichever order.
pub proof fn law_statistics_add_up(s: HugeStats, a: HugeStats, b: HugeStats, bin: int)
    requires
        s.is_sum(a, b),
        0 <= bin < HugeBin::COUNT,
    ensures
        s.is_sum(b, a),
        a.coverage_bytes + b.coverage_bytes <= u64::MAX ==> s.coverage_bytes == a.coverage_bytes
            + b.coverage_bytes,
        a.live_total_bytes + b.live_total_bytes <= u64::MAX ==> s.live_total_bytes
            == a.live_total_bytes + b.live_total_bytes,
        a.live_bytes_on_intact + b.live_bytes_on_intact <= u64::MAX ==> s.live_bytes_on_intact
            == a.live_bytes_on_intact + b.live_bytes_on_intact,
        a.live_bytes_on_partial + b.live_bytes_on_partial <= u64::MAX ==> s.live_bytes_on_partial
            == a.live_bytes_on_partial + b.live_bytes_on_partial,
        a.empty_backed_bytes + b.empty_backed_bytes <= u64::MAX ==> s.empty_backed_bytes
            == a.empty_backed_bytes + b.empty_backed_bytes,
        a.empty_released_bytes + b.empty_released_bytes <= u64::MAX ==> s.empty_released_bytes
            == a.empty_released_bytes + b.empty_released_bytes,
        a.partial_subreleased_bytes + b.partial_subreleased_bytes <= u64::MAX
            ==> s.partial_subreleased_bytes == a.partial_subreleased_bytes
            + b.partial_subreleased_bytes,
        a.fragmentation_bytes + b.fragmentation_bytes <= u64::MAX ==> s.fragmentation_bytes
            == a.fragmentation_bytes + b.fragmentation_bytes,
        a.bins@[bin] + b.bins@[bin] <= u32::MAX ==> s.bins@[bin] == a.bins@[bin] + b.bins@[bin],
{
    assert(s.bins@[bin] == crate::huge_bin::capped_sum(
        a.bins@[bin] as int,
        b.bins@[bin] as int,
        u32::MAX as int,
    ));
}

/// The hugepages of a run are handed out whole: every page of them is live and backed, none is
/// returned, and every other hugepage is as it was.
pub proof fn law_run_pages_become_live(
    v: BackendView,
    n: int,
    start: int,
    cache: Seq<(int, int)>,
    i: int,
    p: int,
)
    requires
        v.filler.ok(),
        0 < n,
        v.run_goes_to(n, start, cache),
        0 <= i < v.filler.pages.len(),
        0 <= p < PAGES_PER_HUGEPAGE,
    ensures
        ({
            let w = v.run_taken(n, start, cache).filler;
            &&& start <= i < start + n ==> !v.filler.pages[i].live.contains(p)
                && w.pages[i].live.contains(p) && w.pages[i].committed.contains(p)
                && !w.pages[i].released.contains(p)
            &&& !(start <= i < start + n) ==> w.pages[i] == v.filler.pages[i]
        }),
{
    let f = |q: HugePageView| q.backed_whole();
    let t = |q: HugePageView| q.taken_whole();
    let u = v.filler.reserved(start, n);
    assert(0 <= start && start + n <= v.filler.pages.len());
    if start == v.filler.opened {
        v.filler.lemma_take_fresh(n);
    } else {
        v.filler.lemma_each_page(start, n, t);
    }
    u.lemma_each_page(start, n, f);
    if start <= i < start + n {
        crate::huge_laws::law_run_goes_to_free_hugepages(v, n, start, cache, i);
        assert(v.filler.pages[i].ok());
        bitmap::lemma_pages_bounded(v.filler.pages[i].live);
        assert(bitmap::page_run(0, PAGES_PER_HUGEPAGE as int).contains(p));
    }
}

/// What the first `n` hugepages add up to, each by `f`.
pub open spec fn adds_up(v: FillerView, n: int, f: spec_fn(HugePageView) -> int) -> int
    decreases n,
{
    if n <= 0 {
        0
    } else {
        adds_up(v, n - 1, f) + f(v.pages[n - 1])
    }
}

proof fn lemma_adds_up(v: FillerView, n: int, m: Metric, f: spec_fn(HugePageView) -> int)
    requires
        forall|p: HugePageView| #[trigger] f(p) == filler_model::amount(m, p),
    ensures
        adds_up(v, n, f) == filler_model::sum_pages(m, v.pages, n),
    decreases n,
{
    if n > 0 {
        lemma_adds_up(v, n - 1, m, f);
    }
}

/// The bytes of some pages of a hugepage, if it is one of those that count.
pub open spec fn bytes_if(counts: bool, pages: Set<int>) -> int {
    if counts {
        pages.len() * PAGE_SIZE
    } else {
        0
    }
}

/// The statistics are what the hugepages say: live bytes by whether a page was returned, backed and
/// returned bytes by whether anything is live, a hugepage of coverage for each that was opened.
pub proof fn law_statistics_are_what_the_pages_say(v: FillerView, st: HugeStats)
    requires
        v.has_stats(st),
    ensures
        st.coverage_bytes == v.opened * HUGEPAGE_SIZE,
        st.live_total_bytes == adds_up(v, v.opened, |p: HugePageView| bytes_if(true, p.live)),
        st.live_bytes_on_intact == adds_up(
            v,
            v.opened,
            |p: HugePageView| bytes_if(p.released.len() == 0, p.live),
        ),
        st.live_bytes_on_partial == adds_up(
            v,
            v.opened,
            |p: HugePageView| bytes_if(p.released.len() > 0, p.live),
        ),
        st.empty_backed_bytes == adds_up(
            v,
            v.opened,
            |p: HugePageView| bytes_if(p.live.len() == 0, p.committed),
        ),
        st.empty_released_bytes == adds_up(
            v,
            v.opened,
            |p: HugePageView| bytes_if(p.live.len() == 0, p.released),
        ),
        st.partial_subreleased_bytes == adds_up(
            v,
            v.opened,
            |p: HugePageView| bytes_if(p.live.len() > 0, p.released),
        ),
{
    let n = v.opened;
    lemma_adds_up(v, n, Metric::Live, |p: HugePageView| bytes_if(true, p.live));
    lemma_adds_up(
        v,
        n,
        Metric::LiveIntact,
        |p: HugePageView| bytes_if(p.released.len() == 0, p.live),
    );
    lemma_adds_up(
        v,
        n,
        Metric::LivePartial,
        |p: HugePageView| bytes_if(p.released.len() > 0, p.live),
    );
    lemma_adds_up(
        v,
        n,
        Metric::EmptyBacked,
        |p: HugePageView| bytes_if(p.live.len() == 0, p.committed),
    );
    lemma_adds_up(
        v,
        n,
        Metric::EmptyReleased,
        |p: HugePageView| bytes_if(p.live.len() == 0, p.released),
    );
    lemma_adds_up(
        v,
        n,
        Metric::PartialReleased,
        |p: HugePageView| bytes_if(p.live.len() > 0, p.released),
    );
}

/// The hugepages in a bin are counted: those that were opened and whose state the bin tells.
pub proof fn law_bins_are_counted(v: FillerView, st: HugeStats, b: HugeBin)
    requires
        v.has_stats(st),
    ensures
        st.bins@[b.number()] == adds_up(
            v,
            v.opened,
            |p: HugePageView|
                if p.bin() == b {
                    1int
                } else {
                    0
                },
        ),
{
    let k = b.number();
    let f = |p: HugePageView|
        if p.bin() == b {
            1int
        } else {
            0
        };
    assert forall|p: HugePageView| #[trigger] f(p) == filler_model::amount(Metric::InBin(k), p) by {
        if p.bin().number() == k {
            assert(p.bin() == b);
        }
    }
    lemma_adds_up(v, v.opened, Metric::InBin(k), f);
    assert(0 <= k < HugeBin::COUNT);
    assert(st.bins@[k] == v.total(Metric::InBin(k)));
}

} // verus!
