//! What holds of the hugepage backend across its operations.
use vstd::prelude::*;
use crate::backend;
use crate::backend::{BackendError, Region, Request, TopoBackingProvider};
use crate::bitmap;
use crate::bitmap::{HUGEPAGE_SIZE, PAGES_PER_HUGEPAGE, PAGE_SIZE};
use crate::filler_laws;
use crate::filler_model;
use crate::filler_model::{FillerView, HugePageView, PlaceRequest};
use crate::huge_backend;
use crate::huge_backend::{BackendView, DrainStep, HugePageBackend};
use crate::huge_bin::PlaceHints;
use crate::ids::ArenaId;
use crate::overflow;

verus! {

/// Two hugepages hold the same live pages, the same allocations and the same backing.
pub open spec fn same_memory(p: HugePageView, q: HugePageView) -> bool {
    &&& p.live == q.live
    &&& p.heads == q.heads
    &&& p.committed == q.committed
    &&& p.released == q.released
    &&& p.run_len == q.run_len
    &&& p.in_run == q.in_run
}

/// Every hugepage of one filler holds the same memory as that of the other.
pub open spec fn same_memories(v: FillerView, w: FillerView) -> bool {
    &&& v.base == w.base
    &&& v.pages.len() == w.pages.len()
    &&& forall|i: int|
        #![trigger w.pages[i]]
        0 <= i < v.pages.len() ==> same_memory(v.pages[i], w.pages[i])
}

/// Where a placement goes is fixed by the filler and the request.
pub proof fn law_placement_is_determined(
    v: FillerView,
    r: PlaceRequest,
    hp: int,
    off: int,
    hp2: int,
    off2: int,
)
    requires
        v.goes_to(r, hp, off),
        v.goes_to(r, hp2, off2),
    ensures
        hp == hp2,
        off == off2,
{
    reveal(FillerView::goes_to);
    if hp < v.opened && hp2 < v.opened {
        lemma_one_candidate(v, r, hp, hp2);
    } else if hp < v.opened {
        lemma_one_candidate_or_none(v, r, hp);
    } else if hp2 < v.opened {
        lemma_one_candidate_or_none(v, r, hp2);
    }
}

/// There is one best candidate at most.
proof fn lemma_one_candidate(v: FillerView, r: PlaceRequest, i: int, j: int)
    requires
        v.candidate(r, i),
        v.candidate(r, j),
    ensures
        i == j,
{
    let a = choose|k: int| #[trigger] v.densest(r, k) && v.best_among(r, v.scanned(k), i);
    let b = choose|k: int| #[trigger] v.densest(r, k) && v.best_among(r, v.scanned(k), j);
    if a < b {
        assert(!v.has_fit(r, v.scanned(a)));
    } else if b < a {
        assert(!v.has_fit(r, v.scanned(b)));
    }
    let w = v.scanned(a);
    if i != j {
        let x = choose|x: int| 0 <= x < w.len() && w[x] == i;
        let y = choose|y: int| 0 <= y < w.len() && w[y] == j;
        assert(v.fit(r, w[x]) is Some && w[x] != j);
        assert(v.fit(r, w[y]) is Some && w[y] != i);
        assert(v.better(r, i, j) && v.better(r, j, i));
    }
}

/// With a candidate there is not none, and there is one only.
proof fn lemma_one_candidate_or_none(v: FillerView, r: PlaceRequest, i: int)
    requires
        v.candidate(r, i),
    ensures
        !v.no_candidate(r),
        forall|c: int| #[trigger] v.candidate(r, c) ==> c == i,
{
    reveal(FillerView::no_candidate);
    let a = choose|k: int| #[trigger] v.densest(r, k) && v.best_among(r, v.scanned(k), i);
    assert(v.has_fit(r, v.scanned(a)));
    assert forall|c: int| #[trigger] v.candidate(r, c) implies c == i by {
        lemma_one_candidate(v, r, c, i);
    }
}

/// A packed region can be freed, and freeing it leaves nothing of it live and every other
/// allocation as it was.
pub proof fn law_free_undoes_packing(v: BackendView, r: PlaceRequest, hp: int, off: int)
    requires
        v.filler.ok(),
        !v.released,
        0 <= hp < v.filler.pages.len(),
        hp <= v.filler.opened,
        0 <= off,
        0 < r.pages <= PAGES_PER_HUGEPAGE,
        off + r.pages <= PAGES_PER_HUGEPAGE,
        v.filler.pages[hp].live.disjoint(bitmap::page_run(off, r.pages)),
        v.region.has(filler_laws::page_address(v.filler, hp, off)),
    ensures
        ({
            let region = Region {
                base: filler_laws::page_address(v.filler, hp, off) as usize,
                len: (r.pages * PAGE_SIZE) as usize,
            };
            let after = v.packed(r, hp, off);
            let freed = after.without_region(region, after.cache);
            &&& after.is_allocated(region)
            &&& forall|i: int|
                #![trigger freed.filler.pages[i]]
                0 <= i < v.filler.pages.len() ==> {
                    &&& freed.filler.pages[i].live == v.filler.pages[i].live
                    &&& freed.filler.pages[i].heads == v.filler.pages[i].heads
                    &&& v.filler.pages[i].committed.subset_of(freed.filler.pages[i].committed)
                }
        }),
{
    let a = filler_laws::page_address(v.filler, hp, off);
    let w = v.filler.placed(r, hp, off);
    let b = v.packed(r, hp, off).filler;
    filler_laws::law_filler_free_undoes_place(v.filler, r, hp, off);
    filler_laws::lemma_address(b, hp, off);
    let p = w.pages[hp];
    let q = b.pages[hp];
    assert(q.live == p.live && q.heads == p.heads && q.in_run == p.in_run);
    assert(q.is_extent(off, r.pages));
    let u = w.with_page(hp, p.freed(off, r.pages));
    assert(u.pages[hp].live == v.filler.pages[hp].live);
    let f = b.with_page(hp, q.freed(off, r.pages));
    assert forall|i: int| #![trigger f.pages[i]] 0 <= i < v.filler.pages.len() implies {
        &&& f.pages[i].live == v.filler.pages[i].live
        &&& f.pages[i].heads == v.filler.pages[i].heads
        &&& v.filler.pages[i].committed.subset_of(f.pages[i].committed)
    } by {
        if i != hp {
            assert(f.pages[i] == v.filler.pages[i]);
        }
    }
}

/// A run of whole hugepages can be freed as the region it was handed out as, and freeing it
/// leaves nothing of it live and every other hugepage as it was.
pub proof fn law_free_undoes_run(
    v: BackendView,
    pages: int,
    start: int,
    cache: Seq<(int, int)>,
    later: Seq<(int, int)>,
)
    requires
        v.filler.ok(),
        !v.released,
        PAGES_PER_HUGEPAGE < pages,
        pages * PAGE_SIZE <= usize::MAX,
        v.filler.empty_run(start, huge_backend::hugepages_for(pages)) || (start == v.filler.opened
            && start + huge_backend::hugepages_for(pages) <= v.filler.pages.len()),
        v.region.has(v.filler.huge_base(start)),
    ensures
        ({
            let n = huge_backend::hugepages_for(pages);
            let region = Region {
                base: v.filler.huge_base(start) as usize,
                len: (pages * PAGE_SIZE) as usize,
            };
            let after = v.run_taken(n, start, cache);
            let freed = after.without_region(region, later);
            &&& after.is_allocated(region)
            &&& forall|i: int|
                #![trigger freed.filler.pages[i]]
                0 <= i < v.filler.pages.len() ==> {
                    &&& freed.filler.pages[i].live == v.filler.pages[i].live
                    &&& freed.filler.pages[i].heads == v.filler.pages[i].heads
                    &&& i < start || start + n <= i ==> freed.filler.pages[i] == v.filler.pages[i]
                }
        }),
{
    let n = huge_backend::hugepages_for(pages);
    let f = |p: HugePageView| p.backed_whole();
    let g = |p: HugePageView| p.emptied();
    let t = |p: HugePageView| p.taken_whole();
    let w = v.filler.reserved(start, n);
    let after = v.run_taken(n, start, cache);
    filler_laws::law_free_undoes_reserve(v.filler, start, n);
    if start == v.filler.opened {
        v.filler.lemma_take_fresh(n);
    } else {
        v.filler.lemma_each_page(start, n, t);
    }
    w.lemma_each_page(start, n, f);
    w.lemma_each_page(start, n, g);
    after.filler.lemma_each_page(start, n, g);
    let u = w.each_page(start, n, g);
    let freed = after.filler.each_page(start, n, g);
    assert(after.filler.pages[start].run_len == n);
    assert forall|i: int| #![trigger freed.pages[i]] 0 <= i < v.filler.pages.len() implies {
        &&& freed.pages[i].live == v.filler.pages[i].live
        &&& freed.pages[i].heads == v.filler.pages[i].heads
        &&& i < start || start + n <= i ==> freed.pages[i] == v.filler.pages[i]
    } by {
        assert(u.pages[i].live == v.filler.pages[i].live);
    }
}

/// A packing that could not be backed leaves all memory as it was.
pub proof fn law_refused_packing_changes_no_memory(
    v: BackendView,
    r: PlaceRequest,
    hp: int,
    off: int,
)
    requires
        v.filler.ok(),
        0 <= hp < v.filler.pages.len(),
        hp <= v.filler.opened,
        0 <= off,
        0 < r.pages,
        off + r.pages <= PAGES_PER_HUGEPAGE,
        v.filler.pages[hp].live.disjoint(bitmap::page_run(off, r.pages)),
    ensures
        same_memories(v.filler, v.unpacked(r, hp, off).filler),
{
    filler_laws::law_filler_free_undoes_place(v.filler, r, hp, off);
}

/// A run of whole hugepages that could not be backed leaves all memory as it was.
pub proof fn law_refused_run_changes_no_memory(
    v: BackendView,
    n: int,
    start: int,
    cache: Seq<(int, int)>,
)
    requires
        v.filler.ok(),
        0 < n,
        v.filler.empty_run(start, n) || (start == v.filler.opened && start + n
            <= v.filler.pages.len()),
    ensures
        same_memories(v.filler, v.run_dropped(n, start, cache).filler),
{
    let w = v.filler.reserved(start, n);
    filler_laws::law_free_undoes_reserve(v.filler, start, n);
    if start == v.filler.opened {
        v.filler.lemma_take_fresh(n);
    } else {
        v.filler.lemma_each_page(start, n, |p: HugePageView| p.taken_whole());
    }
    w.lemma_each_page(start, n, |p: HugePageView| p.emptied());
}

/// A subrelease that the provider refused leaves every hugepage as it was.
pub proof fn law_refused_subrelease_changes_no_page(
    v: BackendView,
    base: int,
    pages: int,
    pressure: bool,
)
    requires
        v.filler.ok(),
        v.filler.may_return(base, pages, pressure),
    ensures
        v.resumed(base, pages).filler.pages == v.filler.pages,
{
    let hp = v.filler.index_of(base);
    let off = v.filler.page_at(base);
    assert(v.filler.pages[hp].ok());
    filler_laws::law_unsubrelease_undoes_subrelease(v.filler.pages[hp], off, pages, pressure);
    assert(v.resumed(base, pages).filler.pages =~= v.filler.pages);
}

/// A subrelease leaves every live page, and its backing, as it was.
pub proof fn law_subrelease_keeps_live_memory(
    v: BackendView,
    base: int,
    pages: int,
    pressure: bool,
    i: int,
    x: int,
)
    requires
        v.filler.ok(),
        v.filler.confirmed(),
        v.filler.may_return(base, pages, pressure),
        0 <= i < v.filler.opened,
        v.filler.pages[i].live.contains(x),
    ensures
        v.subreleased(base, pages).filler.pages[i].live.contains(x),
        v.subreleased(base, pages).filler.pages[i].committed.contains(x),
{
    let hp = v.filler.index_of(base);
    assert(v.filler.pages[i].confirmed());
    if i == hp {
        assert(!bitmap::page_run(v.filler.page_at(base), pages).contains(x));
    }
}

/// A backend that has given its reservation back takes no request and owns no allocation.
pub proof fn law_torn_down_backend_is_inert(
    v: BackendView,
    bytes: int,
    align: int,
    region: Region,
)
    requires
        v.released,
    ensures
        !v.servable(bytes, align),
        !v.is_allocated(region),
{
}

/// The backing of memory is taken away only directly after what was derived from that memory was
/// revoked; when that is refused, the backing is left alone and the memory stays.
pub proof fn law_revocation_comes_first(
    v: BackendView,
    base: int,
    len: int,
    taken: bool,
    asked: Seq<Request>,
    k: int,
)
    requires
        v.takes_back(base, len, taken, asked),
        0 <= k < asked.len(),
    ensures
        asked[k] is Decommit ==> k == 1 && asked[0] == v.revoke_request(base, len, Ok(())),
        asked[k] matches Request::Revoke { arena, region, answer } ==> {
            &&& k == 0
            &&& answer is Err ==> asked.len() == 1 && !taken
        },
        taken ==> asked[1] == v.decommit_request(base, len, Ok(())),
{
}

/// A backend that has given its reservation back serves nothing, takes nothing back and returns
/// nothing, and asks the provider for none of it; giving the reservation back again does nothing.
pub proof fn law_torn_down_backend_asks_nothing<P: TopoBackingProvider>(
    b: HugePageBackend<P>,
    after: HugePageBackend<P>,
    bytes: usize,
    align: usize,
    hints: PlaceHints,
    region: Region,
    len: usize,
    pressure: bool,
)
    requires
        b@.released,
    ensures
        forall|res: Option<Region>| #[trigger]
            b.allocates(after, bytes, align, hints, res) ==> res is None && after@ == b@
                && after.source() == b.source(),
        forall|res: bool| #[trigger]
            b.frees(after, region, res) ==> !res && after@ == b@ && after.source() == b.source(),
        forall|res: Option<usize>| #[trigger]
            b.trims(after, region, len, res) ==> res is None && after@ == b@ && after.source()
                == b.source(),
        forall|res: usize| #[trigger]
            b.subreleases(after, region.base, len, pressure, res) ==> res == 0 && after@ == b@
                && after.source() == b.source(),
        forall|res: int| #[trigger]
            b.shrinks(after, len as int, res) ==> res == 0 && after@ == b@ && after.source()
                == b.source(),
        forall|res: Result<(), BackendError>| #[trigger]
            b.tears_down(after, res) ==> res is Ok && after@ == b@ && after.source()
                == b.source(),
{
}

/// One call of an operation turned a backend into another, whatever the provider answered.
pub open spec fn operates<P: TopoBackingProvider>(
    b: HugePageBackend<P>,
    after: HugePageBackend<P>,
) -> bool {
    ||| exists|bytes: usize, align: usize, hints: PlaceHints, res: Option<Region>| #[trigger]
        b.allocates(after, bytes, align, hints, res)
    ||| exists|region: Region, res: bool| #[trigger] b.frees(after, region, res)
    ||| exists|region: Region, arena: ArenaId, res: bool| #[trigger]
        b.revokes(after, region, arena, res)
    ||| exists|region: Region, len: usize, res: Option<usize>| #[trigger]
        b.trims(after, region, len, res)
    ||| exists|base: usize, pages: usize, pressure: bool, res: usize| #[trigger]
        b.subreleases(after, base, pages, pressure, res)
    ||| exists|reserve: int, res: int| #[trigger] b.shrinks(after, reserve, res)
    ||| exists|os_node: u32, res: bool| #[trigger] b.binds(after, os_node, res)
    ||| exists|res: Result<(), BackendError>| #[trigger] b.tears_down(after, res)
    ||| after.source() == b.source() && after@ == (BackendView { filler: after@.filler, ..b@ })
}

/// The states of a backend, each one call after the one before it.
pub open spec fn life<P: TopoBackingProvider>(states: Seq<HugePageBackend<P>>) -> bool {
    &&& states.len() > 0
    &&& forall|i: int|
        #![trigger states[i]]
        0 < i < states.len() ==> operates(states[i - 1], states[i])
}

/// Whatever is done with a backend, and however often its teardown is asked for, its reservation
/// is given back once at most, and exactly when it is torn down.
pub proof fn law_reservation_is_given_back_once<P: TopoBackingProvider>(
    states: Seq<HugePageBackend<P>>,
)
    requires
        life(states),
        !states[0]@.released,
    ensures
        backend::releases(states.last().source().requests()) == backend::releases(
            states[0].source().requests(),
        ) + (if states.last()@.released {
            1int
        } else {
            0int
        }),
        states.last()@.region == states[0]@.region,
        states.last()@.arena == states[0]@.arena,
    decreases states.len(),
{
    if states.len() > 1 {
        let earlier = states.drop_last();
        assert forall|i: int| #![trigger earlier[i]] 0 < i < earlier.len() implies operates(
            earlier[i - 1],
            earlier[i],
        ) by {
            assert(states[i] == earlier[i]);
        }
        law_reservation_is_given_back_once(earlier);
        let n = states.len() - 1;
        assert(operates(states[n - 1], states[n]));
        lemma_one_call(states[n - 1], states[n]);
    }
}

/// Counting the releases of two histories joined is counting those of both.
proof fn lemma_releases_join(a: Seq<Request>, b: Seq<Request>)
    ensures
        backend::releases(a + b) == backend::releases(a) + backend::releases(b),
    decreases b.len(),
{
    if b.len() == 0 {
        assert(a + b =~= a);
    } else {
        assert((a + b).drop_last() =~= a + b.drop_last());
        lemma_releases_join(a, b.drop_last());
    }
}

/// One request counts as it is.
proof fn lemma_one_request(r: Request)
    ensures
        backend::releases(seq![r]) == (if r is Release {
            1int
        } else {
            0int
        }),
{
    assert(seq![r].drop_last() =~= Seq::<Request>::empty());
    assert(backend::releases(Seq::<Request>::empty()) == 0);
}

/// Taking memory back does not give the reservation back.
proof fn lemma_taking_back(v: BackendView, base: int, len: int, taken: bool, asked: Seq<Request>)
    requires
        v.takes_back(base, len, taken, asked),
    ensures
        backend::releases(asked) == 0,
{
    lemma_one_request(asked[0]);
    if asked.len() == 2 {
        lemma_one_request(asked[1]);
        lemma_releases_join(seq![asked[0]], seq![asked[1]]);
        assert(seq![asked[0]] + seq![asked[1]] =~= asked);
    } else {
        assert(asked =~= seq![asked[0]]);
    }
}

/// Neither does draining hugepages.
proof fn lemma_draining<P: TopoBackingProvider>(b: HugePageBackend<P>, steps: Seq<DrainStep>)
    requires
        forall|k: int| #![trigger steps[k]] 0 <= k < steps.len() ==> b.offers(steps[k]),
    ensures
        backend::releases(huge_backend::asked_for(steps)) == 0,
    decreases steps.len(),
{
    if steps.len() > 0 {
        let s = steps.last();
        let earlier = steps.drop_last();
        assert forall|k: int| #![trigger earlier[k]] 0 <= k < earlier.len() implies b.offers(
            earlier[k],
        ) by {
            assert(steps[k] == earlier[k]);
        }
        lemma_draining(b, earlier);
        assert(b.offers(steps[steps.len() - 1]));
        lemma_taking_back(
            b@,
            filler_laws::page_address(b@.filler, s.page, s.off),
            s.pages * PAGE_SIZE,
            s.taken,
            s.asked,
        );
        lemma_releases_join(huge_backend::asked_for(earlier), s.asked);
    }
}

/// One call gives the reservation back when it tears the backend down, and else does not.
proof fn lemma_one_call<P: TopoBackingProvider>(b: HugePageBackend<P>, after: HugePageBackend<P>)
    requires
        operates(b, after),
    ensures
        backend::releases(after.source().requests()) == backend::releases(b.source().requests())
            + (if after@.released && !b@.released {
            1int
        } else {
            0int
        }),
        b@.released ==> after@.released,
        after@.region == b@.region,
        after@.arena == b@.arena,
{
    let was = b.source().requests();
    assert forall|r: Request| #[trigger] b.asks(after, r) implies backend::releases(
        after.source().requests(),
    ) == backend::releases(was) + (if r is Release {
        1int
    } else {
        0int
    }) by {
        lemma_one_request(r);
        lemma_releases_join(was, seq![r]);
    }
    if exists|base: usize, pages: usize, pressure: bool, res: usize| #[trigger]
        b.subreleases(after, base, pages, pressure, res) {
        let (base, pages, pressure, res) = choose|
            base: usize,
            pages: usize,
            pressure: bool,
            res: usize,
        | #[trigger] b.subreleases(after, base, pages, pressure, res);
        if !b@.released && b@.filler.may_return(base as int, pages as int, pressure) {
            let (taken, asked) = choose|taken: bool, asked: Seq<Request>|
                {
                    &&& #[trigger] b@.takes_back(base as int, pages * PAGE_SIZE, taken, asked)
                    &&& b.asks_all(after, asked)
                    &&& after@ == (if taken {
                        b@.subreleased(base as int, pages as int)
                    } else {
                        b@.resumed(base as int, pages as int)
                    })
                };
            lemma_taking_back(b@, base as int, pages * PAGE_SIZE, taken, asked);
            lemma_releases_join(was, asked);
        }
    } else if exists|reserve: int, res: int| #[trigger] b.shrinks(after, reserve, res) {
        let (reserve, res) = choose|reserve: int, res: int| #[trigger]
            b.shrinks(after, reserve, res);
        if !b@.released {
            let steps = choose|steps: Seq<DrainStep>| #[trigger]
                b.drains(after, reserve, steps) && res == huge_backend::taken_bytes(steps);
            lemma_draining(b, steps);
            lemma_releases_join(was, huge_backend::asked_for(steps));
        }
    }
}

/// An allocation leaves the reservation as it is, whether it was served or not.
pub proof fn law_allocation_keeps_the_reservation<P: TopoBackingProvider>(
    b: HugePageBackend<P>,
    after: HugePageBackend<P>,
    bytes: usize,
    align: usize,
    hints: PlaceHints,
    res: Option<Region>,
)
    requires
        b.allocates(after, bytes, align, hints, res),
    ensures
        after@.region == b@.region,
        after@.arena == b@.arena,
        after@.released == b@.released,
{
}

/// What an allocation handed out lies in the reservation and can be freed, where the provider
/// reserved as much as it was asked for.
pub proof fn law_allocation_can_be_freed<P: TopoBackingProvider>(
    b: HugePageBackend<P>,
    after: HugePageBackend<P>,
    bytes: usize,
    align: usize,
    hints: PlaceHints,
    region: Region,
)
    requires
        b.wf(),
        b.allocates(after, bytes, align, hints, Some(region)),
        b@.region.len >= b@.filler.pages.len() * HUGEPAGE_SIZE,
    ensures
        after@.region.has(region.base as int),
        after@.is_allocated(region),
{
    let v = b@.filler;
    let pages = overflow::ceil_div(bytes as int, PAGE_SIZE as int);
    b.lemma_wf();
    if pages <= PAGES_PER_HUGEPAGE {
        let r = PlaceRequest { pages, stride: filler_model::stride_of(align as int), hints };
        let (hp, off) = choose|hp: int, off: int|
            {
                &&& #[trigger] v.goes_to(r, hp, off)
                &&& 0 <= hp < v.pages.len()
                &&& 0 <= off
                &&& off + r.pages <= PAGES_PER_HUGEPAGE
                &&& v.pages[hp].live.disjoint(bitmap::page_run(off, r.pages))
                &&& region.base == filler_laws::page_address(v, hp, off)
                &&& region.len == r.pages * PAGE_SIZE
                &&& after@ == b@.packed(r, hp, off)
            };
        assert(hp <= v.opened) by {
            reveal(FillerView::goes_to);
        }
        filler_laws::lemma_address(v, hp, off);
        law_free_undoes_packing(b@, r, hp, off);
    } else {
        let n = huge_backend::hugepages_for(pages);
        let (start, cache) = choose|start: int, cache: Seq<(int, int)>|
            {
                &&& #[trigger] b@.run_goes_to(n, start, cache)
                &&& 0 <= start
                &&& start + n <= v.pages.len()
                &&& region.base == v.huge_base(start)
                &&& region.len == pages * PAGE_SIZE
                &&& after@ == b@.run_taken(n, start, cache)
            };
        filler_laws::lemma_address(v, start, 0);
        assert(filler_laws::page_address(v, start, 0) == v.huge_base(start));
        law_free_undoes_run(b@, pages, start, cache, cache);
    }
}

/// A run of whole hugepages goes to hugepages that hold nothing live, wherever it was found: no
/// hugepage is handed out twice, not even one that a stale entry of the cache names.
pub proof fn law_run_goes_to_free_hugepages(
    v: BackendView,
    n: int,
    start: int,
    cache: Seq<(int, int)>,
    i: int,
)
    requires
        v.filler.ok(),
        v.run_goes_to(n, start, cache),
        start <= i < start + n,
    ensures
        0 <= i < v.filler.pages.len(),
        v.filler.pages[i].used() == 0,
{
}

} // verus!
