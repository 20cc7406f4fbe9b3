//! What holds of the filler across its operations.
use vstd::prelude::*;
use vstd::set_lib::*;
use crate::bitmap;
use crate::bitmap::{HUGEPAGE_SIZE, PAGES_PER_HUGEPAGE, PAGE_SIZE};
use crate::filler_model;
use crate::filler_model::{FillerView, HugePageView, PlaceRequest};
use crate::huge_bin;
use crate::flags::Lifetime;
use crate::huge_bin::{Hotness, PlaceHints};
use crate::overflow;

verus! {

/// Page `off` of hugepage `hp`, as an address.
pub open spec fn page_address(v: FillerView, hp: int, off: int) -> int {
    v.huge_base(hp) + off * PAGE_SIZE
}

/// An address inside the region names one hugepage and one page of it.
pub proof fn lemma_address(v: FillerView, hp: int, off: int)
    requires
        v.geometry(),
        0 <= hp < v.pages.len(),
        0 <= off < PAGES_PER_HUGEPAGE,
    ensures
        v.index_of(page_address(v, hp, off)) == hp,
        v.page_at(page_address(v, hp, off)) == off,
        v.page_aligned(page_address(v, hp, off)),
        v.covers(page_address(v, hp, off)),
        v.opened_at(page_address(v, hp, off)) <==> hp < v.opened,
{
}

/// A placement gives addresses of the alignment asked for.
pub proof fn law_placement_is_aligned(v: FillerView, hp: int, off: int, align: int)
    requires
        v.geometry(),
        0 <= hp < v.pages.len(),
        0 <= off < PAGES_PER_HUGEPAGE,
        filler_model::alignable(align),
        off % filler_model::stride_of(align) == 0,
    ensures
        page_address(v, hp, off) % align == 0,
{
    vstd::arithmetic::power2::lemma2_to64();
    assert(overflow::is_pow2(HUGEPAGE_SIZE as int)) by {
        assert(HUGEPAGE_SIZE as int == vstd::arithmetic::power2::pow2(21));
    }
    assert(overflow::is_pow2(PAGE_SIZE as int)) by {
        assert(PAGE_SIZE as int == vstd::arithmetic::power2::pow2(14));
    }
    overflow::lemma_pow2_divides(align, HUGEPAGE_SIZE as int);
    let k = HUGEPAGE_SIZE as int / align;
    assert(HUGEPAGE_SIZE as int == k * align) by (nonlinear_arith)
        requires
            HUGEPAGE_SIZE as int % align == 0,
            align > 0,
            k == HUGEPAGE_SIZE as int / align,
    ;
    let m = v.base / (HUGEPAGE_SIZE as int) + hp;
    assert(v.huge_base(hp) == m * HUGEPAGE_SIZE);
    let bytes = off * PAGE_SIZE;
    let n: int = if align <= PAGE_SIZE {
        overflow::lemma_pow2_divides(align, PAGE_SIZE as int);
        let u = PAGE_SIZE as int / align;
        assert(PAGE_SIZE as int == u * align) by (nonlinear_arith)
            requires
                PAGE_SIZE as int % align == 0,
                align > 0,
                u == PAGE_SIZE as int / align,
        ;
        assert(bytes == (off * u) * align) by (nonlinear_arith)
            requires
                bytes == off * (PAGE_SIZE as int),
                PAGE_SIZE as int == u * align,
        ;
        off * u
    } else {
        overflow::lemma_pow2_divides(PAGE_SIZE as int, align);
        let s = filler_model::stride_of(align);
        assert(align == s * PAGE_SIZE);
        let q = off / s;
        assert(off == q * s) by (nonlinear_arith)
            requires
                off % s == 0,
                s > 0,
                q == off / s,
        ;
        assert(bytes == q * align) by (nonlinear_arith)
            requires
                bytes == off * (PAGE_SIZE as int),
                off == q * s,
                align == s * (PAGE_SIZE as int),
        ;
        q
    };
    let a = page_address(v, hp, off);
    assert(a == (m * k + n) * align) by (nonlinear_arith)
        requires
            a == m * (HUGEPAGE_SIZE as int) + bytes,
            HUGEPAGE_SIZE as int == k * align,
            bytes == n * align,
    ;
    vstd::arithmetic::div_mod::lemma_mod_multiples_basic(m * k + n, align);
}

/// The first fit of a request lies on a multiple of its stride.
pub proof fn law_request_goes_to_its_stride(v: FillerView, r: PlaceRequest, hp: int, off: int)
    requires
        v.goes_to(r, hp, off),
        0 < r.pages,
        0 < r.stride,
    ensures
        off % r.stride == 0,
{
    reveal(FillerView::goes_to);
    if hp < v.opened {
        bitmap::lemma_fit_bounds(v.pages[hp].live, r.pages, r.stride);
    } else {
        assert(0int % r.stride == 0) by (nonlinear_arith)
            requires
                r.stride > 0,
        ;
    }
}

/// Two live allocations never overlap: whatever is placed next lies beside what was placed
/// before, byte for byte.
pub proof fn law_allocations_do_not_overlap(
    v: FillerView,
    r: PlaceRequest,
    hp: int,
    off: int,
    hp2: int,
    off2: int,
    pages2: int,
)
    requires
        v.ok(),
        0 <= hp < v.pages.len(),
        0 <= hp2 < v.pages.len(),
        0 <= off,
        0 <= off2,
        0 < r.pages,
        0 < pages2,
        off + r.pages <= PAGES_PER_HUGEPAGE,
        off2 + pages2 <= PAGES_PER_HUGEPAGE,
        v.placed(r, hp, off).pages[hp2].live.disjoint(bitmap::page_run(off2, pages2)),
    ensures
        page_address(v, hp, off) + r.pages * PAGE_SIZE <= page_address(v, hp2, off2)
            || page_address(v, hp2, off2) + pages2 * PAGE_SIZE <= page_address(v, hp, off),
{
    if hp == hp2 {
        let live = v.placed(r, hp, off).pages[hp2].live;
        assert(live == v.pages[hp].live.union(bitmap::page_run(off, r.pages)));
        if off <= off2 {
            if off2 < off + r.pages {
                assert(live.contains(off2));
                assert(bitmap::page_run(off2, pages2).contains(off2));
            }
        } else if off < off2 + pages2 {
            assert(live.contains(off));
            assert(bitmap::page_run(off2, pages2).contains(off));
        }
    }
}

/// A placed run can be freed, and freeing it undoes the placement: the live pages of the
/// hugepage, the starts of its allocations and its backing are as they were.
pub proof fn law_free_undoes_place(p: HugePageView, off: int, pages: int, hints: PlaceHints)
    requires
        p.ok(),
        0 <= off,
        0 < pages,
        off + pages <= PAGES_PER_HUGEPAGE,
        p.live.disjoint(bitmap::page_run(off, pages)),
    ensures
        p.carved(off, pages, hints).is_extent(off, pages),
        !p.carved(off, pages, hints).in_run,
        p.carved(off, pages, hints).freed(off, pages).live == p.live,
        p.carved(off, pages, hints).freed(off, pages).heads == p.heads,
        p.carved(off, pages, hints).freed(off, pages).committed == p.committed,
        p.carved(off, pages, hints).freed(off, pages).released == p.released,
{
    let run = bitmap::page_run(off, pages);
    let q = p.carved(off, pages, hints);
    assert(run.contains(off));
    assert(!p.heads.contains(off));
    bitmap::lemma_pages_bounded(p.live);
    assert(q.freed(off, pages).live =~= p.live);
    assert(q.freed(off, pages).heads =~= p.heads);
    assert forall|h: int| bitmap::page_run(off + 1, pages - 1).contains(h) implies !q.heads.contains(
        h,
    ) by {
        assert(run.contains(h));
    }
    if q.live.contains(off + pages) {
        assert(p.started(off + pages));
        assert(run.contains(off + pages - 1));
    }
}

/// Freeing the placement that was just made leaves every hugepage's live pages, allocation
/// starts and backing as they were; at most one more hugepage is open.
pub proof fn law_filler_free_undoes_place(v: FillerView, r: PlaceRequest, hp: int, off: int)
    requires
        v.ok(),
        0 <= hp < v.pages.len(),
        hp <= v.opened,
        0 <= off,
        0 < r.pages,
        off + r.pages <= PAGES_PER_HUGEPAGE,
        v.pages[hp].live.disjoint(bitmap::page_run(off, r.pages)),
    ensures
        ({
            let w = v.placed(r, hp, off);
            let a = page_address(v, hp, off);
            let u = w.with_page(hp, w.pages[hp].freed(off, r.pages));
            &&& w.is_allocation(a, r.pages)
            &&& w.index_of(a) == hp
            &&& w.page_at(a) == off
            &&& forall|i: int|
                #![trigger u.pages[i]]
                0 <= i < v.pages.len() ==> {
                    &&& u.pages[i].live == v.pages[i].live
                    &&& u.pages[i].heads == v.pages[i].heads
                    &&& u.pages[i].committed == v.pages[i].committed
                    &&& u.pages[i].released == v.pages[i].released
                }
        }),
{
    let w = v.placed(r, hp, off);
    lemma_address(w, hp, off);
    assert(v.pages[hp].ok());
    law_free_undoes_place(v.pages[hp], off, r.pages, r.hints);
}

/// What was freed cannot be freed again.
pub proof fn law_double_free_is_refused(v: FillerView, base: int, pages: int, again: int)
    requires
        v.ok(),
        v.is_allocation(base, pages),
    ensures
        ({
            let hp = v.index_of(base);
            !v.with_page(hp, v.pages[hp].freed(v.page_at(base), pages)).is_allocation(base, again)
        }),
{
    let off = v.page_at(base);
    assert(bitmap::page_run(off, again).contains(off) || again <= 0);
}

/// An allocation has one extent: at its start no other length is an allocation, and inside
/// it none starts.
pub proof fn law_only_exact_extents_are_allocations(
    v: FillerView,
    base: int,
    pages: int,
    other: int,
    length: int,
)
    requires
        v.ok(),
        v.is_allocation(base, pages),
        base <= other < base + pages * PAGE_SIZE,
        v.is_allocation(other, length),
    ensures
        other == base,
        length == pages,
{
    let p = v.pages[v.index_of(base)];
    let a = v.page_at(base);
    let b = v.page_at(other);
    assert(v.index_of(other) == v.index_of(base));
    assert(a <= b < a + pages);
    if a < b {
        assert(bitmap::page_run(a + 1, pages - 1).contains(b));
    }
    if pages < length {
        assert(bitmap::page_run(b, length).contains(a + pages));
        assert(bitmap::page_run(b + 1, length - 1).contains(a + pages));
    }
    if length < pages {
        assert(bitmap::page_run(a, pages).contains(b + length));
        assert(bitmap::page_run(a + 1, pages - 1).contains(b + length));
    }
}

/// A trimmed allocation is an allocation of its new length, at the same address.
pub proof fn law_trim_keeps_the_prefix(v: FillerView, base: int, old_pages: int, new_pages: int)
    requires
        v.ok(),
        v.is_allocation(base, old_pages),
        0 < new_pages < old_pages,
    ensures
        ({
            let hp = v.index_of(base);
            let w = v.with_page(hp, v.pages[hp].trimmed(v.page_at(base), old_pages, new_pages));
            w.is_allocation(base, new_pages)
        }),
{
    let hp = v.index_of(base);
    assert(v.pages[hp].ok());
    v.pages[hp].lemma_trimmed(v.page_at(base), old_pages, new_pages);
}

/// Backing a placement restores "every live page is backed".
pub proof fn law_placing_and_backing_is_confirmed(
    p: HugePageView,
    off: int,
    pages: int,
    hints: PlaceHints,
)
    requires
        p.ok(),
        p.confirmed(),
    ensures
        p.carved(off, pages, hints).backed(off, pages).confirmed(),
{
}

/// Freeing, trimming, backing and returning pages keep "every live page is backed and none
/// returned".
pub proof fn law_operations_keep_live_pages_backed(
    p: HugePageView,
    off: int,
    pages: int,
    new_pages: int,
    pressure: bool,
)
    requires
        p.ok(),
        p.confirmed(),
    ensures
        p.freed(off, pages).confirmed(),
        p.trimmed(off, pages, new_pages).confirmed(),
        p.backed(off, pages).confirmed(),
        p.backed_whole().confirmed(),
        p.emptied().confirmed(),
        p.may_return(off, pages, pressure) ==> p.returned(off, pages).confirmed(),
{
}

/// A subrelease never takes a live page, and takes no page that is not backed.
pub proof fn law_subrelease_spares_live_pages(
    p: HugePageView,
    off: int,
    pages: int,
    pressure: bool,
)
    requires
        p.ok(),
        p.may_return(off, pages, pressure),
    ensures
        p.returned(off, pages).live == p.live,
        p.live.disjoint(bitmap::page_run(off, pages)),
        p.returned(off, pages).committed.union(bitmap::page_run(off, pages)) == p.committed,
{
    assert(p.returned(off, pages).committed.union(bitmap::page_run(off, pages)) =~= p.committed);
}

/// Undoing a subrelease restores the hugepage.
pub proof fn law_unsubrelease_undoes_subrelease(
    p: HugePageView,
    off: int,
    pages: int,
    pressure: bool,
)
    requires
        p.ok(),
        p.may_return(off, pages, pressure),
    ensures
        p.returned(off, pages).backed(off, pages) == p,
{
    let q = p.returned(off, pages).backed(off, pages);
    assert(q.committed =~= p.committed);
    assert forall|x: int| q.released.contains(x) == p.released.contains(x) by {
        if bitmap::page_run(off, pages).contains(x) {
            assert(p.committed.contains(x));
        }
    }
    assert(q.released =~= p.released);
    assert(q =~= p);
}

/// Freeing a reserved run of whole hugepages undoes the reservation: nothing of it is live any
/// more, and the backing of every hugepage is as it was.
pub proof fn law_free_undoes_reserve(v: FillerView, start: int, n: int)
    requires
        v.ok(),
        0 < n,
        v.empty_run(start, n) || (start == v.opened && v.opened + n <= v.pages.len()),
    ensures
        ({
            let w = v.reserved(start, n);
            let u = w.each_page(start, n, |p: HugePageView| p.emptied());
            &&& w.pages[start].run_len == n
            &&& start + n <= w.opened
            &&& forall|i: int|
                #![trigger u.pages[i]]
                0 <= i < v.pages.len() ==> {
                    &&& u.pages[i].live == v.pages[i].live
                    &&& u.pages[i].heads == v.pages[i].heads
                    &&& u.pages[i].committed == v.pages[i].committed
                    &&& u.pages[i].released == v.pages[i].released
                    &&& u.pages[i].run_len == v.pages[i].run_len
                    &&& u.pages[i].in_run == v.pages[i].in_run
                }
        }),
{
    let w = v.reserved(start, n);
    let f = |p: HugePageView| p.emptied();
    let t = |p: HugePageView| p.taken_whole();
    if start == v.opened {
        v.lemma_take_fresh(n);
    } else {
        v.lemma_each_page(start, n, t);
    }
    w.lemma_each_page(start, n, f);
    let u = w.each_page(start, n, f);
    assert forall|i: int| #![trigger u.pages[i]] 0 <= i < v.pages.len() implies {
        &&& u.pages[i].live == v.pages[i].live
        &&& u.pages[i].heads == v.pages[i].heads
        &&& u.pages[i].committed == v.pages[i].committed
        &&& u.pages[i].released == v.pages[i].released
        &&& u.pages[i].run_len == v.pages[i].run_len
        &&& u.pages[i].in_run == v.pages[i].in_run
    } by {
        let p = v.pages[i];
        assert(p.ok());
        if start <= i < start + n {
            if start == v.opened {
                assert(p == HugePageView::fresh());
                assert(Set::<int>::empty().len() == 0);
            }
            assert(p.used() == 0);
            bitmap::lemma_pages_bounded(p.live);
            assert(p.heads =~= Set::<int>::empty());
        }
    }
}

/// No part of a run of whole hugepages is freed as a packed allocation.
pub proof fn law_run_members_are_not_packed(v: FillerView, base: int, pages: int)
    requires
        v.ok(),
        v.opened_at(base),
        v.pages[v.index_of(base)].in_run,
    ensures
        !v.is_allocation(base, pages),
{
}

/// A full hugepage never stands before one with room in a bin list, so a placement sees the
/// hugepages with room first.
pub proof fn law_room_comes_first(v: FillerView, b: int, j: int, k: int)
    requires
        v.ok(),
        0 <= b < huge_bin::HugeBin::COUNT,
        0 <= j < k < v.lists[b].len(),
        v.pages[v.lists[b][j]].full(),
    ensures
        v.pages[v.lists[b][k]].full(),
{
    assert(filler_model::list_ok(v.pages, v.lists[b], b, v.opened, -1));
}

/// An emptied hugepage forgets what its residents were like, so that the next ones are judged by
/// themselves; one that still holds something keeps what it was told.
pub proof fn law_emptied_hugepage_forgets(p: HugePageView, off: int, pages: int)
    requires
        p.ok(),
        0 <= off,
        off + pages <= PAGES_PER_HUGEPAGE,
    ensures
        p.live.subset_of(bitmap::page_run(off, pages)) ==> {
            &&& p.freed(off, pages).hotness == Hotness::Neutral
            &&& p.freed(off, pages).lifetime == Lifetime::Unspecified
        },
        !p.live.subset_of(bitmap::page_run(off, pages)) ==> {
            &&& p.freed(off, pages).hotness == p.hotness
            &&& p.freed(off, pages).lifetime == p.lifetime
        },
        p.emptied().hotness == Hotness::Neutral,
        p.emptied().lifetime == Lifetime::Unspecified,
        p.emptied().live == Set::<int>::empty(),
        p.emptied().committed == p.committed,
        p.emptied().released == p.released,
{
    bitmap::lemma_pages_bounded(p.live);
    let left = p.live.difference(bitmap::page_run(off, pages));
    bitmap::lemma_pages_bounded(left);
    if p.live.subset_of(bitmap::page_run(off, pages)) {
        assert(left =~= Set::<int>::empty());
    } else {
        let x = choose|x: int| p.live.contains(x) && !bitmap::page_run(off, pages).contains(x);
        assert(left.contains(x));
    }
}

} // verus!
