//! What packing is for: runs go where hugepages are dense already, so that the emptier ones stay
//! free to be returned.
use vstd::prelude::*;
use vstd::set_lib::*;
use crate::bitmap;
use crate::bitmap::PAGES_PER_HUGEPAGE;
use crate::filler::SCAN_CAP;
use crate::filler_model;
use crate::filler_model::{FillerView, HugePageView, PlaceRequest};
use crate::flags::Lifetime;
use crate::huge_bin;
use crate::huge_bin::{Hotness, HugeBin, PlaceHints};

verus! {

/// A placement looks at hugepage `i`: it is among the first [`SCAN_CAP`] of a bin list.
pub open spec fn in_sight(v: FillerView, i: int) -> bool {
    exists|b: int, k: int| #[trigger] stands_at(v, i, b, k) && k < SCAN_CAP
}

/// Hugepage `i` stands in place `k` of bin list `b`.
pub open spec fn stands_at(v: FillerView, i: int, b: int, k: int) -> bool {
    &&& 0 <= b < v.lists.len()
    &&& 0 <= k < v.lists[b].len()
    &&& v.lists[b][k] == i
}

/// There are free pages for the request in hugepage `p`, at an offset that is a multiple of its
/// stride.
pub open spec fn has_room(p: HugePageView, r: PlaceRequest) -> bool {
    exists|off: int|
        {
            &&& 0 <= off
            &&& off + r.pages <= PAGES_PER_HUGEPAGE
            &&& off % r.stride == 0
            &&& p.live.disjoint(#[trigger] bitmap::page_run(off, r.pages))
        }
}

/// At least `n` eighths of the hugepage are live, and none of its pages was returned.
pub open spec fn intact_and_filled(p: HugePageView, n: int) -> bool {
    p.released.len() == 0 && p.used() * 8 >= n * PAGES_PER_HUGEPAGE
}

/// In a filler of no more hugepages than a placement looks at in one bin, it looks at all.
pub proof fn law_small_fillers_are_in_sight(v: FillerView, i: int)
    requires
        v.ok(),
        0 <= i < v.opened <= SCAN_CAP,
    ensures
        in_sight(v, i),
{
    let b = v.pages[i].bin().number();
    let l = v.lists[b];
    assert(filler_model::is_filed(v.pages, v.lists, i));
    let k = choose|k: int| 0 <= k < l.len() && l[k] == i;
    assert(filler_model::list_ok(v.pages, l, b, v.opened, -1));
    assert(l.len() <= v.opened) by {
        assert(l.no_duplicates());
        l.unique_seq_to_set();
        assert(l.to_set().subset_of(set_int_range(0, v.opened))) by {
            assert forall|x: int| l.to_set().contains(x) implies set_int_range(
                0,
                v.opened,
            ).contains(x) by {
                let m = choose|m: int| 0 <= m < l.len() && l[m] == x;
                assert(0 <= l[m] < v.opened);
            }
        }
        lemma_int_range(0, v.opened);
        lemma_len_subset(l.to_set(), set_int_range(0, v.opened));
    }
    assert(stands_at(v, i, b, k));
}

/// How late in the scan a bin comes.
spec fn turn(b: HugeBin) -> int {
    match b {
        HugeBin::HotDense => 0,
        HugeBin::NearlyFull => 1,
        HugeBin::Medium => 2,
        HugeBin::Sparse => 3,
        HugeBin::ColdSparse => 4,
        HugeBin::NearlyEmpty => 5,
        HugeBin::PartialSubreleased => 6,
        HugeBin::EmptyBacked => 7,
        HugeBin::Full => 8,
    }
}

proof fn lemma_turn(k: int)
    requires
        0 <= k < huge_bin::packing_order().len(),
    ensures
        turn(huge_bin::packing_order()[k]) == k,
        k < 8,
{
    reveal(huge_bin::packing_order);
}

proof fn lemma_at_turn(b: HugeBin)
    requires
        b != HugeBin::Full,
    ensures
        0 <= turn(b) < huge_bin::packing_order().len(),
        huge_bin::packing_order()[turn(b)] == b,
{
    reveal(huge_bin::packing_order);
}

proof fn lemma_number_is_one_to_one(a: HugeBin, b: HugeBin)
    requires
        a.number() == b.number(),
    ensures
        a == b,
{
}

/// Room is what the search for a fit finds.
proof fn lemma_room(v: FillerView, r: PlaceRequest, i: int)
    requires
        0 <= i < v.pages.len(),
        has_room(v.pages[i], r),
        0 < r.pages,
        0 < r.stride,
        v.pages[i].ok(),
    ensures
        v.fit(r, i) is Some,
        v.pages[i].bin() != HugeBin::Full,
        0 <= v.pages[i].used() < PAGES_PER_HUGEPAGE,
{
    let p = v.pages[i];
    let off = choose|off: int|
        {
            &&& 0 <= off
            &&& off + r.pages <= PAGES_PER_HUGEPAGE
            &&& off % r.stride == 0
            &&& p.live.disjoint(#[trigger] bitmap::page_run(off, r.pages))
        };
    assert(bitmap::fits_at(p.live, off, r.pages, r.stride));
    bitmap::lemma_pages_bounded(p.live);
    assert(bitmap::page_run(off, r.pages).contains(off));
    assert(!p.live.contains(off));
    assert(p.live.insert(off).subset_of(bitmap::all_pages()));
    bitmap::lemma_pages_bounded(p.live.insert(off));
}

/// The hugepage at a place of a bin list is of that bin.
proof fn lemma_listed(v: FillerView, i: int, b: int, k: int)
    requires
        v.ok(),
        stands_at(v, i, b, k),
    ensures
        0 <= i < v.opened,
        v.pages[i].bin().number() == b,
        v.pages[i].ok(),
{
    assert(filler_model::list_ok(v.pages, v.lists[b], b, v.opened, -1));
}

/// A hugepage in sight that has room is scanned when its bin has its turn.
proof fn lemma_scanned(v: FillerView, r: PlaceRequest, d: int) -> (n: int)
    requires
        v.ok(),
        0 < r.pages,
        0 < r.stride,
        in_sight(v, d),
        has_room(v.pages[d], r),
    ensures
        0 <= d < v.opened,
        v.pages[d].ok(),
        v.fit(r, d) is Some,
        v.pages[d].bin() != HugeBin::Full,
        v.pages[d].used() < PAGES_PER_HUGEPAGE,
        0 <= turn(v.pages[d].bin()) < huge_bin::packing_order().len(),
        huge_bin::packing_order()[turn(v.pages[d].bin())] == v.pages[d].bin(),
        0 <= n < v.scanned(turn(v.pages[d].bin())).len(),
        v.scanned(turn(v.pages[d].bin()))[n] == d,
        v.has_fit(r, v.scanned(turn(v.pages[d].bin()))),
{
    let (b, n) = choose|b: int, k: int| #[trigger] stands_at(v, d, b, k) && k < SCAN_CAP;
    lemma_listed(v, d, b, n);
    lemma_room(v, r, d);
    lemma_at_turn(v.pages[d].bin());
    let w = v.scanned(turn(v.pages[d].bin()));
    assert(w[n] == d);
    assert(v.fit(r, w[n]) is Some);
    n
}

/// A candidate is of the bin whose turn it is found in.
proof fn lemma_candidate(v: FillerView, r: PlaceRequest, c: int) -> (k: int)
    requires
        v.ok(),
        0 < r.pages,
        0 < r.stride,
        v.candidate(r, c),
    ensures
        v.densest(r, k),
        v.best_among(r, v.scanned(k), c),
        0 <= c < v.opened,
        v.pages[c].ok(),
        v.pages[c].bin() != HugeBin::Full,
        turn(v.pages[c].bin()) == k,
        in_sight(v, c),
{
    let k = choose|k: int| #[trigger] v.densest(r, k) && v.best_among(r, v.scanned(k), c);
    lemma_turn(k);
    let b = huge_bin::packing_order()[k].number();
    let u = v.scanned(k);
    let x = choose|x: int| 0 <= x < u.len() && u[x] == c;
    assert(0 <= b < v.lists.len());
    assert(v.lists[b][x] == c);
    assert(stands_at(v, c, b, x));
    lemma_listed(v, c, b, x);
    lemma_number_is_one_to_one(v.pages[c].bin(), huge_bin::packing_order()[k]);
    k
}

/// A candidate comes no later in the scan than any hugepage in sight with room.
proof fn lemma_candidate_turn(v: FillerView, r: PlaceRequest, c: int, d: int)
    requires
        v.ok(),
        0 < r.pages,
        0 < r.stride,
        v.candidate(r, c),
        in_sight(v, d),
        has_room(v.pages[d], r),
    ensures
        0 <= c < v.opened,
        v.fit(r, c) is Some,
        v.pages[c].ok(),
        v.pages[c].bin() != HugeBin::Full,
        turn(v.pages[c].bin()) <= turn(v.pages[d].bin()),
        v.pages[c].bin() == v.pages[d].bin() && c != d ==> v.better(r, c, d),
        0 <= d < v.opened,
        v.pages[d].ok(),
        v.fit(r, d) is Some,
        v.pages[d].used() < PAGES_PER_HUGEPAGE,
{
    let n = lemma_scanned(v, r, d);
    let k = lemma_candidate(v, r, c);
    let j = turn(v.pages[d].bin());
    assert(v.has_fit(r, v.scanned(j)));
    assert(k <= j);
    if v.pages[c].bin() == v.pages[d].bin() && c != d {
        assert(v.better(r, c, v.scanned(j)[n]));
    }
}

/// With a hugepage in sight that has room there is a candidate to go to, or a fresh hugepage
/// that a candidate scores less than.
proof fn lemma_goes(v: FillerView, r: PlaceRequest, hp: int, off: int, d: int) -> (c: int)
    requires
        v.ok(),
        0 < r.pages,
        0 < r.stride,
        v.goes_to(r, hp, off),
        in_sight(v, d),
        has_room(v.pages[d], r),
    ensures
        v.candidate(r, c),
        hp < v.opened ==> c == hp,
        hp >= v.opened ==> v.score_of(r, c) < filler_model::fresh_score(r.hints),
{
    reveal(FillerView::goes_to);
    reveal(FillerView::no_candidate);
    if hp < v.opened {
        hp
    } else {
        let n = lemma_scanned(v, r, d);
        assert(!v.no_candidate(r));
        choose|c: int| #[trigger]
            v.candidate(r, c) && v.score_of(r, c) < filler_model::fresh_score(r.hints)
    }
}

/// What the bins say of the pages of a hugepage.
proof fn lemma_bins(p: HugePageView)
    requires
        p.ok(),
    ensures
        0 <= p.used() <= PAGES_PER_HUGEPAGE,
        turn(p.bin()) <= 1 ==> intact_and_filled(p, 5),
        turn(p.bin()) <= 2 ==> intact_and_filled(p, 3),
        turn(p.bin()) <= 4 ==> intact_and_filled(p, 1),
        turn(p.bin()) <= 5 ==> p.released.len() == 0 && p.used() > 0,
        turn(p.bin()) <= 6 ==> p.released.len() > 0 || p.used() > 0,
        turn(p.bin()) == 0 ==> p.hotness == Hotness::Hot,
        turn(p.bin()) == 3 ==> p.hotness != Hotness::Cold,
        intact_and_filled(p, 5) && p.used() < PAGES_PER_HUGEPAGE ==> turn(p.bin()) <= 1,
        intact_and_filled(p, 5) && p.used() < PAGES_PER_HUGEPAGE && p.hotness == Hotness::Hot
            ==> turn(p.bin()) == 0,
        intact_and_filled(p, 3) && p.used() < PAGES_PER_HUGEPAGE ==> turn(p.bin()) <= 2,
        intact_and_filled(p, 1) && p.used() < PAGES_PER_HUGEPAGE ==> turn(p.bin()) <= 4,
        intact_and_filled(p, 1) && p.used() < PAGES_PER_HUGEPAGE && p.hotness != Hotness::Cold
            ==> turn(p.bin()) <= 3,
        p.released.len() == 0 && 0 < p.used() < PAGES_PER_HUGEPAGE ==> turn(p.bin()) <= 5,
        p.released.len() > 0 ==> turn(p.bin()) == 6,
{
    bitmap::lemma_pages_bounded(p.live);
    let band = huge_bin::occupancy_band(p.used(), PAGES_PER_HUGEPAGE as int);
    assert(band == (p.used() * 8) / 128);
}

/// What comes no later in the scan than a dense hot hugepage is hot.
proof fn lemma_hot_before(q: HugePageView, p: HugePageView)
    requires
        p.ok(),
        q.ok(),
        p.used() < PAGES_PER_HUGEPAGE,
        p.hotness == Hotness::Hot,
        intact_and_filled(p, 5),
        turn(q.bin()) <= turn(p.bin()),
    ensures
        q.hotness == Hotness::Hot,
{
    lemma_bins(p);
    lemma_bins(q);
}

/// A hugepage that is filled to three eighths scores more than a fresh one ever does.
proof fn lemma_filled_beats_fresh(v: FillerView, r: PlaceRequest, c: int)
    requires
        0 <= c < v.pages.len(),
        v.pages[c].ok(),
        intact_and_filled(v.pages[c], 3),
        v.fit(r, c) is Some,
        0 < r.pages,
        0 < r.stride,
    ensures
        v.score_of(r, c) > filler_model::fresh_score(r.hints),
{
    let p = v.pages[c];
    bitmap::lemma_pages_bounded(p.committed);
    bitmap::lemma_fit_bounds(p.live, r.pages, r.stride);
    assert(0 <= filler_model::lifetime_gap(p.lifetime, r.hints.lifetime) <= 3);
}

/// A run goes to the densest hugepage in sight that has room, by eighths: while a hugepage with
/// no returned page has five, three or one eighth live and room, the run is not put in an opened
/// hugepage that has less, nor in one with returned pages. From three eighths on it does not
/// open a fresh hugepage either. So the emptier hugepages stay as they are, to be returned.
pub proof fn law_dense_hugepages_fill_first(
    v: FillerView,
    r: PlaceRequest,
    hp: int,
    off: int,
    dense: int,
    eighths: int,
)
    requires
        v.ok(),
        0 < r.pages,
        0 < r.stride,
        v.goes_to(r, hp, off),
        in_sight(v, dense),
        has_room(v.pages[dense], r),
        eighths == 1 || eighths == 3 || eighths == 5,
        intact_and_filled(v.pages[dense], eighths),
    ensures
        hp < v.opened ==> intact_and_filled(v.pages[hp], eighths),
        eighths >= 3 ==> hp < v.opened,
{
    let c = lemma_goes(v, r, hp, off, dense);
    lemma_candidate_turn(v, r, c, dense);
    lemma_bins(v.pages[dense]);
    lemma_bins(v.pages[c]);
    if eighths >= 3 {
        lemma_filled_beats_fresh(v, r, c);
    }
}

/// An empty hugepage is the last resort of those that are open, and one with returned pages the
/// last but that: while an intact hugepage in use has room, the run goes to such a one or opens
/// a fresh hugepage; and while any other than an empty backed one has room, no empty backed one
/// is taken.
pub proof fn law_empty_hugepages_come_last(
    v: FillerView,
    r: PlaceRequest,
    hp: int,
    off: int,
    d: int,
)
    requires
        v.ok(),
        0 < r.pages,
        0 < r.stride,
        v.goes_to(r, hp, off),
        hp < v.opened,
        in_sight(v, d),
        has_room(v.pages[d], r),
    ensures
        v.pages[d].used() > 0 && v.pages[d].released.len() == 0 ==> v.pages[hp].used() > 0
            && v.pages[hp].released.len() == 0,
        v.pages[d].used() > 0 || v.pages[d].released.len() > 0 ==> v.pages[hp].used() > 0
            || v.pages[hp].released.len() > 0,
{
    let c = lemma_goes(v, r, hp, off, d);
    lemma_candidate_turn(v, r, c, d);
    lemma_bins(v.pages[d]);
    lemma_bins(v.pages[c]);
}

/// Hot memory is packed with hot memory first: while a hot hugepage filled to five eighths has
/// room, the run goes to a hot one that is filled as much.
pub proof fn law_hot_hugepages_fill_first(
    v: FillerView,
    r: PlaceRequest,
    hp: int,
    off: int,
    d: int,
)
    requires
        v.ok(),
        0 < r.pages,
        0 < r.stride,
        v.goes_to(r, hp, off),
        in_sight(v, d),
        has_room(v.pages[d], r),
        v.pages[d].hotness == Hotness::Hot,
        intact_and_filled(v.pages[d], 5),
    ensures
        hp < v.opened,
        v.pages[hp].hotness == Hotness::Hot,
        intact_and_filled(v.pages[hp], 5),
{
    law_dense_hugepages_fill_first(v, r, hp, off, d, 5);
    let c = lemma_goes(v, r, hp, off, d);
    assert(c == hp);
    lemma_candidate_turn(v, r, c, d);
    lemma_hot_before(v.pages[c], v.pages[d]);
}

/// Cold sparse hugepages are left to be subreleased: while one that is not cold, filled to an
/// eighth, has room, the run does not go to a cold one that is filled to less than three.
pub proof fn law_cold_hugepages_rest(
    v: FillerView,
    r: PlaceRequest,
    hp: int,
    off: int,
    d: int,
)
    requires
        v.ok(),
        0 < r.pages,
        0 < r.stride,
        v.goes_to(r, hp, off),
        hp < v.opened,
        in_sight(v, d),
        has_room(v.pages[d], r),
        v.pages[d].hotness != Hotness::Cold,
        intact_and_filled(v.pages[d], 1),
    ensures
        v.pages[hp].hotness != Hotness::Cold || intact_and_filled(v.pages[hp], 3),
{
    let c = lemma_goes(v, r, hp, off, d);
    lemma_candidate_turn(v, r, c, d);
    lemma_bins(v.pages[d]);
    lemma_bins(v.pages[c]);
    assert(turn(v.pages[c].bin()) <= 3);
}

/// A run is refused for want of room only: no hugepage that a placement looks at has any.
pub proof fn law_runs_are_refused_for_want_of_room(v: FillerView, r: PlaceRequest, d: int)
    requires
        v.ok(),
        0 < r.pages,
        0 < r.stride,
        v.no_candidate(r),
        in_sight(v, d),
    ensures
        !has_room(v.pages[d], r),
{
    reveal(FillerView::no_candidate);
    if has_room(v.pages[d], r) {
        let n = lemma_scanned(v, r, d);
    }
}

/// The lowest offset in hugepage `p` at which the request has room is `off`.
pub open spec fn lowest_room(p: HugePageView, r: PlaceRequest, off: int) -> bool {
    &&& 0 <= off
    &&& off + r.pages <= PAGES_PER_HUGEPAGE
    &&& off % r.stride == 0
    &&& p.live.disjoint(bitmap::page_run(off, r.pages))
    &&& forall|o: int|
        0 <= o < off && o % r.stride == 0 ==> !p.live.disjoint(
            #[trigger] bitmap::page_run(o, r.pages),
        )
}

/// A run goes to the lowest place of its hugepage that it fits at.
pub proof fn law_runs_go_to_the_lowest_room(v: FillerView, r: PlaceRequest, hp: int, off: int)
    requires
        v.ok(),
        0 < r.pages <= PAGES_PER_HUGEPAGE,
        0 < r.stride,
        v.goes_to(r, hp, off),
        0 <= hp,
    ensures
        hp < v.pages.len(),
        lowest_room(v.pages[hp], r, off),
{
    reveal(FillerView::goes_to);
    if hp < v.opened {
        let live = v.pages[hp].live;
        bitmap::lemma_fit_bounds(live, r.pages, r.stride);
        bitmap::lemma_fit_is_lowest(live, r.pages, r.stride);
        assert forall|o: int| 0 <= o < off && o % r.stride == 0 implies !live.disjoint(
            #[trigger] bitmap::page_run(o, r.pages),
        ) by {
            assert(!bitmap::fits_at(live, o, r.pages, r.stride));
        }
    } else {
        assert(v.pages[hp] == HugePageView::fresh());
        assert(0int % r.stride == 0) by (nonlinear_arith)
            requires
                r.stride > 0,
        ;
    }
}

/// Hugepage `p`, at offset `o`, is at least as good for a run as `q` at `x`: as many live pages,
/// as hot as is asked for if `q` is, as near in lifetime, backed if `q` is, no more backed pages
/// left idle, no higher an offset, and no more returned pages.
pub open spec fn as_good(
    p: HugePageView,
    o: int,
    q: HugePageView,
    x: int,
    hints: PlaceHints,
    pages: int,
) -> bool {
    &&& p.used() >= q.used()
    &&& p.used() == 0 <==> q.used() == 0
    &&& q.hotness == hints.hotness ==> p.hotness == hints.hotness
    &&& distance(p.lifetime, hints.lifetime) <= distance(q.lifetime, hints.lifetime)
    &&& bitmap::page_run(x, pages).subset_of(q.committed) ==> bitmap::page_run(o, pages).subset_of(
        p.committed,
    )
    &&& p.committed.len() - p.used() <= q.committed.len() - q.used()
    &&& o <= x
    &&& p.released.len() <= q.released.len()
}

/// How far apart two lifetimes are on the scale from none over short and medium to long.
pub open spec fn distance(a: Lifetime, b: Lifetime) -> int {
    let d = place_on_scale(a) - place_on_scale(b);
    if d < 0 {
        -d
    } else {
        d
    }
}

/// Where a lifetime stands on the scale.
pub open spec fn place_on_scale(a: Lifetime) -> int {
    match a {
        Lifetime::Unspecified => 0,
        Lifetime::Short => 1,
        Lifetime::Medium => 2,
        Lifetime::Long => 3,
    }
}

/// It is better in some respect: more live pages, the hotness that is asked for, nearer in
/// lifetime where there is anyone to be near to, backed, fewer returned pages, eight fewer backed
/// pages left idle, or a lower offset among the first eight.
pub open spec fn better_somewhere(
    p: HugePageView,
    o: int,
    q: HugePageView,
    x: int,
    hints: PlaceHints,
    pages: int,
) -> bool {
    ||| p.used() > q.used()
    ||| p.hotness == hints.hotness && q.hotness != hints.hotness
    ||| q.used() > 0 && distance(p.lifetime, hints.lifetime) < distance(q.lifetime, hints.lifetime)
    ||| bitmap::page_run(o, pages).subset_of(p.committed) && !bitmap::page_run(
        x,
        pages,
    ).subset_of(q.committed)
    ||| p.released.len() < q.released.len()
    ||| q.committed.len() - q.used() - pages >= 8 && p.committed.len() - p.used() + 8
        <= q.committed.len() - q.used()
    ||| o < x && o < 8
}

/// Within a bin the better hugepage wins: a run does not go to a hugepage while another in sight
/// of the same bin is as good in every respect and better in one; and of two that are the same
/// in all, it goes to the lower one.
pub proof fn law_better_hugepage_wins(
    v: FillerView,
    r: PlaceRequest,
    hp: int,
    off: int,
    d: int,
    o: int,
    b: int,
)
    requires
        v.ok(),
        0 < r.pages,
        0 < r.stride,
        v.goes_to(r, hp, off),
        hp < v.opened,
        in_sight(v, d),
        lowest_room(v.pages[d], r, o),
        0 <= b < v.lists.len(),
        v.lists[b].contains(hp),
        v.lists[b].contains(d),
        as_good(v.pages[d], o, v.pages[hp], off, r.hints, r.pages),
    ensures
        !better_somewhere(v.pages[d], o, v.pages[hp], off, r.hints, r.pages),
        hp <= d,
{
    let p = v.pages[d];
    assert(bitmap::page_run(o, r.pages) == bitmap::page_run(o, r.pages));
    assert(has_room(p, r));
    let c = lemma_goes(v, r, hp, off, d);
    lemma_candidate_turn(v, r, c, d);
    let x = choose|x: int| 0 <= x < v.lists[b].len() && v.lists[b][x] == hp;
    let y = choose|y: int| 0 <= y < v.lists[b].len() && v.lists[b][y] == d;
    assert(stands_at(v, hp, b, x));
    assert(stands_at(v, d, b, y));
    lemma_listed(v, hp, b, x);
    lemma_listed(v, d, b, y);
    lemma_number_is_one_to_one(v.pages[hp].bin(), p.bin());
    lemma_room(v, r, d);
    bitmap::lemma_pages_bounded(p.committed);
    bitmap::lemma_pages_bounded(p.live);
    bitmap::lemma_pages_bounded(v.pages[hp].live);
    assert(bitmap::fits_at(p.live, o, r.pages, r.stride));
    assert forall|z: int| 0 <= z < o implies !bitmap::fits_at(p.live, z, r.pages, r.stride) by {
        assert(bitmap::page_run(z, r.pages) == bitmap::page_run(z, r.pages));
    }
    bitmap::lemma_first_fit(p.live, o, r.pages, r.stride);
    assert(v.fit(r, d) == Some(o as usize));
    reveal(FillerView::goes_to);
    assert(v.fit(r, hp) == Some(off as usize));
    bitmap::lemma_fit_bounds(v.pages[hp].live, r.pages, r.stride);
    if hp != d {
        assert(v.better(r, hp, d));
    }
}

/// A fresh hugepage is judged as any other: what it is taken to score is what the rule gives to
/// one that nothing was ever placed in.
pub proof fn law_fresh_hugepage_is_judged_alike(hints: PlaceHints, pages: int)
    requires
        0 < pages,
    ensures
        filler_model::fresh_score(hints) == filler_model::score(
            HugePageView::fresh(),
            hints,
            0,
            pages,
        ),
{
    let p = HugePageView::fresh();
    assert(bitmap::page_run(0, pages).contains(0));
    assert(!p.committed.contains(0));
}

/// Lifetimes are kept apart where that costs little: a run that is told apart by two steps from
/// the residents of every hugepage in sight with room, each with two live pages at most, opens a
/// fresh hugepage while there is one.
pub proof fn law_lifetimes_are_kept_apart(v: FillerView, r: PlaceRequest, hp: int, off: int)
    requires
        v.ok(),
        0 < r.pages,
        0 < r.stride,
        v.goes_to(r, hp, off),
        v.opened < v.pages.len(),
        r.hints.hotness == Hotness::Neutral,
        forall|d: int| #[trigger]
            in_sight(v, d) && has_room(v.pages[d], r) ==> 0 < v.pages[d].used() <= 2 && distance(
                v.pages[d].lifetime,
                r.hints.lifetime,
            ) >= 2,
    ensures
        hp == v.opened,
{
    reveal(FillerView::goes_to);
    if hp < v.opened {
        let k = lemma_candidate(v, r, hp);
        let p = v.pages[hp];
        bitmap::lemma_fit_bounds(p.live, r.pages, r.stride);
        assert(p.live.disjoint(bitmap::page_run(off, r.pages)));
        assert(has_room(p, r));
        bitmap::lemma_pages_bounded(p.committed);
    }
}

/// A hugepage is as hot as its hottest resident and as long-lived as its longest-lived one, and
/// what it held stays.
pub proof fn law_residents_are_joined(p: HugePageView, off: int, pages: int, hints: PlaceHints)
    ensures
        ({
            let q = p.carved(off, pages, hints);
            &&& q.hotness == p.hotness || q.hotness == hints.hotness
            &&& q.hotness == Hotness::Hot <==> p.hotness == Hotness::Hot || hints.hotness
                == Hotness::Hot
            &&& q.hotness == Hotness::Cold <==> p.hotness == Hotness::Cold && hints.hotness
                == Hotness::Cold
            &&& q.lifetime == p.lifetime || q.lifetime == hints.lifetime
            &&& place_on_scale(q.lifetime) >= place_on_scale(p.lifetime)
            &&& place_on_scale(q.lifetime) >= place_on_scale(hints.lifetime)
            &&& p.live.subset_of(q.live)
        }),
{
}

} // verus!
