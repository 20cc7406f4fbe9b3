//! What a hugepage filler is, mathematically: the page sets of each hugepage, and the nine
//! lists that file the opened hugepages by bin.
use vstd::prelude::*;
use vstd::set_lib::*;
use crate::bitmap;
use crate::bitmap::{HUGEPAGE_SIZE, PAGES_PER_HUGEPAGE, PAGE_SIZE};
use crate::flags::Lifetime;
use crate::huge_bin;
use crate::huge_bin::{Hotness, HugeBin, PlaceHints};

verus! {

/// One hugepage, as sets of its pages.
#[verifier::ext_equal]
pub struct HugePageView {
    /// Pages that belong to a live allocation.
    pub live: Set<int>,
    /// Physically backed pages.
    pub committed: Set<int>,
    /// Pages that were backed and have been returned.
    pub released: Set<int>,
    /// Pages at which a live allocation starts.
    pub heads: Set<int>,
    /// The length in hugepages of the run that starts here, or 0.
    pub run_len: int,
    /// Whether the hugepage belongs to a run of whole hugepages.
    pub in_run: bool,
    /// The hottest resident's hotness.
    pub hotness: Hotness,
    /// The longest-lived resident's lifetime.
    pub lifetime: Lifetime,
}

impl HugePageView {
    /// A hugepage that nothing was ever placed in.
    pub open spec fn fresh() -> HugePageView {
        HugePageView {
            live: Set::empty(),
            committed: Set::empty(),
            released: Set::empty(),
            heads: Set::empty(),
            run_len: 0,
            in_run: false,
            hotness: Hotness::Neutral,
            lifetime: Lifetime::Unspecified,
        }
    }

    /// How many pages are live.
    pub open spec fn used(self) -> int {
        self.live.len() as int
    }

    /// Whether every page is live.
    pub open spec fn full(self) -> bool {
        self.used() == PAGES_PER_HUGEPAGE
    }

    /// The bin that occupancy and state imply.
    pub open spec fn bin(self) -> HugeBin {
        huge_bin::bin_for(
            self.used(),
            PAGES_PER_HUGEPAGE as int,
            self.released.len() as int,
            self.hotness,
        )
    }

    /// Page `p`, if live, starts an allocation or continues the one before it.
    pub open spec fn started(self, p: int) -> bool {
        self.live.contains(p) ==> self.heads.contains(p) || self.live.contains(p - 1)
    }

    /// What every hugepage keeps: its sets hold pages of the hugepage only; no page is both
    /// backed and returned; an allocation starts on a live page, and a live page that starts
    /// none continues the one before it; a member of a run of whole hugepages is entirely
    /// live, and a run starts on a member.
    pub open spec fn ok(self) -> bool {
        &&& self.live.subset_of(bitmap::all_pages())
        &&& self.committed.subset_of(bitmap::all_pages())
        &&& self.released.subset_of(bitmap::all_pages())
        &&& self.heads.subset_of(self.live)
        &&& forall|p: int| #[trigger] self.started(p)
        &&& self.committed.disjoint(self.released)
        &&& self.in_run ==> self.full()
        &&& self.run_len >= 0
        &&& self.run_len > 0 ==> self.in_run
    }

    /// Whether the hugepage holds a backed page and nothing live.
    pub open spec fn empty_backed(self) -> bool {
        self.used() == 0 && self.committed.len() > 0
    }

    /// Every live page is backed and none is returned.
    pub open spec fn confirmed(self) -> bool {
        self.live.subset_of(self.committed) && self.live.disjoint(self.released)
    }

    /// Whether one allocation of exactly `pages` pages starts at page `off`: its pages are
    /// live, it starts there, no other starts inside it, and it ends there.
    pub open spec fn is_extent(self, off: int, pages: int) -> bool {
        &&& 0 <= off
        &&& 0 < pages
        &&& off + pages <= PAGES_PER_HUGEPAGE
        &&& bitmap::page_run(off, pages).subset_of(self.live)
        &&& self.heads.contains(off)
        &&& self.heads.disjoint(bitmap::page_run(off + 1, pages - 1))
        &&& (self.live.contains(off + pages) ==> self.heads.contains(off + pages))
    }

    /// The hugepage with the `pages` pages at `off` made one live allocation.
    pub open spec fn carved(self, off: int, pages: int, hints: PlaceHints) -> HugePageView {
        HugePageView {
            live: self.live.union(bitmap::page_run(off, pages)),
            heads: self.heads.insert(off),
            hotness: self.hotness.hotter(hints.hotness),
            lifetime: self.lifetime.longer(hints.lifetime),
            ..self
        }
    }

    /// The hugepage with the allocation of `pages` pages at `off` freed. An emptied hugepage
    /// forgets what its residents were like.
    pub open spec fn freed(self, off: int, pages: int) -> HugePageView {
        let live = self.live.difference(bitmap::page_run(off, pages));
        let emptied = live.len() == 0;
        HugePageView {
            live,
            heads: self.heads.remove(off),
            hotness: if emptied {
                Hotness::Neutral
            } else {
                self.hotness
            },
            lifetime: if emptied {
                Lifetime::Unspecified
            } else {
                self.lifetime
            },
            ..self
        }
    }

    /// The hugepage with the `pages` pages at `off` backed.
    pub open spec fn backed(self, off: int, pages: int) -> HugePageView {
        HugePageView {
            committed: self.committed.union(bitmap::page_run(off, pages)),
            released: self.released.difference(bitmap::page_run(off, pages)),
            ..self
        }
    }

    /// The hugepage with the `pages` pages at `off` returned.
    pub open spec fn returned(self, off: int, pages: int) -> HugePageView {
        HugePageView {
            committed: self.committed.difference(bitmap::page_run(off, pages)),
            released: self.released.union(bitmap::page_run(off, pages)),
            ..self
        }
    }
}

/// The whole filler.
#[verifier::ext_equal]
pub struct FillerView {
    /// Base address of the tiled region.
    pub base: int,
    /// The hugepages, by index.
    pub pages: Seq<HugePageView>,
    /// How many hugepages have been opened, always the lowest ones.
    pub opened: int,
    /// For each bin the opened hugepages filed in it, in scan order.
    pub lists: Seq<Seq<int>>,
    /// Subreleases so far.
    pub subreleases: int,
}

/// `lists` with hugepage `i` taken out of the list that holds it.
pub open spec fn without(lists: Seq<Seq<int>>, i: int) -> Seq<Seq<int>> {
    Seq::new(lists.len(), |b: int| lists[b].remove_value(i))
}

/// `lists` with hugepage `i` filed in list `b`, at the tail or at the head.
pub open spec fn filed(lists: Seq<Seq<int>>, i: int, b: int, at_tail: bool) -> Seq<Seq<int>> {
    lists.update(
        b,
        if at_tail {
            lists[b].push(i)
        } else {
            seq![i] + lists[b]
        },
    )
}

/// List `l` of bin `b` holds opened hugepages of that bin, none twice, those with room before
/// the full ones. Hugepage `absent` is in no list.
pub open spec fn list_ok(
    pages: Seq<HugePageView>,
    l: Seq<int>,
    b: int,
    opened: int,
    absent: int,
) -> bool {
    &&& forall|j: int, k: int|
        #![trigger l[j], l[k]]
        0 <= j < k < l.len() ==> l[j] != l[k]
    &&& forall|k: int|
        #![trigger l[k]]
        0 <= k < l.len() ==> 0 <= l[k] < opened && l[k] != absent && pages[l[k]].bin().number()
            == b
    &&& forall|j: int, k: int|
        #![trigger l[j], l[k]]
        0 <= j < k < l.len() && pages[l[j]].full() ==> pages[l[k]].full()
}

/// The nine lists file every opened hugepage but `absent` in the list of its bin.
pub open spec fn lists_ok(
    pages: Seq<HugePageView>,
    lists: Seq<Seq<int>>,
    opened: int,
    absent: int,
) -> bool {
    &&& lists.len() == HugeBin::COUNT
    &&& forall|b: int|
        #![trigger lists[b]]
        0 <= b < HugeBin::COUNT ==> list_ok(pages, lists[b], b, opened, absent)
    &&& forall|i: int| 0 <= i < opened && i != absent ==> #[trigger] is_filed(pages, lists, i)
}

/// Hugepage `i` is in the list of its bin.
pub open spec fn is_filed(pages: Seq<HugePageView>, lists: Seq<Seq<int>>, i: int) -> bool {
    lists[pages[i].bin().number()].contains(i)
}

/// Where hugepage `i` stands in the list of its bin.
pub open spec fn place_in_list(pages: Seq<HugePageView>, lists: Seq<Seq<int>>, i: int) -> int {
    choose|k: int|
        0 <= k < lists[pages[i].bin().number()].len() && lists[pages[i].bin().number()][k] == i
}

/// Taking hugepage `i` out of its list keeps the lists.
pub proof fn lemma_without(pages: Seq<HugePageView>, lists: Seq<Seq<int>>, opened: int, i: int)
    requires
        lists_ok(pages, lists, opened, -1),
        0 <= i < opened <= pages.len(),
    ensures
        lists_ok(pages, without(lists, i), opened, i),
        ({
            let b = pages[i].bin().number();
            let k = place_in_list(pages, lists, i);
            &&& 0 <= b < HugeBin::COUNT
            &&& 0 <= k < lists[b].len()
            &&& lists[b][k] == i
            &&& without(lists, i) == lists.update(b, lists[b].remove(k))
        }),
{
    let b = pages[i].bin().number();
    let l = lists[b];
    assert(is_filed(pages, lists, i));
    assert(l.contains(i));
    let k = place_in_list(pages, lists, i);
    assert(0 <= k < l.len() && l[k] == i);
    let w = without(lists, i);
    let u = lists.update(b, l.remove(k));
    assert(list_ok(pages, l, b, opened, -1));
    l.index_of_first_ensures(i);
    assert(l.index_of_first(i) == Some(k));
    assert forall|c: int| 0 <= c < HugeBin::COUNT implies #[trigger] w[c] == u[c] by {
        if c != b {
            lists[c].index_of_first_ensures(i);
            assert(list_ok(pages, lists[c], c, opened, -1));
            assert(!lists[c].contains(i));
        }
    }
    assert(w =~= u);
    assert forall|c: int| #![trigger w[c]] 0 <= c < HugeBin::COUNT implies list_ok(
        pages,
        w[c],
        c,
        opened,
        i,
    ) by {
        assert(list_ok(pages, lists[c], c, opened, -1));
        if c != b {
            assert(w[c] == lists[c]);
            assert forall|m: int| #![trigger w[c][m]] 0 <= m < w[c].len() implies w[c][m] != i by {
                assert(lists[c].contains(lists[c][m]));
            }
        }
    }
    assert forall|j: int| 0 <= j < opened && j != i implies #[trigger] is_filed(pages, w, j) by {
        let c = pages[j].bin().number();
        assert(is_filed(pages, lists, j));
        assert(lists[c].contains(j));
        let m = choose|m: int| 0 <= m < lists[c].len() && lists[c][m] == j;
        if c == b {
            if m < k {
                assert(w[c][m] == j);
            } else {
                assert(w[c][m - 1] == j);
            }
        } else {
            assert(w[c][m] == j);
        }
    }
}

/// Filing the absent hugepage `i` in the list of its bin, at the tail when it is full and at
/// the head when it is not, keeps the lists.
pub proof fn lemma_filed(pages: Seq<HugePageView>, lists: Seq<Seq<int>>, opened: int, i: int)
    requires
        lists_ok(pages, lists, opened, i),
        0 <= i < opened <= pages.len(),
    ensures
        lists_ok(
            pages,
            filed(lists, i, pages[i].bin().number(), pages[i].full()),
            opened,
            -1,
        ),
{
    let b = pages[i].bin().number();
    let l = lists[b];
    let f = filed(lists, i, b, pages[i].full());
    assert(list_ok(pages, l, b, opened, i));
    assert forall|c: int| #![trigger f[c]] 0 <= c < HugeBin::COUNT implies list_ok(
        pages,
        f[c],
        c,
        opened,
        -1,
    ) by {
        assert(list_ok(pages, lists[c], c, opened, i));
        if c == b {
            let n = f[b];
            if pages[i].full() {
                assert(n == l.push(i));
            } else {
                assert(n[0] == i);
                assert forall|m: int| #![trigger n[m]] 0 < m < n.len() implies n[m] == l[m - 1] by {}
            }
        }
    }
    assert forall|j: int| 0 <= j < opened implies #[trigger] is_filed(pages, f, j) by {
        let c = pages[j].bin().number();
        if j == i {
            if pages[i].full() {
                assert(f[b][l.len() as int] == i);
            } else {
                assert(f[b][0] == i);
            }
        } else {
            assert(is_filed(pages, lists, j));
            assert(lists[c].contains(j));
            let m = choose|m: int| 0 <= m < lists[c].len() && lists[c][m] == j;
            if c == b && !pages[i].full() {
                assert(f[c][m + 1] == j);
            } else {
                assert(f[c][m] == j);
            }
        }
    }
}

/// The lists do not depend on what the absent hugepage is like.
pub proof fn lemma_absent_page(
    pages: Seq<HugePageView>,
    lists: Seq<Seq<int>>,
    opened: int,
    i: int,
    q: HugePageView,
)
    requires
        lists_ok(pages, lists, opened, i),
        0 <= i < opened <= pages.len(),
    ensures
        lists_ok(pages.update(i, q), lists, opened, i),
{
    let n = pages.update(i, q);
    assert forall|b: int| #![trigger lists[b]] 0 <= b < HugeBin::COUNT implies list_ok(
        n,
        lists[b],
        b,
        opened,
        i,
    ) by {
        assert(list_ok(pages, lists[b], b, opened, i));
    }
    assert forall|j: int| 0 <= j < opened && j != i implies #[trigger] is_filed(n, lists, j) by {
        assert(is_filed(pages, lists, j));
        assert(n[j] == pages[j]);
    }
}

impl FillerView {
    /// Base address of hugepage `i`.
    pub open spec fn huge_base(self, i: int) -> int {
        self.base + i * HUGEPAGE_SIZE
    }

    /// The hugepage that covers `addr`; an index outside the region when none does.
    pub open spec fn index_of(self, addr: int) -> int {
        (addr - self.base) / (HUGEPAGE_SIZE as int)
    }

    /// Whether `addr` lies in the tiled region.
    pub open spec fn covers(self, addr: int) -> bool {
        self.base <= addr < self.base + self.pages.len() * HUGEPAGE_SIZE
    }

    /// Whether `addr` lies in an opened hugepage.
    pub open spec fn opened_at(self, addr: int) -> bool {
        self.base <= addr < self.base + self.opened * HUGEPAGE_SIZE
    }

    /// The page of its hugepage that `addr` lies on.
    pub open spec fn page_at(self, addr: int) -> int {
        (addr - self.huge_base(self.index_of(addr))) / (PAGE_SIZE as int)
    }

    /// Whether `addr` is the start of a page.
    pub open spec fn page_aligned(self, addr: int) -> bool {
        (addr - self.base) % (PAGE_SIZE as int) == 0
    }

    /// The region is whole and does not wrap.
    pub open spec fn geometry(self) -> bool {
        &&& 0 <= self.base
        &&& self.base % (HUGEPAGE_SIZE as int) == 0
        &&& 0 < self.pages.len() <= u32::MAX
        &&& self.base + self.pages.len() * HUGEPAGE_SIZE <= usize::MAX
        &&& 0 <= self.opened <= self.pages.len()
        &&& 0 <= self.subreleases
    }

    /// A run of whole hugepages that starts at `i` lies in the opened ones, and no other run
    /// starts on one of its members.
    pub open spec fn run_ok(self, i: int) -> bool {
        self.pages[i].run_len > 0 ==> {
            &&& i + self.pages[i].run_len <= self.opened
            &&& forall|j: int|
                #![trigger self.pages[j]]
                i < j < i + self.pages[i].run_len ==> self.pages[j].in_run && self.pages[j].run_len
                    == 0
        }
    }

    /// What the filler keeps at all times.
    pub open spec fn ok(self) -> bool {
        &&& self.geometry()
        &&& forall|i: int| #![trigger self.pages[i]] 0 <= i < self.pages.len() ==> self.pages[i].ok()
        &&& forall|i: int|
            #![trigger self.pages[i]]
            self.opened <= i < self.pages.len() ==> self.pages[i] == HugePageView::fresh()
        &&& lists_ok(self.pages, self.lists, self.opened, -1)
        &&& forall|i: int| #![trigger self.pages[i]] 0 <= i < self.opened ==> self.run_ok(i)
    }

    /// Every placement has been confirmed: all live pages are backed.
    pub open spec fn confirmed(self) -> bool {
        forall|i: int|
            #![trigger self.pages[i]]
            0 <= i < self.opened ==> self.pages[i].confirmed()
    }

    /// The filler with hugepage `i` turned into `q` and filed anew.
    pub open spec fn with_page(self, i: int, q: HugePageView) -> FillerView {
        FillerView {
            pages: self.pages.update(i, q),
            lists: filed(without(self.lists, i), i, q.bin().number(), q.full()),
            ..self
        }
    }

    /// The filler with the next hugepage opened.
    pub open spec fn with_fresh(self) -> FillerView {
        FillerView {
            opened: self.opened + 1,
            lists: filed(self.lists, self.opened, HugeBin::EmptyBacked.number(), false),
            ..self
        }
    }
}

/// A request for a page run, as the placement policy sees it.
pub struct PlaceRequest {
    /// Pages wanted.
    pub pages: int,
    /// The page offsets admitted are the multiples of this.
    pub stride: int,
    /// Placement hints.
    pub hints: PlaceHints,
}

/// The smaller of two.
pub open spec fn min_of(a: int, b: int) -> int {
    if a <= b {
        a
    } else {
        b
    }
}

/// How many steps apart two lifetimes are.
pub open spec fn lifetime_gap(a: Lifetime, b: Lifetime) -> int {
    if a.rank() >= b.rank() {
        a.rank() - b.rank()
    } else {
        b.rank() - a.rank()
    }
}

/// How good hugepage `p` is for a run of `pages` pages at page `off`. Fuller hugepages, the
/// same hotness, the same lifetime and backed pages score; mixed lifetimes, opening an empty
/// hugepage, backed pages left idle, a gap in front and returned pages cost.
pub open spec fn score(p: HugePageView, hints: PlaceHints, off: int, pages: int) -> int {
    let gap = lifetime_gap(p.lifetime, hints.lifetime);
    let idle = p.committed.len() - p.used() - pages;
    let hotness_match: int = if p.hotness == hints.hotness {
        4
    } else {
        0
    };
    let lifetime_match: int = if p.used() == 0 {
        0
    } else if gap == 0 {
        3
    } else {
        -4 * gap
    };
    let preservation: int = if p.used() == 0 {
        -3
    } else {
        0
    };
    let backed: int = if bitmap::page_run(off, pages).subset_of(p.committed) {
        2
    } else {
        0
    };
    let fragmentation: int = (if idle < 0 {
        0
    } else {
        idle
    }) / 8 + min_of(off, 8);
    p.used() + hotness_match + lifetime_match + preservation + backed - fragmentation
        - p.released.len()
}

/// What a hugepage never used before would score.
pub open spec fn fresh_score(hints: PlaceHints) -> int {
    if hints.hotness == Hotness::Neutral {
        1
    } else {
        -3
    }
}

/// The hugepages of a bin list that a placement looks at: the first
/// [`SCAN_CAP`](crate::filler::SCAN_CAP).
pub open spec fn window(l: Seq<int>) -> Seq<int> {
    l.take(min_of(l.len() as int, crate::filler::SCAN_CAP as int))
}

impl FillerView {
    /// Where in hugepage `i` the request fits first, if it does.
    pub open spec fn fit(self, r: PlaceRequest, i: int) -> Option<usize> {
        bitmap::first_fit(self.pages[i].live, r.pages, r.stride)
    }

    /// The score of hugepage `i` for the request, where it fits first.
    pub open spec fn score_of(self, r: PlaceRequest, i: int) -> int {
        score(self.pages[i], r.hints, self.fit(r, i)->0 as int, r.pages)
    }

    /// Hugepage `i` is better for the request than `j`: a higher score, or the same and a
    /// lower address.
    pub open spec fn better(self, r: PlaceRequest, i: int, j: int) -> bool {
        ||| self.score_of(r, i) > self.score_of(r, j)
        ||| self.score_of(r, i) == self.score_of(r, j) && i < j
    }

    /// Some hugepage of `w` has room for the request.
    pub open spec fn has_fit(self, r: PlaceRequest, w: Seq<int>) -> bool {
        exists|k: int| 0 <= k < w.len() && (#[trigger] self.fit(r, w[k])) is Some
    }

    /// Hugepage `i` is the best of those in `w` that have room for the request.
    pub open spec fn best_among(self, r: PlaceRequest, w: Seq<int>, i: int) -> bool {
        &&& w.contains(i)
        &&& self.fit(r, i) is Some
        &&& forall|k: int|
            0 <= k < w.len() && (#[trigger] self.fit(r, w[k])) is Some && w[k] != i
                ==> self.better(r, i, w[k])
    }

    /// The hugepages that a placement looks at in the bin in place `k` of the packing order.
    pub open spec fn scanned(self, k: int) -> Seq<int> {
        window(self.lists[huge_bin::packing_order()[k].number()])
    }

    /// The bin in place `k` of the packing order is the densest with room for the request.
    pub open spec fn densest(self, r: PlaceRequest, k: int) -> bool {
        &&& 0 <= k < huge_bin::packing_order().len()
        &&& self.has_fit(r, self.scanned(k))
        &&& forall|j: int| 0 <= j < k ==> !self.has_fit(r, #[trigger] self.scanned(j))
    }

    /// Hugepage `i` is the best candidate among the opened hugepages: the best in the densest
    /// bin with room.
    pub open spec fn candidate(self, r: PlaceRequest, i: int) -> bool {
        exists|k: int| #[trigger] self.densest(r, k) && self.best_among(r, self.scanned(k), i)
    }

    /// No opened hugepage that a placement looks at has room.
    #[verifier::opaque]
    pub open spec fn no_candidate(self, r: PlaceRequest) -> bool {
        forall|j: int|
            0 <= j < huge_bin::packing_order().len() ==> !self.has_fit(r, #[trigger] self.scanned(j))
    }

    /// The request goes to page `off` of hugepage `hp`. With a candidate that scores at least
    /// as much as a fresh hugepage, or with no fresh one left, it is the candidate; else it is
    /// the next fresh hugepage.
    #[verifier::opaque]
    pub open spec fn goes_to(self, r: PlaceRequest, hp: int, off: int) -> bool {
        ||| {
            &&& hp < self.opened
            &&& self.candidate(r, hp)
            &&& self.fit(r, hp) == Some(off as usize)
            &&& off == off as usize
            &&& self.score_of(r, hp) >= fresh_score(r.hints) || self.opened == self.pages.len()
        }
        ||| {
            &&& hp == self.opened < self.pages.len()
            &&& off == 0
            &&& self.no_candidate(r) || exists|c: int| #[trigger]
                self.candidate(r, c) && self.score_of(r, c) < fresh_score(r.hints)
        }
    }

    /// The filler with the request placed at page `off` of hugepage `hp`, which is opened
    /// first when it is the next fresh one.
    pub open spec fn placed(self, r: PlaceRequest, hp: int, off: int) -> FillerView {
        let v = if hp == self.opened {
            self.with_fresh()
        } else {
            self
        };
        v.with_page(hp, v.pages[hp].carved(off, r.pages, r.hints))
    }

    /// Turning a hugepage into another good one, with its place in runs unchanged, keeps the
    /// filler good.
    pub proof fn lemma_with_page(self, i: int, q: HugePageView)
        requires
            self.ok(),
            0 <= i < self.opened,
            q.ok(),
            q.run_len == self.pages[i].run_len,
            q.in_run == self.pages[i].in_run,
            lists_ok(self.with_page(i, q).pages, self.with_page(i, q).lists, self.opened, -1),
        ensures
            self.with_page(i, q).ok(),
    {
        let n = self.with_page(i, q);
        assert forall|j: int| #![trigger n.pages[j]] 0 <= j < n.opened implies n.run_ok(j) by {
            assert(self.run_ok(j));
            assert(self.pages[j].run_len == n.pages[j].run_len);
            assert forall|m: int|
                #![trigger n.pages[m]]
                j < m < j + n.pages[j].run_len implies n.pages[m].in_run && n.pages[m].run_len
                == 0 by {
                assert(self.pages[m].in_run && self.pages[m].run_len == 0);
            }
        }
    }
}

/// Whether an alignment can be had inside a hugepage: a power of two up to its size.
pub open spec fn alignable(align: int) -> bool {
    crate::overflow::is_pow2(align) && align <= HUGEPAGE_SIZE
}

/// The page offsets of that alignment inside a hugepage are the multiples of this.
pub open spec fn stride_of(align: int) -> int {
    if align <= PAGE_SIZE {
        1
    } else {
        align / (PAGE_SIZE as int)
    }
}

impl HugePageView {
    /// The hugepage with the allocation of `old_pages` pages at `off` cut to `new_pages`.
    pub open spec fn trimmed(self, off: int, old_pages: int, new_pages: int) -> HugePageView {
        HugePageView {
            live: self.live.difference(bitmap::page_run(off + new_pages, old_pages - new_pages)),
            ..self
        }
    }

    /// Whether the hugepage is cold, or sparse enough for its free pages to be returned.
    pub open spec fn cold_or_sparse(self) -> bool {
        ||| self.bin() == HugeBin::ColdSparse
        ||| self.bin() == HugeBin::Sparse
        ||| self.bin() == HugeBin::NearlyEmpty
        ||| self.bin() == HugeBin::EmptyBacked
        ||| self.hotness == Hotness::Cold
    }

    /// Whether the `pages` pages at `off` may be returned: none is live, all are backed, and
    /// either there is pressure, or the hugepage is cold or sparse and the run is large
    /// enough for how dense the hugepage is.
    pub open spec fn may_return(self, off: int, pages: int, pressure: bool) -> bool {
        &&& 0 < pages
        &&& 0 <= off
        &&& off + pages <= PAGES_PER_HUGEPAGE
        &&& self.live.disjoint(bitmap::page_run(off, pages))
        &&& bitmap::page_run(off, pages).subset_of(self.committed)
        &&& pressure || (self.cold_or_sparse() && pages >= self.used() / (
        crate::filler::FRAGMENTATION_COST_DIVISOR as int))
    }

    /// Backing pages keeps a hugepage good.
    pub proof fn lemma_backed(self, off: int, pages: int)
        requires
            self.ok(),
            0 <= off,
            off + pages <= PAGES_PER_HUGEPAGE,
        ensures
            self.backed(off, pages).ok(),
    {
        self.lemma_same_allocations(self.backed(off, pages));
    }

    /// Where allocations start depends on the live pages and the heads alone.
    pub proof fn lemma_same_allocations(self, q: HugePageView)
        requires
            self.ok(),
            q.live == self.live,
            q.heads == self.heads,
        ensures
            forall|p: int| #[trigger] q.started(p),
    {
        assert forall|p: int| #[trigger] q.started(p) by {
            assert(self.started(p));
        }
    }

    /// Freeing an allocation outside a run of hugepages keeps a hugepage good.
    pub proof fn lemma_freed(self, off: int, pages: int)
        requires
            self.ok(),
            !self.in_run,
            self.is_extent(off, pages),
        ensures
            self.freed(off, pages).ok(),
    {
        let q = self.freed(off, pages);
        let run = bitmap::page_run(off, pages);
        assert forall|p: int| #[trigger] q.started(p) by {
            assert(self.started(p));
        }
        assert forall|h: int| q.heads.contains(h) implies q.live.contains(h) by {
            assert(self.heads.contains(h));
            assert(h != off);
            if run.contains(h) {
                assert(bitmap::page_run(off + 1, pages - 1).contains(h));
            }
        }
    }

    /// Cutting an allocation outside a run of hugepages keeps a hugepage good, and leaves an
    /// allocation of the new length.
    pub proof fn lemma_trimmed(self, off: int, old_pages: int, new_pages: int)
        requires
            self.ok(),
            !self.in_run,
            self.is_extent(off, old_pages),
            0 < new_pages < old_pages,
        ensures
            self.trimmed(off, old_pages, new_pages).ok(),
            self.trimmed(off, old_pages, new_pages).is_extent(off, new_pages),
    {
        let q = self.trimmed(off, old_pages, new_pages);
        assert forall|p: int| #[trigger] q.started(p) by {
            assert(self.started(p));
        }
        let tail = bitmap::page_run(off + new_pages, old_pages - new_pages);
        let inner = bitmap::page_run(off + 1, old_pages - 1);
        assert forall|h: int| q.heads.contains(h) implies q.live.contains(h) by {
            if tail.contains(h) {
                assert(inner.contains(h));
            }
        }
        assert forall|h: int| bitmap::page_run(off + 1, new_pages - 1).contains(h) implies !q.heads.contains(
            h,
        ) by {
            assert(inner.contains(h));
        }
        assert forall|h: int| bitmap::page_run(off, new_pages).contains(h) implies q.live.contains(
            h,
        ) by {
            assert(bitmap::page_run(off, old_pages).contains(h));
        }
        assert(tail.contains(off + new_pages));
    }

    /// Returning free backed pages keeps a hugepage good.
    pub proof fn lemma_returned(self, off: int, pages: int)
        requires
            self.ok(),
            0 <= off,
            off + pages <= PAGES_PER_HUGEPAGE,
        ensures
            self.returned(off, pages).ok(),
    {
        self.lemma_same_allocations(self.returned(off, pages));
    }
}

impl FillerView {
    /// Whether `(hp, base, pages)` names a page run of an opened hugepage.
    pub open spec fn names_run(self, hp: int, base: int, pages: int) -> bool {
        &&& 0 <= hp < self.opened
        &&& 0 < pages
        &&& self.huge_base(hp) <= base
        &&& (base - self.huge_base(hp)) % (PAGE_SIZE as int) == 0
        &&& (base - self.huge_base(hp)) / (PAGE_SIZE as int) + pages <= PAGES_PER_HUGEPAGE
    }

    /// The page of hugepage `hp` at which `base` lies.
    pub open spec fn offset_in(self, hp: int, base: int) -> int {
        (base - self.huge_base(hp)) / (PAGE_SIZE as int)
    }

    /// Whether `base` and `pages` are exactly a live allocation that does not belong to a run
    /// of whole hugepages.
    pub open spec fn is_allocation(self, base: int, pages: int) -> bool {
        &&& self.opened_at(base)
        &&& self.page_aligned(base)
        &&& !self.pages[self.index_of(base)].in_run
        &&& self.pages[self.index_of(base)].is_extent(self.page_at(base), pages)
    }

    /// Whether the run of `pages` pages at `base` may be returned.
    pub open spec fn may_return(self, base: int, pages: int, pressure: bool) -> bool {
        &&& self.opened_at(base)
        &&& self.page_aligned(base)
        &&& self.pages[self.index_of(base)].may_return(self.page_at(base), pages, pressure)
    }
}

impl HugePageView {
    /// The hugepage with every page live, as one allocation.
    pub open spec fn taken_whole(self) -> HugePageView {
        self.carved(0, PAGES_PER_HUGEPAGE as int, PlaceHints::neutral())
    }

    /// The hugepage after its run of whole hugepages was freed.
    pub open spec fn emptied(self) -> HugePageView {
        HugePageView {
            live: Set::empty(),
            heads: Set::empty(),
            run_len: 0,
            in_run: false,
            hotness: Hotness::Neutral,
            lifetime: Lifetime::Unspecified,
            ..self
        }
    }

    /// The hugepage with exactly its live pages backed.
    pub open spec fn backed_whole(self) -> HugePageView {
        HugePageView { committed: self.live, released: Set::empty(), ..self }
    }

    /// The hugepage as a member of a run, whose length it records when it is the first.
    pub open spec fn as_member(self, run_len: int) -> HugePageView {
        HugePageView { in_run: true, run_len, ..self }
    }
}

impl FillerView {
    /// Each of the `n` hugepages from `start` on turned by `f` and filed anew, in order.
    pub open spec fn each_page(
        self,
        start: int,
        n: int,
        f: spec_fn(HugePageView) -> HugePageView,
    ) -> FillerView
        decreases n,
    {
        if n <= 0 {
            self
        } else {
            let u = self.each_page(start, n - 1, f);
            u.with_page(start + n - 1, f(u.pages[start + n - 1]))
        }
    }

    /// The next `n` hugepages opened one by one, each taken whole as it is opened.
    pub open spec fn take_fresh(self, n: int) -> FillerView
        decreases n,
    {
        if n <= 0 {
            self
        } else {
            let u = self.take_fresh(n - 1).with_fresh();
            let i = self.opened + n - 1;
            u.with_page(i, u.pages[i].taken_whole())
        }
    }

    /// The `n` hugepages from `start` on marked as one run.
    pub open spec fn marked_run(self, start: int, n: int) -> FillerView {
        FillerView {
            pages: Seq::new(
                self.pages.len(),
                |i: int|
                    if start <= i < start + n {
                        self.pages[i].as_member(
                            if i == start {
                                n
                            } else {
                                0
                            },
                        )
                    } else {
                        self.pages[i]
                    },
            ),
            ..self
        }
    }

    /// The `n` hugepages from `start` on are opened and hold nothing live.
    pub open spec fn empty_run(self, start: int, n: int) -> bool {
        &&& 0 <= start
        &&& start + n <= self.opened
        &&& forall|i: int| #![trigger self.pages[i]] start <= i < start + n ==> self.pages[i].used() == 0
    }

    /// The lowest `n` consecutive opened hugepages that hold nothing live start at `start`.
    pub open spec fn first_empty_run(self, start: int, n: int) -> bool {
        &&& self.empty_run(start, n)
        &&& forall|s: int| 0 <= s < start ==> !#[trigger] self.empty_run(s, n)
    }

    /// No `n` consecutive opened hugepages hold nothing live.
    pub open spec fn no_empty_run(self, n: int) -> bool {
        forall|s: int| !#[trigger] self.empty_run(s, n)
    }

    /// The filler with the `n` hugepages from `start` on reserved: opened empty ones, or the
    /// next fresh ones.
    pub open spec fn reserved(self, start: int, n: int) -> FillerView {
        (if start == self.opened {
            self.take_fresh(n)
        } else {
            self.each_page(start, n, |p: HugePageView| p.taken_whole())
        }).marked_run(start, n)
    }

    /// Some page of the `n` hugepages from `start` on is not backed.
    pub open spec fn unbacked_in(self, start: int, n: int) -> bool {
        exists|i: int|
            start <= i < start + n && !bitmap::all_pages().subset_of(
                (#[trigger] self.pages[i]).committed,
            )
    }

    /// Turning some hugepages leaves the geometry and the others as they are.
    pub proof fn lemma_each_page(
        self,
        start: int,
        n: int,
        f: spec_fn(HugePageView) -> HugePageView,
    )
        requires
            0 <= start,
            0 <= n,
            start + n <= self.pages.len(),
        ensures
            ({
                let u = self.each_page(start, n, f);
                &&& u.base == self.base
                &&& u.opened == self.opened
                &&& u.subreleases == self.subreleases
                &&& u.pages.len() == self.pages.len()
                &&& forall|i: int|
                    #![trigger u.pages[i]]
                    0 <= i < u.pages.len() ==> u.pages[i] == (if start <= i < start + n {
                        f(self.pages[i])
                    } else {
                        self.pages[i]
                    })
            }),
        decreases n,
    {
        if n > 0 {
            self.lemma_each_page(start, n - 1, f);
        }
    }

    /// Opening hugepages and taking them whole leaves the others as they are.
    pub proof fn lemma_take_fresh(self, n: int)
        requires
            0 <= self.opened,
            0 <= n,
            self.opened + n <= self.pages.len(),
        ensures
            ({
                let u = self.take_fresh(n);
                &&& u.base == self.base
                &&& u.opened == self.opened + n
                &&& u.subreleases == self.subreleases
                &&& u.pages.len() == self.pages.len()
                &&& forall|i: int|
                    #![trigger u.pages[i]]
                    0 <= i < u.pages.len() ==> u.pages[i] == (if self.opened <= i < self.opened + n {
                        self.pages[i].taken_whole()
                    } else {
                        self.pages[i]
                    })
            }),
        decreases n,
    {
        if n > 0 {
            self.lemma_take_fresh(n - 1);
        }
    }
}

impl HugePageView {
    /// A hugepage taken whole is full.
    pub proof fn lemma_taken_whole(self)
        requires
            self.ok(),
            self.used() == 0,
        ensures
            self.taken_whole().full(),
            !self.in_run,
            self.run_len == 0,
    {
        bitmap::lemma_pages_bounded(self.live);
        assert(self.taken_whole().live =~= bitmap::all_pages());
        bitmap::lemma_pages_bounded(bitmap::all_pages());
    }
}

impl FillerView {
    /// Whether some page of a run is not backed, one hugepage at a time.
    pub proof fn lemma_unbacked_step(self, start: int, k: int)
        requires
            0 <= k,
        ensures
            !self.unbacked_in(start, 0),
            self.unbacked_in(start, k + 1) <==> self.unbacked_in(start, k)
                || !bitmap::all_pages().subset_of(self.pages[start + k].committed),
    {
        if self.unbacked_in(start, k) {
            let i = choose|i: int|
                start <= i < start + k && !bitmap::all_pages().subset_of(
                    (#[trigger] self.pages[i]).committed,
                );
            assert(start <= i < start + k + 1 && !bitmap::all_pages().subset_of(
                self.pages[i].committed,
            ));
        }
    }

    /// Emptying the members of a run from its start on keeps the filler good: once the first
    /// one is emptied, no run claims the others.
    pub proof fn lemma_dropped_member(self, v: FillerView, start: int, n: int, k: int)
        requires
            v.ok(),
            self.ok(),
            0 <= start,
            0 <= k < n,
            start + n <= v.opened,
            v.pages[start].run_len == n,
            v.run_ok(start),
            self == v.each_page(start, k, |p: HugePageView| p.emptied()),
            lists_ok(
                self.with_page(start + k, self.pages[start + k].emptied()).pages,
                self.with_page(start + k, self.pages[start + k].emptied()).lists,
                self.opened,
                -1,
            ),
        ensures
            self.with_page(start + k, self.pages[start + k].emptied()).ok(),
    {
        v.lemma_each_page(start, k, |p: HugePageView| p.emptied());
        let j = start + k;
        let q = self.pages[j].emptied();
        let w = self.with_page(j, q);
        assert(self.pages[j].ok());
        assert forall|i: int| #![trigger w.pages[i]] 0 <= i < w.opened implies w.run_ok(i) by {
            assert(self.run_ok(i));
            if w.pages[i].run_len > 0 {
                assert(i != j);
                assert(self.pages[i] == w.pages[i]);
                assert forall|m: int|
                    #![trigger w.pages[m]]
                    i < m < i + w.pages[i].run_len implies w.pages[m].in_run && w.pages[m].run_len
                    == 0 by {
                    assert(self.pages[m].in_run && self.pages[m].run_len == 0);
                    if m == j {
                        if k == 0 {
                            assert(self.pages[j].run_len == n);
                        } else {
                            v.lemma_member_of_one_run(i, start, j);
                        }
                    }
                }
            }
        }
    }

    /// A hugepage is a member of one run only.
    proof fn lemma_member_of_one_run(self, a: int, b: int, m: int)
        requires
            self.ok(),
            0 <= a < self.opened,
            0 <= b < self.opened,
            a < m < a + self.pages[a].run_len,
            b <= m < b + self.pages[b].run_len,
        ensures
            a == b,
    {
        assert(self.run_ok(a));
        assert(self.run_ok(b));
        assert(self.pages[m].run_len == 0);
        if a < b {
            assert(self.pages[b].run_len == 0);
        } else if b < a {
            assert(self.pages[a].run_len == 0);
        }
    }
}

/// What the coverage statistics add up over the opened hugepages.
pub enum Metric {
    /// Live bytes.
    Live,
    /// Live bytes on hugepages with no returned page.
    LiveIntact,
    /// Live bytes on hugepages with a returned page.
    LivePartial,
    /// Backed bytes.
    Backed,
    /// Backed bytes of hugepages with nothing live.
    EmptyBacked,
    /// Returned bytes of hugepages with nothing live.
    EmptyReleased,
    /// Returned bytes of hugepages with something live.
    PartialReleased,
    /// Backed bytes beyond the live ones, on hugepages with something live.
    Fragmentation,
    /// Returned bytes.
    Released,
    /// Hugepages with nothing live that hold a backed page.
    EmptyBackedPages,
    /// Hugepages in one bin.
    InBin(int),
}

/// What one hugepage adds to a metric.
pub open spec fn amount(m: Metric, p: HugePageView) -> int {
    let page = PAGE_SIZE as int;
    match m {
        Metric::Live => p.used() * page,
        Metric::LiveIntact => if p.released.len() == 0 {
            p.used() * page
        } else {
            0
        },
        Metric::LivePartial => if p.released.len() > 0 {
            p.used() * page
        } else {
            0
        },
        Metric::Backed => p.committed.len() * page,
        Metric::EmptyBacked => if p.used() == 0 {
            p.committed.len() * page
        } else {
            0
        },
        Metric::EmptyReleased => if p.used() == 0 {
            p.released.len() * page
        } else {
            0
        },
        Metric::PartialReleased => if p.used() > 0 {
            p.released.len() * page
        } else {
            0
        },
        Metric::Fragmentation => if p.used() > 0 && p.committed.len() > p.used() {
            (p.committed.len() - p.used()) * page
        } else {
            0
        },
        Metric::Released => p.released.len() * page,
        Metric::EmptyBackedPages => if p.used() == 0 && p.committed.len() > 0 {
            1
        } else {
            0
        },
        Metric::InBin(b) => if p.bin().number() == b {
            1
        } else {
            0
        },
    }
}

/// A metric over the first `n` hugepages.
pub open spec fn sum_pages(m: Metric, pages: Seq<HugePageView>, n: int) -> int
    decreases n,
{
    if n <= 0 {
        0
    } else {
        sum_pages(m, pages, n - 1) + amount(m, pages[n - 1])
    }
}

impl FillerView {
    /// A metric over the opened hugepages.
    pub open spec fn total(self, m: Metric) -> int {
        sum_pages(m, self.pages, self.opened)
    }

    /// The coverage statistics of the filler.
    pub open spec fn has_stats(self, st: huge_bin::HugeStats) -> bool {
        &&& st.coverage_bytes == self.opened * HUGEPAGE_SIZE
        &&& st.live_bytes_on_intact == self.total(Metric::LiveIntact)
        &&& st.live_bytes_on_partial == self.total(Metric::LivePartial)
        &&& st.empty_backed_bytes == self.total(Metric::EmptyBacked)
        &&& st.empty_released_bytes == self.total(Metric::EmptyReleased)
        &&& st.partial_subreleased_bytes == self.total(Metric::PartialReleased)
        &&& st.fragmentation_bytes == self.total(Metric::Fragmentation)
        &&& st.live_total_bytes == self.total(Metric::Live)
        &&& forall|b: int|
            0 <= b < HugeBin::COUNT ==> #[trigger] st.bins@[b] == self.total(Metric::InBin(b))
    }
}

/// What one good hugepage adds to the metrics.
pub proof fn lemma_amounts(p: HugePageView)
    requires
        p.ok(),
    ensures
        0 <= amount(Metric::Live, p) <= HUGEPAGE_SIZE,
        0 <= amount(Metric::LiveIntact, p) <= HUGEPAGE_SIZE,
        0 <= amount(Metric::LivePartial, p) <= HUGEPAGE_SIZE,
        0 <= amount(Metric::Backed, p) <= HUGEPAGE_SIZE,
        0 <= amount(Metric::EmptyBacked, p) <= HUGEPAGE_SIZE,
        0 <= amount(Metric::EmptyReleased, p) <= HUGEPAGE_SIZE,
        0 <= amount(Metric::PartialReleased, p) <= HUGEPAGE_SIZE,
        0 <= amount(Metric::Fragmentation, p) <= HUGEPAGE_SIZE,
        0 <= amount(Metric::EmptyBackedPages, p) <= 1,
        amount(Metric::Live, p) == amount(Metric::LiveIntact, p) + amount(Metric::LivePartial, p),
        amount(Metric::Released, p) == amount(Metric::EmptyReleased, p) + amount(
            Metric::PartialReleased,
            p,
        ),
        amount(Metric::Live, p) + amount(Metric::Fragmentation, p) + amount(Metric::EmptyBacked, p)
            + amount(Metric::Released, p) <= HUGEPAGE_SIZE || !p.confirmed(),
        p.confirmed() ==> amount(Metric::Backed, p) == amount(Metric::Live, p) + amount(
            Metric::Fragmentation,
            p,
        ) + amount(Metric::EmptyBacked, p),
{
    bitmap::lemma_pages_bounded(p.live);
    bitmap::lemma_pages_bounded(p.committed);
    bitmap::lemma_pages_bounded(p.released);
    if p.confirmed() {
        lemma_len_subset(p.live, p.committed);
        lemma_set_disjoint_lens(p.committed, p.released);
        bitmap::lemma_pages_bounded(p.committed.union(p.released));
    }
}

/// Every metric over good hugepages is bounded.
pub proof fn lemma_sum_bounds(m: Metric, pages: Seq<HugePageView>, n: int)
    requires
        0 <= n <= pages.len(),
        forall|i: int| #![trigger pages[i]] 0 <= i < pages.len() ==> pages[i].ok(),
        !(m is Released),
    ensures
        0 <= sum_pages(m, pages, n),
        (m is InBin || m is EmptyBackedPages) ==> sum_pages(m, pages, n) <= n,
        !(m is InBin || m is EmptyBackedPages) ==> sum_pages(m, pages, n) <= n * HUGEPAGE_SIZE,
    decreases n,
{
    if n > 0 {
        lemma_sum_bounds(m, pages, n - 1);
        lemma_amounts(pages[n - 1]);
    }
}

/// Changing one hugepage changes a metric by what that hugepage adds.
pub proof fn lemma_sum_update(
    m: Metric,
    pages: Seq<HugePageView>,
    n: int,
    i: int,
    q: HugePageView,
)
    requires
        0 <= i < pages.len(),
        n <= pages.len(),
    ensures
        sum_pages(m, pages.update(i, q), n) == sum_pages(m, pages, n) + (if i < n {
            amount(m, q) - amount(m, pages[i])
        } else {
            0
        }),
    decreases n,
{
    if n > 0 {
        lemma_sum_update(m, pages, n - 1, i, q);
    }
}

/// Hugepages that add nothing do not count.
pub proof fn lemma_sum_gap(m: Metric, pages: Seq<HugePageView>, lo: int, hi: int)
    requires
        0 <= lo <= hi,
        forall|i: int| #![trigger pages[i]] lo <= i < hi ==> amount(m, pages[i]) == 0,
    ensures
        sum_pages(m, pages, hi) == sum_pages(m, pages, lo),
    decreases hi - lo,
{
    if lo < hi {
        lemma_sum_gap(m, pages, lo, hi - 1);
    }
}

/// The bins of a hugepage: exactly one holds it.
pub proof fn lemma_one_bin(p: HugePageView)
    ensures
        0 <= p.bin().number() < HugeBin::COUNT,
        amount(Metric::InBin(0), p) + amount(Metric::InBin(1), p) + amount(Metric::InBin(2), p)
            + amount(Metric::InBin(3), p) + amount(Metric::InBin(4), p) + amount(
            Metric::InBin(5),
            p,
        ) + amount(Metric::InBin(6), p) + amount(Metric::InBin(7), p) + amount(Metric::InBin(8), p)
            == 1,
{
}

/// The coverage statistics reconcile: the live bytes are those on intact hugepages and those
/// on partly returned ones; the returned bytes are those of empty hugepages and those of
/// hugepages in use; and every opened hugepage is counted in exactly one bin.
pub proof fn law_coverage_reconciles(pages: Seq<HugePageView>, n: int)
    requires
        0 <= n <= pages.len(),
        forall|i: int| #![trigger pages[i]] 0 <= i < pages.len() ==> pages[i].ok(),
    ensures
        sum_pages(Metric::Live, pages, n) == sum_pages(Metric::LiveIntact, pages, n) + sum_pages(
            Metric::LivePartial,
            pages,
            n,
        ),
        sum_pages(Metric::Released, pages, n) == sum_pages(Metric::EmptyReleased, pages, n)
            + sum_pages(Metric::PartialReleased, pages, n),
        sum_pages(Metric::InBin(0), pages, n) + sum_pages(Metric::InBin(1), pages, n) + sum_pages(
            Metric::InBin(2),
            pages,
            n,
        ) + sum_pages(Metric::InBin(3), pages, n) + sum_pages(Metric::InBin(4), pages, n)
            + sum_pages(Metric::InBin(5), pages, n) + sum_pages(Metric::InBin(6), pages, n)
            + sum_pages(Metric::InBin(7), pages, n) + sum_pages(Metric::InBin(8), pages, n) == n,
    decreases n,
{
    if n > 0 {
        law_coverage_reconciles(pages, n - 1);
        lemma_amounts(pages[n - 1]);
        lemma_one_bin(pages[n - 1]);
    }
}

/// The backed bytes of good hugepages, whose live pages are all backed, are accounted for:
/// they are the live bytes, the fragmentation and the backed bytes of empty hugepages.
pub proof fn lemma_backed_bytes(pages: Seq<HugePageView>, n: int)
    requires
        0 <= n <= pages.len(),
        forall|i: int| #![trigger pages[i]] 0 <= i < n ==> pages[i].ok() && pages[i].confirmed(),
    ensures
        sum_pages(Metric::Backed, pages, n) == sum_pages(Metric::Live, pages, n) + sum_pages(
            Metric::Fragmentation,
            pages,
            n,
        ) + sum_pages(Metric::EmptyBacked, pages, n),
        sum_pages(Metric::Backed, pages, n) + sum_pages(Metric::Released, pages, n) <= n
            * HUGEPAGE_SIZE,
    decreases n,
{
    if n > 0 {
        lemma_backed_bytes(pages, n - 1);
        lemma_amounts(pages[n - 1]);
    }
}

/// Once every placement is confirmed, the live bytes, the fragmentation and the empty backed
/// bytes that the statistics report are together the backed bytes, and with the returned bytes
/// they lie within the coverage.
pub proof fn law_backed_bytes_are_accounted_for(v: FillerView, st: huge_bin::HugeStats)
    requires
        v.ok(),
        v.confirmed(),
        v.has_stats(st),
    ensures
        st.live_total_bytes + st.fragmentation_bytes + st.empty_backed_bytes == v.total(
            Metric::Backed,
        ),
        v.total(Metric::Backed) + st.empty_released_bytes + st.partial_subreleased_bytes
            <= st.coverage_bytes,
{
    lemma_backed_bytes(v.pages, v.opened);
    law_coverage_reconciles(v.pages, v.opened);
}

/// The hugepages below `n` whose bin is `b`.
pub open spec fn members(pages: Seq<HugePageView>, n: int, b: int) -> Set<int> {
    Set::new(|i: int| 0 <= i < n && pages[i].bin().number() == b)
}

/// Counting the hugepages of a bin.
pub proof fn lemma_members(pages: Seq<HugePageView>, n: int, b: int)
    requires
        0 <= n,
    ensures
        members(pages, n, b).finite(),
        members(pages, n, b).len() == sum_pages(Metric::InBin(b), pages, n),
    decreases n,
{
    if n == 0 {
        assert(members(pages, 0, b) =~= Set::empty());
    } else {
        lemma_members(pages, n - 1, b);
        if pages[n - 1].bin().number() == b {
            assert(members(pages, n, b) =~= members(pages, n - 1, b).insert(n - 1));
        } else {
            assert(members(pages, n, b) =~= members(pages, n - 1, b));
        }
    }
}

/// The list of a bin is as long as the bin has hugepages.
pub proof fn lemma_list_len(pages: Seq<HugePageView>, lists: Seq<Seq<int>>, opened: int, b: int)
    requires
        lists_ok(pages, lists, opened, -1),
        0 <= opened <= pages.len(),
        0 <= b < HugeBin::COUNT,
    ensures
        lists[b].len() == sum_pages(Metric::InBin(b), pages, opened),
{
    let l = lists[b];
    let s = members(pages, opened, b);
    lemma_members(pages, opened, b);
    assert(list_ok(pages, l, b, opened, -1));
    l.unique_seq_to_set();
    assert(l.to_set() =~= s) by {
        assert forall|i: int| s.contains(i) implies l.to_set().contains(i) by {
            assert(is_filed(pages, lists, i));
        }
    }
}

} // verus!
