//! The hugepage filler: packs page runs into hugepages.
use vstd::prelude::*;
use vstd::set_lib::*;
use crate::bitmap;
use crate::bitmap::{PageBitmap, HUGEPAGE_SIZE, PAGES_PER_HUGEPAGE, PAGE_SIZE};
use crate::bootstrap::BumpArena;
use crate::filler_model;
use crate::filler_model::{FillerView, HugePageView};
use crate::flags::Lifetime;
use crate::huge_bin;
use crate::huge_bin::{classify_bin, packing_bin, Hotness, HugeBin, HugeStats, PlaceHints};
use crate::overflow;
use crate::overflow::is_power_of_two;

verus! {

/// The "no hugepage" index that ends a bin list.
pub const NIL: u32 = u32::MAX;

/// How many hugepages of one bin a placement looks at.
pub const SCAN_CAP: usize = 64;

/// A subrelease must return at least the hugepage's live page count over this.
pub const FRAGMENTATION_COST_DIVISOR: usize = 8;

/// What one step of lifetime mismatch costs in the placement score.
pub const LIFETIME_MISMATCH_WEIGHT: i64 = 4;

/// Metadata bytes of one hugepage descriptor.
pub const HUGE_SLOT_BYTES: usize = 88;

/// One hugepage descriptor.
#[derive(Clone, Copy)]
pub struct HugePageSlot {
    live: PageBitmap,
    committed: PageBitmap,
    released: PageBitmap,
    heads: PageBitmap,
    bin_prev: u32,
    bin_next: u32,
    run_len: u32,
    in_run: bool,
    hotness: Hotness,
    lifetime: Lifetime,
    bin: HugeBin,
    touched: bool,
}

impl HugePageSlot {
    spec fn spec_view(self) -> HugePageView {
        HugePageView {
            live: self.live@,
            committed: self.committed@,
            released: self.released@,
            heads: self.heads@,
            run_len: self.run_len as int,
            in_run: self.in_run,
            hotness: self.hotness,
            lifetime: self.lifetime,
        }
    }

    /// Live pages.
    fn used(&self) -> (res: usize)
        ensures
            res == self.spec_view().used(),
            res <= PAGES_PER_HUGEPAGE,
    {
        self.live.count()
    }

    /// Returned pages.
    fn subreleased(&self) -> (res: usize)
        ensures
            res == self.spec_view().released.len(),
            res <= PAGES_PER_HUGEPAGE,
    {
        self.released.count()
    }

    /// The bin that occupancy and state imply.
    fn target_bin(&self) -> (res: HugeBin)
        ensures
            res == self.spec_view().bin(),
    {
        classify_bin(self.used(), PAGES_PER_HUGEPAGE, self.subreleased(), self.hotness)
    }
}

/// A placed page run. The caller backs [`commit_run`](Self::commit_run) and confirms with
/// [`HugePageFiller::mark_committed`], or rolls back with [`HugePageFiller::free`].
#[derive(Clone, Copy, PartialEq, Eq, Debug)]
pub struct Placement {
    /// The hugepage the run was carved from.
    pub hugepage: u32,
    /// Base address of the run.
    pub base: usize,
    /// Pages of the run.
    pub pages: usize,
    /// Region offset and length to back, or `None` when the whole run already is.
    pub commit_run: Option<(usize, usize)>,
}

/// What a free did.
#[derive(Clone, Copy, PartialEq, Eq, Debug, Structural)]
pub struct FreeReport {
    /// The run was a live allocation and is now free.
    pub valid: bool,
    /// The hugepage holds no live page any more.
    pub now_empty: bool,
}

/// A run of whole hugepages. The caller backs [`commit_run`](Self::commit_run) and confirms
/// with [`HugePageFiller::mark_run_committed`], or rolls back with
/// [`HugePageFiller::free_hugepages`].
#[derive(Clone, Copy, PartialEq, Eq, Debug)]
pub struct HugeRun {
    /// Base address of the run.
    pub base: usize,
    /// Hugepages of the run.
    pub hugepages: usize,
    /// Region offset and length to back, or `None` when the whole run already is.
    pub commit_run: Option<(usize, usize)>,
}

/// The byte range that a subrelease decided to return.
#[derive(Clone, Copy, PartialEq, Eq, Debug, Structural)]
pub struct Subrelease {
    /// The hugepage acted on.
    pub hugepage: u32,
    /// Region offset of the returned run.
    pub region_offset: usize,
    /// Bytes returned.
    pub len: usize,
}

/// Whether `capacity` hugepages from `base` on make a region.
pub open spec fn valid_region(base: int, capacity: int) -> bool {
    &&& 0 < capacity <= u32::MAX
    &&& base % (HUGEPAGE_SIZE as int) == 0
    &&& base + capacity * HUGEPAGE_SIZE <= usize::MAX
}

/// The filler of a region in which nothing was placed yet.
pub open spec fn empty_filler(base: int, capacity: int) -> FillerView {
    FillerView {
        base,
        pages: Seq::new(capacity as nat, |i: int| HugePageView::fresh()),
        opened: 0,
        lists: Seq::new(HugeBin::COUNT as nat, |b: int| Seq::empty()),
        subreleases: 0,
    }
}

/// The filler: address and bitmap bookkeeping over one region, with no calls to the provider
/// of the memory.
pub struct HugePageFiller {
    slots: Vec<HugePageSlot>,
    region_base: usize,
    next_untouched: u32,
    bins: [u32; HugeBin::COUNT],
    bin_tails: [u32; HugeBin::COUNT],
    subrelease_events: u64,
    lists: Ghost<Seq<Seq<int>>>,
}

spec fn prev_of(l: Seq<int>, k: int) -> int {
    if k == 0 {
        NIL as int
    } else {
        l[k - 1]
    }
}

spec fn next_of(l: Seq<int>, k: int) -> int {
    if k == l.len() - 1 {
        NIL as int
    } else {
        l[k + 1]
    }
}

/// The links of the slots, with the two ends, spell the list `l`.
spec fn linked(slots: Seq<HugePageSlot>, l: Seq<int>, head: u32, tail: u32) -> bool {
    &&& head as int == (if l.len() == 0 {
        NIL as int
    } else {
        l[0]
    })
    &&& tail as int == (if l.len() == 0 {
        NIL as int
    } else {
        l[l.len() - 1]
    })
    &&& forall|k: int| 0 <= k < l.len() ==> #[trigger] link_at(slots, l, k)
}

/// The links of the hugepage in place `k` of `l` name its neighbours.
spec fn link_at(slots: Seq<HugePageSlot>, l: Seq<int>, k: int) -> bool {
    slots[l[k]].bin_prev as int == prev_of(l, k) && slots[l[k]].bin_next as int == next_of(l, k)
}

/// Distinct hugepage indices.
spec fn distinct_below(l: Seq<int>, n: int) -> bool {
    &&& forall|j: int, k: int| #![trigger l[j], l[k]] 0 <= j < k < l.len() ==> l[j] != l[k]
    &&& forall|k: int| #![trigger l[k]] 0 <= k < l.len() ==> 0 <= l[k] < n
}

/// Links that did not change spell the same list.
proof fn lemma_linked_frame(
    a: Seq<HugePageSlot>,
    b: Seq<HugePageSlot>,
    l: Seq<int>,
    head: u32,
    tail: u32,
)
    requires
        linked(a, l, head, tail),
        forall|k: int|
            #![trigger l[k]]
            0 <= k < l.len() ==> a[l[k]].bin_prev == b[l[k]].bin_prev && a[l[k]].bin_next
                == b[l[k]].bin_next,
    ensures
        linked(b, l, head, tail),
{
    assert forall|k: int| 0 <= k < l.len() implies #[trigger] link_at(b, l, k) by {
        assert(link_at(a, l, k));
    }
}

/// Joining the neighbours of place `k` takes it out of the list.
proof fn lemma_linked_remove(
    a: Seq<HugePageSlot>,
    b: Seq<HugePageSlot>,
    l: Seq<int>,
    k: int,
    heads: (u32, u32),
    tails: (u32, u32),
)
    requires
        linked(a, l, heads.0, tails.0),
        distinct_below(l, a.len() as int),
        0 <= k < l.len(),
        forall|j: int|
            #![trigger b[j]]
            0 <= j < a.len() ==> b[j].bin_next == (if k > 0 && j == l[k - 1] {
                a[l[k]].bin_next
            } else {
                a[j].bin_next
            }),
        forall|j: int|
            #![trigger b[j]]
            0 <= j < a.len() ==> b[j].bin_prev == (if k < l.len() - 1 && j == l[k + 1] {
                a[l[k]].bin_prev
            } else {
                a[j].bin_prev
            }),
        heads.1 == (if k == 0 {
            a[l[k]].bin_next
        } else {
            heads.0
        }),
        tails.1 == (if k == l.len() - 1 {
            a[l[k]].bin_prev
        } else {
            tails.0
        }),
    ensures
        linked(b, l.remove(k), heads.1, tails.1),
{
    let r = l.remove(k);
    assert(link_at(a, l, k));
    assert forall|m: int| 0 <= m < r.len() implies #[trigger] link_at(b, r, m) by {
        let o = if m < k {
            m
        } else {
            m + 1
        };
        assert(r[m] == l[o]);
        assert(link_at(a, l, o));
        let j = l[o];
        assert(b[j].bin_prev == b[j].bin_prev);
        assert(l[o] != l[k]);
        if k > 0 {
            assert(o != k - 1 ==> l[o] != l[k - 1]);
        }
        if k < l.len() - 1 {
            assert(o != k + 1 ==> l[o] != l[k + 1]);
        }
    }
    if k > 0 {
        assert(link_at(a, l, 0));
    } 
}

/// Linking hugepage `i` in front of the head puts it at the head of the list.
proof fn lemma_linked_front(
    a: Seq<HugePageSlot>,
    b: Seq<HugePageSlot>,
    l: Seq<int>,
    i: int,
    heads: (u32, u32),
    tails: (u32, u32),
)
    requires
        linked(a, l, heads.0, tails.0),
        distinct_below(l, a.len() as int),
        0 <= i < a.len(),
        b.len() == a.len(),
        forall|k: int| #![trigger l[k]] 0 <= k < l.len() ==> l[k] != i,
        heads.1 as int == i,
        tails.1 == (if l.len() == 0 {
            heads.1
        } else {
            tails.0
        }),
        b[i].bin_prev == NIL,
        b[i].bin_next == heads.0,
        forall|k: int|
            #![trigger l[k]]
            0 <= k < l.len() ==> b[l[k]].bin_next == a[l[k]].bin_next && b[l[k]].bin_prev as int
                == (if k == 0 {
                i
            } else {
                a[l[k]].bin_prev as int
            }),
    ensures
        linked(b, seq![i] + l, heads.1, tails.1),
{
    let r = seq![i] + l;
    assert(r[0] == i);
    assert forall|m: int| 0 <= m < r.len() implies #[trigger] link_at(b, r, m) by {
        if m > 0 {
            assert(r[m] == l[m - 1]);
            assert(link_at(a, l, m - 1));
        }
        if m < r.len() - 1 {
            assert(r[m + 1] == l[m]);
        }
        if m > 1 {
            assert(r[m - 1] == l[m - 2]);
        }
    }
}

/// Linking hugepage `i` behind the tail puts it at the tail of the list.
proof fn lemma_linked_back(
    a: Seq<HugePageSlot>,
    b: Seq<HugePageSlot>,
    l: Seq<int>,
    i: int,
    heads: (u32, u32),
    tails: (u32, u32),
)
    requires
        linked(a, l, heads.0, tails.0),
        distinct_below(l, a.len() as int),
        0 <= i < a.len(),
        b.len() == a.len(),
        forall|k: int| #![trigger l[k]] 0 <= k < l.len() ==> l[k] != i,
        tails.1 as int == i,
        heads.1 == (if l.len() == 0 {
            tails.1
        } else {
            heads.0
        }),
        b[i].bin_prev == tails.0,
        b[i].bin_next == NIL,
        forall|k: int|
            #![trigger l[k]]
            0 <= k < l.len() ==> b[l[k]].bin_prev == a[l[k]].bin_prev && b[l[k]].bin_next as int
                == (if k == l.len() - 1 {
                i
            } else {
                a[l[k]].bin_next as int
            }),
    ensures
        linked(b, l.push(i), heads.1, tails.1),
{
    let r = l.push(i);
    assert forall|m: int| 0 <= m < r.len() implies #[trigger] link_at(b, r, m) by {
        if m < l.len() {
            assert(r[m] == l[m]);
            assert(link_at(a, l, m));
        }
        if m > 0 {
            assert(r[m - 1] == l[m - 1]);
        }
        if m < r.len() - 1 {
            assert(r[m + 1] == r[m + 1]);
        }
    }
}

/// The metrics over the first `i` hugepages leave room for one hugepage more.
proof fn lemma_stats_bounded(v: FillerView, i: int)
    requires
        v.ok(),
        0 <= i < v.opened,
    ensures
        filler_model::sum_pages(filler_model::Metric::Live, v.pages, i) <= i * HUGEPAGE_SIZE,
        filler_model::sum_pages(filler_model::Metric::LiveIntact, v.pages, i) <= i * HUGEPAGE_SIZE,
        filler_model::sum_pages(filler_model::Metric::LivePartial, v.pages, i) <= i
            * HUGEPAGE_SIZE,
        filler_model::sum_pages(filler_model::Metric::EmptyBacked, v.pages, i) <= i
            * HUGEPAGE_SIZE,
        filler_model::sum_pages(filler_model::Metric::EmptyReleased, v.pages, i) <= i
            * HUGEPAGE_SIZE,
        filler_model::sum_pages(filler_model::Metric::PartialReleased, v.pages, i) <= i
            * HUGEPAGE_SIZE,
        filler_model::sum_pages(filler_model::Metric::Fragmentation, v.pages, i) <= i
            * HUGEPAGE_SIZE,
        forall|b: int|
            #[trigger] filler_model::sum_pages(filler_model::Metric::InBin(b), v.pages, i) <= i,
        i * HUGEPAGE_SIZE + HUGEPAGE_SIZE <= u64::MAX,
        i < u32::MAX,
{
    filler_model::lemma_sum_bounds(filler_model::Metric::Live, v.pages, i);
    filler_model::lemma_sum_bounds(filler_model::Metric::LiveIntact, v.pages, i);
    filler_model::lemma_sum_bounds(filler_model::Metric::LivePartial, v.pages, i);
    filler_model::lemma_sum_bounds(filler_model::Metric::EmptyBacked, v.pages, i);
    filler_model::lemma_sum_bounds(filler_model::Metric::EmptyReleased, v.pages, i);
    filler_model::lemma_sum_bounds(filler_model::Metric::PartialReleased, v.pages, i);
    filler_model::lemma_sum_bounds(filler_model::Metric::Fragmentation, v.pages, i);
    assert forall|b: int| #[trigger]
        filler_model::sum_pages(filler_model::Metric::InBin(b), v.pages, i) <= i by {
        filler_model::lemma_sum_bounds(filler_model::Metric::InBin(b), v.pages, i);
    }
}

/// The walk over the list `x` has seen `l` and stands at `j`.
spec fn walked(x: Seq<int>, l: Seq<int>, j: int) -> bool {
    &&& l.len() <= x.len()
    &&& x.take(l.len() as int) == l
    &&& j == (if l.len() < x.len() {
        x[l.len() as int]
    } else {
        NIL as int
    })
}

/// The links in place `k` of the part `l` of a list, with `j` next after it.
spec fn half_link(slots: Seq<HugePageSlot>, l: Seq<int>, k: int, j: int) -> bool {
    &&& slots[l[k]].bin_prev as int == prev_of(l, k)
    &&& slots[l[k]].bin_next as int == (if k == l.len() - 1 {
        j
    } else {
        l[k + 1]
    })
}

/// A walk whose back links are right meets no hugepage twice.
proof fn lemma_walk_distinct(slots: Seq<HugePageSlot>, l: Seq<int>, j: int)
    requires
        forall|k: int| 0 <= k < l.len() ==> #[trigger] half_link(slots, l, k, j),
        forall|k: int| #![trigger l[k]] 0 <= k < l.len() ==> 0 <= l[k] < NIL,
    ensures
        forall|a: int, b: int| #![trigger l[a], l[b]] 0 <= a < b < l.len() ==> l[a] != l[b],
{
    assert forall|a: int, b: int| #![trigger l[a], l[b]] 0 <= a < b < l.len() implies l[a]
        != l[b] by {
        lemma_walk_pair(slots, l, j, a, b);
    }
}

proof fn lemma_walk_pair(slots: Seq<HugePageSlot>, l: Seq<int>, j: int, a: int, b: int)
    requires
        forall|k: int| 0 <= k < l.len() ==> #[trigger] half_link(slots, l, k, j),
        forall|k: int| #![trigger l[k]] 0 <= k < l.len() ==> 0 <= l[k] < NIL,
        0 <= a < b < l.len(),
    ensures
        l[a] != l[b],
    decreases a,
{
    if l[a] == l[b] {
        assert(half_link(slots, l, a, j));
        assert(half_link(slots, l, b, j));
        assert(0 <= l[b - 1] < NIL);
        if a > 0 {
            lemma_walk_pair(slots, l, j, a - 1, b - 1);
        }
    }
}

/// Distinct indices below `n` are at most `n` many.
proof fn lemma_distinct_len(l: Seq<int>, n: int)
    requires
        distinct_below(l, n),
        0 <= n,
    ensures
        l.len() <= n,
{
    l.unique_seq_to_set();
    lemma_int_range(0, n);
    assert(l.to_set().subset_of(set_int_range(0, n)));
    lemma_len_subset(l.to_set(), set_int_range(0, n));
}

/// Two slots that differ at most in their links.
spec fn same_but_links(a: HugePageSlot, b: HugePageSlot) -> bool {
    a == (HugePageSlot { bin_prev: a.bin_prev, bin_next: a.bin_next, ..b })
}

impl View for HugePageFiller {
    type V = FillerView;

    closed spec fn view(&self) -> FillerView {
        FillerView {
            base: self.region_base as int,
            pages: self.slots@.map_values(|s: HugePageSlot| s.spec_view()),
            opened: self.next_untouched as int,
            lists: self.lists@,
            subreleases: self.subrelease_events as int,
        }
    }
}

impl HugePageFiller {
    /// Everything but what concerns hugepage `absent`, which is in no list.
    spec fn shape(self, absent: int) -> bool {
        &&& self@.geometry()
        &&& filler_model::lists_ok(self@.pages, self@.lists, self@.opened, absent)
        &&& forall|i: int|
            #![trigger self.slots@[i]]
            0 <= i < self.slots@.len() ==> (self.slots@[i].touched <==> i < self.next_untouched)
        &&& forall|i: int|
            #![trigger self.slots@[i]]
            0 <= i < self.next_untouched && i != absent ==> self.slots@[i].bin
                == self.slots@[i].spec_view().bin()
        &&& forall|b: int|
            #![trigger self.lists@[b]]
            0 <= b < HugeBin::COUNT ==> linked(
                self.slots@,
                self.lists@[b],
                self.bins@[b],
                self.bin_tails@[b],
            )
    }

    /// What every filler keeps.
    #[verifier::opaque]
    pub closed spec fn wf(self) -> bool {
        self.shape(-1) && self@.ok()
    }

    /// What a well-formed filler keeps, over its view.
    pub proof fn lemma_wf(self)
        requires
            self.wf(),
        ensures
            self@.ok(),
    {
        reveal(HugePageFiller::wf);
    }

    /// Take hugepage `i` out of its bin list.
    fn bin_remove(&mut self, i: u32)
        requires
            old(self).shape(-1),
            i < old(self)@.opened,
        ensures
            final(self).shape(i as int),
            final(self)@ == (FillerView {
                lists: filler_model::without(old(self)@.lists, i as int),
                ..old(self)@
            }),
    {
        let ghost before = *self;
        proof {
            filler_model::lemma_without(self@.pages, self@.lists, self@.opened, i as int);
        }
        let s = self.slots[i as usize];
        let b: usize = s.bin.index();
        let ghost l = self.lists@[b as int];
        let ghost k = filler_model::place_in_list(self@.pages, self@.lists, i as int);
        proof {
            assert(self.slots@[i as int].spec_view() == self@.pages[i as int]);
            assert(linked(self.slots@, l, self.bins@[b as int], self.bin_tails@[b as int]));
            assert(filler_model::list_ok(self@.pages, l, b as int, self@.opened, -1));
            assert(l[k] == i);
            assert(link_at(self.slots@, l, k));
            if k > 0 {
                assert(0 <= l[k - 1] < self@.opened);
            }
            if k < l.len() - 1 {
                assert(0 <= l[k + 1] < self@.opened);
            }
        }
        if s.bin_prev != NIL {
            let mut p = self.slots[s.bin_prev as usize];
            p.bin_next = s.bin_next;
            self.slots.set(s.bin_prev as usize, p);
        } else {
            self.bins[b] = s.bin_next;
        }
        if s.bin_next != NIL {
            let mut n = self.slots[s.bin_next as usize];
            n.bin_prev = s.bin_prev;
            self.slots.set(s.bin_next as usize, n);
        } else {
            self.bin_tails[b] = s.bin_prev;
        }
        proof {
            self.lists@ = filler_model::without(before.lists@, i as int);
            assert forall|j: int| #![trigger self.slots@[j]] 0 <= j < self.slots@.len() implies same_but_links(
                self.slots@[j],
                before.slots@[j],
            ) by {}
            assert(self@.pages =~= before@.pages);
            assert forall|c: int| #![trigger self.lists@[c]] 0 <= c < HugeBin::COUNT implies linked(
                self.slots@,
                self.lists@[c],
                self.bins@[c],
                self.bin_tails@[c],
            ) by {
                let lc = before.lists@[c];
                assert(linked(before.slots@, lc, before.bins@[c], before.bin_tails@[c]));
                assert(filler_model::list_ok(before@.pages, lc, c, before@.opened, -1));
                if c == b {
                    assert(self.lists@[c] == l.remove(k));
                    lemma_linked_remove(
                        before.slots@,
                        self.slots@,
                        l,
                        k,
                        (before.bins@[c], self.bins@[c]),
                        (before.bin_tails@[c], self.bin_tails@[c]),
                    );
                } else {
                    assert(self.lists@[c] == lc);
                    lemma_linked_frame(
                        before.slots@,
                        self.slots@,
                        lc,
                        before.bins@[c],
                        before.bin_tails@[c],
                    );
                }
            }
        }
    }

    /// File the absent hugepage `i` in `bin`, its bin: a full one at the tail, so that it never
    /// stands before one that still has room, any other at the head.
    fn bin_insert(&mut self, i: u32, bin: HugeBin)
        requires
            old(self).shape(i as int),
            i < old(self)@.opened,
            bin == old(self)@.pages[i as int].bin(),
        ensures
            final(self).shape(-1),
            final(self)@ == (FillerView {
                lists: filler_model::filed(
                    old(self)@.lists,
                    i as int,
                    bin.number(),
                    old(self)@.pages[i as int].full(),
                ),
                ..old(self)@
            }),
    {
        let ghost before = *self;
        let b: usize = bin.index();
        let ghost l = self.lists@[b as int];
        let mut s = self.slots[i as usize];
        let at_tail: bool = s.used() >= PAGES_PER_HUGEPAGE;
        proof {
            filler_model::lemma_filed(self@.pages, self@.lists, self@.opened, i as int);
            assert(self.slots@[i as int].spec_view() == self@.pages[i as int]);
            assert(linked(self.slots@, l, self.bins@[b as int], self.bin_tails@[b as int]));
            assert(filler_model::list_ok(self@.pages, l, b as int, self@.opened, i as int));
            if l.len() > 0 {
                assert(link_at(self.slots@, l, 0));
                assert(link_at(self.slots@, l, l.len() - 1));
                assert(0 <= l[0] < self@.opened);
                assert(0 <= l[l.len() - 1] < self@.opened);
            }
        }
        s.bin = bin;
        if at_tail {
            let tail: u32 = self.bin_tails[b];
            s.bin_prev = tail;
            s.bin_next = NIL;
            self.slots.set(i as usize, s);
            if tail != NIL {
                let mut t = self.slots[tail as usize];
                t.bin_next = i;
                self.slots.set(tail as usize, t);
            } else {
                self.bins[b] = i;
            }
            self.bin_tails[b] = i;
        } else {
            let head: u32 = self.bins[b];
            s.bin_prev = NIL;
            s.bin_next = head;
            self.slots.set(i as usize, s);
            if head != NIL {
                let mut h = self.slots[head as usize];
                h.bin_prev = i;
                self.slots.set(head as usize, h);
            } else {
                self.bin_tails[b] = i;
            }
            self.bins[b] = i;
        }
        proof {
            self.lists@ = filler_model::filed(before.lists@, i as int, b as int, at_tail);
            assert forall|j: int| #![trigger self.slots@[j]] 0 <= j < self.slots@.len() implies {
                &&& self.slots@[j].spec_view() == before.slots@[j].spec_view()
                &&& self.slots@[j].touched == before.slots@[j].touched
                &&& j != i ==> self.slots@[j].bin == before.slots@[j].bin
            } by {}
            assert(self@.pages =~= before@.pages);
            assert forall|c: int| #![trigger self.lists@[c]] 0 <= c < HugeBin::COUNT implies linked(
                self.slots@,
                self.lists@[c],
                self.bins@[c],
                self.bin_tails@[c],
            ) by {
                let lc = before.lists@[c];
                assert(linked(before.slots@, lc, before.bins@[c], before.bin_tails@[c]));
                assert(filler_model::list_ok(before@.pages, lc, c, before@.opened, i as int));
                if c == b {
                    if at_tail {
                        lemma_linked_back(
                            before.slots@,
                            self.slots@,
                            l,
                            i as int,
                            (before.bins@[c], self.bins@[c]),
                            (before.bin_tails@[c], self.bin_tails@[c]),
                        );
                    } else {
                        lemma_linked_front(
                            before.slots@,
                            self.slots@,
                            l,
                            i as int,
                            (before.bins@[c], self.bins@[c]),
                            (before.bin_tails@[c], self.bin_tails@[c]),
                        );
                    }
                } else {
                    assert(self.lists@[c] == lc);
                    assert forall|m: int| #![trigger lc[m]] 0 <= m < lc.len() implies lc[m] != i && (
                    l.len() > 0 ==> lc[m] != l[0] && lc[m] != l[l.len() - 1]) by {
                        assert(before@.pages[lc[m]].bin().number() == c);
                    }
                    lemma_linked_frame(
                        before.slots@,
                        self.slots@,
                        lc,
                        before.bins@[c],
                        before.bin_tails@[c],
                    );
                }
            }
        }
    }

    /// Turn hugepage `i` into `s` and file it anew, by what it has become.
    fn refile(&mut self, i: u32, s: HugePageSlot)
        requires
            old(self).shape(-1),
            i < old(self)@.opened,
            s.touched,
        ensures
            final(self).shape(-1),
            final(self)@ == old(self)@.with_page(i as int, s.spec_view()),
    {
        let ghost before = *self;
        self.bin_remove(i);
        let ghost mid = *self;
        proof {
            filler_model::lemma_absent_page(
                self@.pages,
                self@.lists,
                self@.opened,
                i as int,
                s.spec_view(),
            );
        }
        self.slots.set(i as usize, s);
        proof {
            assert(self@.pages =~= mid@.pages.update(i as int, s.spec_view()));
            assert forall|c: int| #![trigger self.lists@[c]] 0 <= c < HugeBin::COUNT implies linked(
                self.slots@,
                self.lists@[c],
                self.bins@[c],
                self.bin_tails@[c],
            ) by {
                let lc = mid.lists@[c];
                assert(linked(mid.slots@, lc, mid.bins@[c], mid.bin_tails@[c]));
                assert(filler_model::list_ok(mid@.pages, lc, c, mid@.opened, i as int));
                lemma_linked_frame(mid.slots@, self.slots@, lc, mid.bins@[c], mid.bin_tails@[c]);
            }
            assert(self.shape(i as int));
        }
        let target: HugeBin = s.target_bin();
        self.bin_insert(i, target);
        proof {
            assert(self@ =~= before@.with_page(i as int, s.spec_view()));
        }
    }

    /// Open the next hugepage into the bin of empty ones, or `None` when all are open.
    fn open_fresh(&mut self) -> (res: Option<u32>)
        requires
            old(self).wf(),
        ensures
            final(self).wf(),
            match res {
                Some(i) => {
                    &&& i == old(self)@.opened
                    &&& old(self)@.opened < old(self)@.pages.len()
                    &&& final(self)@ == old(self)@.with_fresh()
                },
                None => {
                    &&& old(self)@.opened == old(self)@.pages.len()
                    &&& final(self)@ == old(self)@
                },
            },
    {
        proof {
            reveal(HugePageFiller::wf);
        }
        if self.next_untouched as usize >= self.slots.len() {
            return None;
        }
        let ghost before = *self;
        let i: u32 = self.next_untouched;
        self.next_untouched = i + 1;
        let mut s = self.slots[i as usize];
        s.touched = true;
        self.slots.set(i as usize, s);
        proof {
            assert(before@.pages[i as int] == HugePageView::fresh());
            assert(before.slots@[i as int].spec_view() == before@.pages[i as int]);
            assert(self@.pages =~= before@.pages);
            assert forall|c: int| #![trigger self.lists@[c]] 0 <= c < HugeBin::COUNT implies linked(
                self.slots@,
                self.lists@[c],
                self.bins@[c],
                self.bin_tails@[c],
            ) && filler_model::list_ok(self@.pages, self.lists@[c], c, self@.opened, i as int) by {
                let lc = before.lists@[c];
                assert(linked(before.slots@, lc, before.bins@[c], before.bin_tails@[c]));
                assert(filler_model::list_ok(before@.pages, lc, c, before@.opened, -1));
                lemma_linked_frame(
                    before.slots@,
                    self.slots@,
                    lc,
                    before.bins@[c],
                    before.bin_tails@[c],
                );
            }
            assert forall|j: int| 0 <= j < self@.opened && j != i implies #[trigger] filler_model::is_filed(
                self@.pages,
                self@.lists,
                j,
            ) by {
                assert(filler_model::is_filed(before@.pages, before@.lists, j));
            }
            assert(self.shape(i as int));
            let q = HugePageView::fresh();
            assert(q.used() == 0);
            assert(q.released.len() == 0);
        }
        self.bin_insert(i, HugeBin::EmptyBacked);
        proof {
            assert(self@ =~= before@.with_fresh());
            assert forall|j: int| #![trigger self@.pages[j]] 0 <= j < self@.opened implies self@.run_ok(
                j,
            ) by {
                if j < before@.opened {
                    assert(before@.run_ok(j));
                }
            }
        }
        Some(i)
    }

    /// A filler over `capacity` hugepages from `region_base` on, with metadata from `meta`.
    /// `None` on no or too large a capacity, a misaligned base, a region that wraps, or
    /// metadata exhaustion.
    pub fn new(meta: &mut BumpArena, region_base: usize, capacity: usize) -> (res: Option<
        HugePageFiller,
    >)
        requires
            old(meta).wf(),
        ensures
            final(meta).wf(),
            final(meta).base() == old(meta).base(),
            final(meta).len() == old(meta).len(),
            match res {
                Some(f) => {
                    &&& f.wf()
                    &&& valid_region(region_base as int, capacity as int)
                    &&& f@ == empty_filler(region_base as int, capacity as int)
                    &&& old(meta).next_start(8) + capacity * HUGE_SLOT_BYTES <= old(meta).base() + old(
                        meta,
                    ).len()
                    &&& final(meta).used() == old(meta).next_start(8) + capacity * HUGE_SLOT_BYTES
                        - old(meta).base()
                },
                None => {
                    &&& final(meta).used() == old(meta).used()
                    &&& !valid_region(region_base as int, capacity as int) || old(meta).next_start(8)
                        + capacity * HUGE_SLOT_BYTES > old(meta).base() + old(meta).len()
                },
            },
    {
        proof {
            reveal(HugePageFiller::wf);
        }
        if capacity == 0 || capacity > NIL as usize || region_base % HUGEPAGE_SIZE != 0 {
            return None;
        }
        let region_len: usize = match capacity.checked_mul(HUGEPAGE_SIZE) {
            Some(v) => v,
            None => return None,
        };
        if region_base.checked_add(region_len).is_none() {
            return None;
        }
        proof {
            vstd::arithmetic::power2::lemma2_to64();
            assert(overflow::is_pow2(8)) by {
                assert(8 == vstd::arithmetic::power2::pow2(3));
            }
            overflow::lemma_round_up(meta.base() + meta.used(), 8);
        }
        let bytes: usize = match capacity.checked_mul(HUGE_SLOT_BYTES) {
            Some(v) => v,
            None => return None,
        };
        if meta.vend(bytes, 8).is_none() {
            return None;
        }
        let blank = HugePageSlot {
            live: PageBitmap::empty(),
            committed: PageBitmap::empty(),
            released: PageBitmap::empty(),
            heads: PageBitmap::empty(),
            bin_prev: NIL,
            bin_next: NIL,
            run_len: 0,
            in_run: false,
            hotness: Hotness::Neutral,
            lifetime: Lifetime::Unspecified,
            bin: HugeBin::EmptyBacked,
            touched: false,
        };
        let mut slots: Vec<HugePageSlot> = Vec::new();
        let mut n: usize = 0;
        while n < capacity
            invariant
                n <= capacity,
                slots@.len() == n,
                forall|i: int| #![trigger slots@[i]] 0 <= i < n ==> slots@[i] == blank,
            decreases capacity - n,
        {
            slots.push(blank);
            n = n + 1;
        }
        let ghost empty_lists = Seq::new(HugeBin::COUNT as nat, |b: int| Seq::<int>::empty());
        let f = HugePageFiller {
            slots,
            region_base,
            next_untouched: 0,
            bins: [NIL; HugeBin::COUNT],
            bin_tails: [NIL; HugeBin::COUNT],
            subrelease_events: 0,
            lists: Ghost(empty_lists),
        };
        proof {
            assert(blank.spec_view() =~= HugePageView::fresh());
            assert(f@ =~= empty_filler(region_base as int, capacity as int));
            assert(HugePageView::fresh().ok()) by {
                assert(Set::<int>::empty().len() == 0);
            }
        }
        Some(f)
    }

    /// The base address of hugepage `i`.
    fn huge_base(&self, i: u32) -> (res: usize)
        requires
            self@.geometry(),
            i < self@.pages.len(),
        ensures
            res == self@.huge_base(i as int),
            res + HUGEPAGE_SIZE <= usize::MAX,
    {
        self.region_base + (i as usize) * HUGEPAGE_SIZE
    }

    /// The hugepage that covers `addr`.
    fn index_of(&self, addr: usize) -> (res: Option<u32>)
        requires
            self@.geometry(),
        ensures
            match res {
                Some(i) => {
                    &&& self@.covers(addr as int)
                    &&& i == self@.index_of(addr as int)
                    &&& i < self@.pages.len()
                    &&& self@.huge_base(i as int) <= addr < self@.huge_base(i as int)
                        + HUGEPAGE_SIZE
                    &&& i < self@.opened <==> self@.opened_at(addr as int)
                },
                None => !self@.covers(addr as int),
            },
    {
        if addr < self.region_base {
            return None;
        }
        let off: usize = addr - self.region_base;
        let i: usize = off / HUGEPAGE_SIZE;
        if i < self.slots.len() {
            Some(i as u32)
        } else {
            None
        }
    }

    /// The page stride of an alignment inside a hugepage, or `None` when it cannot be had.
    fn align_stride(align: usize) -> (res: Option<usize>)
        ensures
            match res {
                Some(s) => {
                    &&& filler_model::alignable(align as int)
                    &&& s == filler_model::stride_of(align as int)
                    &&& 0 < s <= PAGES_PER_HUGEPAGE
                },
                None => !filler_model::alignable(align as int),
            },
    {
        if !is_power_of_two(align) || align > HUGEPAGE_SIZE {
            return None;
        }
        if align <= PAGE_SIZE {
            Some(1)
        } else {
            Some(align / PAGE_SIZE)
        }
    }

    /// How good the hugepage `s` is for a run of `pages` pages at page `off`.
    #[verifier::spinoff_prover]
    fn score(s: &HugePageSlot, hints: PlaceHints, off: usize, pages: usize) -> (res: i64)
        requires
            off + pages <= PAGES_PER_HUGEPAGE,
        ensures
            res == filler_model::score(s.spec_view(), hints, off as int, pages as int),
    {
        let used: i64 = s.used() as i64;
        let subreleased: i64 = s.subreleased() as i64;
        let committed: i64 = s.committed.count() as i64;
        let hotness_match: i64 = if s.hotness == hints.hotness {
            4
        } else {
            0
        };
        let gap: i64 = {
            let a: i64 = s.lifetime.to_u8() as i64;
            let b: i64 = hints.lifetime.to_u8() as i64;
            if a >= b {
                a - b
            } else {
                b - a
            }
        };
        let lifetime_match: i64 = if used == 0 {
            0
        } else if gap == 0 {
            3
        } else {
            -gap * LIFETIME_MISMATCH_WEIGHT
        };
        let preservation: i64 = if used == 0 {
            -3
        } else {
            0
        };
        let backed: i64 = if s.committed.run_is_fully_set(off, pages) {
            2
        } else {
            0
        };
        let idle: i64 = committed - used - pages as i64;
        let gap_before: i64 = if off <= 8 {
            off as i64
        } else {
            8
        };
        let fragmentation: i64 = if idle < 0 {
            gap_before
        } else {
            idle / 8 + gap_before
        };
        used + hotness_match + lifetime_match + preservation + backed - fragmentation - subreleased
    }

    /// What a hugepage never used before would score.
    fn fresh_score(hints: PlaceHints) -> (res: i64)
        ensures
            res == filler_model::fresh_score(hints),
    {
        let hotness_match: i64 = if hints.hotness == Hotness::Neutral {
            4
        } else {
            0
        };
        hotness_match - 3
    }

    /// The best hugepage for the request among the first [`SCAN_CAP`] of a bin list, with the
    /// page offset and the score.
    fn scan_bin(&self, bin: HugeBin, pages: usize, stride: usize, hints: PlaceHints) -> (res: Option<
        (u32, usize, i64),
    >)
        requires
            self.wf(),
            0 < pages <= PAGES_PER_HUGEPAGE,
            0 < stride <= PAGES_PER_HUGEPAGE,
        ensures
            ({
                let r = filler_model::PlaceRequest {
                    pages: pages as int,
                    stride: stride as int,
                    hints,
                };
                let w = filler_model::window(self@.lists[bin.number()]);
                match res {
                    Some((hp, off, sc)) => {
                        &&& self@.best_among(r, w, hp as int)
                        &&& self@.fit(r, hp as int) == Some(off)
                        &&& sc == self@.score_of(r, hp as int)
                        &&& hp < self@.opened
                        &&& self@.has_fit(r, w)
                    },
                    None => !self@.has_fit(r, w),
                }
            }),
    {
        proof {
            reveal(HugePageFiller::wf);
        }
        let ghost r = filler_model::PlaceRequest {
            pages: pages as int,
            stride: stride as int,
            hints,
        };
        let ghost l = self.lists@[bin.number()];
        let ghost w = filler_model::window(l);
        let mut best: Option<(u32, usize, i64)> = None;
        let mut scanned: usize = 0;
        let mut i: u32 = self.bins[bin.index()];
        proof {
            assert(linked(
                self.slots@,
                l,
                self.bins@[bin.number()],
                self.bin_tails@[bin.number()],
            ));
            assert(filler_model::list_ok(self@.pages, l, bin.number(), self@.opened, -1));
        }
        while i != NIL && scanned < SCAN_CAP
            invariant
                self.wf(),
                0 < pages <= PAGES_PER_HUGEPAGE,
                0 < stride <= PAGES_PER_HUGEPAGE,
                r == (filler_model::PlaceRequest {
                    pages: pages as int,
                    stride: stride as int,
                    hints,
                }),
                0 <= bin.number() < HugeBin::COUNT,
                l == self.lists@[bin.number()],
                w == filler_model::window(l),
                linked(
                    self.slots@,
                    l,
                    self.bins@[bin.number()],
                    self.bin_tails@[bin.number()],
                ),
                filler_model::list_ok(self@.pages, l, bin.number(), self@.opened, -1),
                self@.opened <= self.slots@.len(),
                scanned <= SCAN_CAP,
                scanned <= l.len(),
                i as int == (if scanned < l.len() {
                    l[scanned as int]
                } else {
                    NIL as int
                }),
                match best {
                    Some((hp, off, sc)) => {
                        &&& self@.best_among(r, l.take(scanned as int), hp as int)
                        &&& self@.fit(r, hp as int) == Some(off)
                        &&& sc == self@.score_of(r, hp as int)
                        &&& hp < self@.opened
                    },
                    None => !self@.has_fit(r, l.take(scanned as int)),
                },
            decreases SCAN_CAP - scanned,
        {
            let ghost done = l.take(scanned as int);
            let ghost next = l.take(scanned + 1);
            proof {
                assert(next =~= done.push(l[scanned as int]));
                assert(0 <= l[scanned as int] < self@.opened);
                assert(link_at(self.slots@, l, scanned as int));
                assert(self@.pages[i as int] == self.slots@[i as int].spec_view());
                assert forall|k: int| 0 <= k < scanned implies done[k] == next[k] by {}
                assert(next[scanned as int] == i);
            }
            let s = self.slots[i as usize];
            match s.live.find_run_aligned(pages, stride) {
                Some(off) => {
                    proof {
                        assert(self@.fit(r, i as int) == Some(off));
                        bitmap::lemma_fit_bounds(s.live@, pages as int, stride as int);
                    }
                    let sc: i64 = HugePageFiller::score(&s, hints, off, pages);
                    let better: bool = match best {
                        None => true,
                        Some((bi, _, bsc)) => sc > bsc || (sc == bsc && i < bi),
                    };
                    if better {
                        proof {
                            assert(next.contains(i as int));
                            assert forall|k: int|
                                0 <= k < next.len() && (#[trigger] self@.fit(r, next[k])) is Some
                                    && next[k] != i implies self@.better(r, i as int, next[k]) by {
                                if k < scanned {
                                    assert(self@.fit(r, done[k]) is Some);
                                    match best {
                                        None => {
                                            assert(self@.has_fit(r, done));
                                        },
                                        Some((bi, boff, bsc)) => {
                                            assert(done[k] != bi ==> self@.better(
                                                r,
                                                bi as int,
                                                done[k],
                                            ));
                                        },
                                    }
                                }
                            }
                            assert(self@.best_among(r, next, i as int));
                        }
                        best = Some((i, off, sc));
                    } else {
                        proof {
                            let bi = (best->0).0;
                            assert(done.contains(bi as int));
                            let m = choose|m: int| 0 <= m < done.len() && done[m] == bi;
                            assert(next[m] == bi);
                            assert(l[m] != l[scanned as int]);
                            assert forall|k: int|
                                0 <= k < next.len() && (#[trigger] self@.fit(r, next[k])) is Some
                                    && next[k] != bi implies self@.better(r, bi as int, next[k]) by {
                                if k < scanned {
                                    assert(self@.fit(r, done[k]) is Some);
                                }
                            }
                            assert(self@.best_among(r, next, bi as int));
                        }
                    }
                },
                None => {
                    proof {
                        assert(self@.fit(r, i as int) is None);
                        match best {
                            None => {
                                assert forall|k: int| 0 <= k < next.len() implies !((
                                #[trigger] self@.fit(r, next[k])) is Some) by {
                                    if k < scanned {
                                        assert(self@.fit(r, done[k]) is None);
                                    }
                                }
                                assert(!self@.has_fit(r, next));
                            },
                            Some((bi, boff, bsc)) => {
                                let m = choose|m: int| 0 <= m < done.len() && done[m] == bi;
                                assert(next[m] == bi);
                                assert forall|k: int|
                                    0 <= k < next.len() && (#[trigger] self@.fit(r, next[k])) is Some
                                        && next[k] != bi implies self@.better(
                                    r,
                                    bi as int,
                                    next[k],
                                ) by {
                                    if k < scanned {
                                        assert(self@.fit(r, done[k]) is Some);
                                    }
                                }
                                assert(self@.best_among(r, next, bi as int));
                            },
                        }
                    }
                },
            }
            i = s.bin_next;
            scanned = scanned + 1;
        }
        proof {
            assert(l.take(scanned as int) =~= w);
            if best is Some {
                let hp = (best->0).0 as int;
                let m = choose|m: int| 0 <= m < w.len() && w[m] == hp;
                assert(self@.fit(r, w[m]) is Some);
            }
        }
        best
    }

    /// Make the `pages` free pages at page `off` of hugepage `hp` one live allocation. Answers
    /// whether some page of it is not backed yet.
    fn carve(&mut self, hp: u32, off: usize, pages: usize, hints: PlaceHints) -> (res: bool)
        requires
            old(self).wf(),
            hp < old(self)@.opened,
            0 < pages,
            off + pages <= PAGES_PER_HUGEPAGE,
            old(self)@.pages[hp as int].live.disjoint(bitmap::page_run(off as int, pages as int)),
        ensures
            final(self).wf(),
            final(self)@ == old(self)@.with_page(
                hp as int,
                old(self)@.pages[hp as int].carved(off as int, pages as int, hints),
            ),
            res == !bitmap::page_run(off as int, pages as int).subset_of(
                old(self)@.pages[hp as int].committed,
            ),
    {
        proof {
            reveal(HugePageFiller::wf);
        }
        let ghost before = *self;
        let mut s = self.slots[hp as usize];
        proof {
            assert(s.spec_view() == self@.pages[hp as int]);
            assert(self@.pages[hp as int].ok());
        }
        let ghost p = s.spec_view();
        let needs_commit: bool = s.committed.count_run(off, pages) != pages;
        s.live.set_run(off, pages);
        s.heads.set(off);
        s.hotness = s.hotness.join(hints.hotness);
        s.lifetime = s.lifetime.join(hints.lifetime);
        proof {
            let q = p.carved(off as int, pages as int, hints);
            assert(s.spec_view() =~= q);
            assert(bitmap::page_run(off as int, pages as int).contains(off as int));
            assert(q.ok()) by {
                bitmap::lemma_pages_bounded(p.live);
                if p.in_run {
                    assert(p.live.contains(off as int));
                }
                assert forall|x: int| #[trigger] q.started(x) by {
                    assert(p.started(x));
                }
            }
        }
        self.refile(hp, s);
        proof {
            before@.lemma_with_page(hp as int, s.spec_view());
        }
        needs_commit
    }

    /// The best candidate for the request among the opened hugepages, with the page offset and
    /// the score.
    fn find_candidate(&self, pages: usize, stride: usize, hints: PlaceHints) -> (res: Option<
        (u32, usize, i64),
    >)
        requires
            self.wf(),
            0 < pages <= PAGES_PER_HUGEPAGE,
            0 < stride <= PAGES_PER_HUGEPAGE,
        ensures
            ({
                let v = self@;
                let r = filler_model::PlaceRequest {
                    pages: pages as int,
                    stride: stride as int,
                    hints,
                };
                match res {
                    Some((hp, off, sc)) => {
                        &&& v.candidate(r, hp as int)
                        &&& v.fit(r, hp as int) == Some(off)
                        &&& sc == v.score_of(r, hp as int)
                        &&& hp < v.opened
                    },
                    None => v.no_candidate(r),
                }
            }),
    {
        let ghost r = filler_model::PlaceRequest {
            pages: pages as int,
            stride: stride as int,
            hints,
        };
        let ghost v = self@;
        proof {
            huge_bin::lemma_packing_order_len();
        }
        let mut k: usize = 0;
        while k < 8
            invariant
                self.wf(),
                huge_bin::packing_order().len() == 8,
                v == self@,
                k <= 8,
                0 < pages <= PAGES_PER_HUGEPAGE,
                0 < stride <= PAGES_PER_HUGEPAGE,
                r == (filler_model::PlaceRequest {
                    pages: pages as int,
                    stride: stride as int,
                    hints,
                }),
                forall|j: int| 0 <= j < k ==> !v.has_fit(r, #[trigger] v.scanned(j)),
            decreases 8 - k,
        {
            let best: Option<(u32, usize, i64)> = self.scan_bin(
                packing_bin(k),
                pages,
                stride,
                hints,
            );
            proof {
                assert(v.scanned(k as int) == filler_model::window(
                    v.lists[huge_bin::packing_order()[k as int].number()],
                ));
            }
            if best.is_some() {
                proof {
                    assert(v.densest(r, k as int));
                }
                return best;
            }
            k = k + 1;
        }
        proof {
            reveal(FillerView::no_candidate);
        }
        None
    }

    /// Where the request goes: a hugepage, opened if it is a fresh one, and the page offset.
    fn pick(&mut self, pages: usize, stride: usize, hints: PlaceHints) -> (res: Option<
        (u32, usize),
    >)
        requires
            old(self).wf(),
            0 < pages <= PAGES_PER_HUGEPAGE,
            0 < stride <= PAGES_PER_HUGEPAGE,
        ensures
            final(self).wf(),
            ({
                let v = old(self)@;
                let r = filler_model::PlaceRequest {
                    pages: pages as int,
                    stride: stride as int,
                    hints,
                };
                match res {
                    Some((hp, off)) => {
                        &&& v.goes_to(r, hp as int, off as int)
                        &&& hp < v.pages.len()
                        &&& off + pages <= PAGES_PER_HUGEPAGE
                        &&& v.pages[hp as int].live.disjoint(
                            bitmap::page_run(off as int, pages as int),
                        )
                        &&& hp < final(self)@.opened
                        &&& final(self)@ == (if hp == v.opened {
                            v.with_fresh()
                        } else {
                            v
                        })
                    },
                    None => {
                        &&& final(self)@ == v
                        &&& v.no_candidate(r)
                        &&& v.opened == v.pages.len()
                    },
                }
            }),
    {
        proof {
            reveal(FillerView::goes_to);
        }
        proof {
            self.lemma_wf();
        }
        let ghost r = filler_model::PlaceRequest {
            pages: pages as int,
            stride: stride as int,
            hints,
        };
        let ghost v = self@;
        match self.find_candidate(pages, stride, hints) {
            Some((hp, off, sc)) => {
                proof {
                    bitmap::lemma_fit_bounds(v.pages[hp as int].live, r.pages, r.stride);
                }
                if sc < HugePageFiller::fresh_score(hints) {
                    match self.open_fresh() {
                        Some(fresh) => {
                            proof {
                                assert(v.candidate(r, hp as int));
                                assert(v.pages[fresh as int] == HugePageView::fresh());
                            }
                            return Some((fresh, 0usize));
                        },
                        None => {},
                    }
                }
                Some((hp, off))
            },
            None => match self.open_fresh() {
                Some(fresh) => {
                    proof {
                        assert(v.pages[fresh as int] == HugePageView::fresh());
                    }
                    Some((fresh, 0usize))
                },
                None => None,
            },
        }
    }

    /// Place a run of `pages` pages at `align`. The bins are scanned densest first; the best
    /// candidate of the first bin with room is taken, or a fresh hugepage when none has room
    /// or when the candidate scores less than a fresh one. `None`, with nothing changed, on a
    /// malformed request or when there is no room.
    pub fn place(&mut self, pages: usize, align: usize, hints: PlaceHints) -> (res: Option<
        Placement,
    >)
        requires
            old(self).wf(),
        ensures
            final(self).wf(),
            ({
                let v = old(self)@;
                let well_formed = 0 < pages <= PAGES_PER_HUGEPAGE && filler_model::alignable(
                    align as int,
                );
                let r = filler_model::PlaceRequest {
                    pages: pages as int,
                    stride: filler_model::stride_of(align as int),
                    hints,
                };
                match res {
                    Some(p) => {
                        let hp = p.hugepage as int;
                        let off = (p.base - v.huge_base(hp)) / (PAGE_SIZE as int);
                        &&& well_formed
                        &&& p.base == v.huge_base(hp) + off * PAGE_SIZE
                        &&& p.pages == pages
                        &&& v.goes_to(r, hp, off)
                        &&& hp < v.pages.len()
                        &&& 0 <= off
                        &&& off + pages <= PAGES_PER_HUGEPAGE
                        &&& v.pages[hp].live.disjoint(bitmap::page_run(off, pages as int))
                        &&& final(self)@ == v.placed(r, hp, off)
                        &&& p.commit_run == (if bitmap::page_run(off, pages as int).subset_of(
                            v.pages[hp].committed,
                        ) {
                            None
                        } else {
                            Some(((p.base - v.base) as usize, (pages * PAGE_SIZE) as usize))
                        })
                    },
                    None => {
                        &&& final(self)@ == v
                        &&& !well_formed || (v.no_candidate(r) && v.opened == v.pages.len())
                    },
                }
            }),
    {
        proof {
            self.lemma_wf();
        }
        if pages == 0 || pages > PAGES_PER_HUGEPAGE {
            return None;
        }
        let stride: usize = match HugePageFiller::align_stride(align) {
            Some(s) => s,
            None => return None,
        };
        let ghost r = filler_model::PlaceRequest {
            pages: pages as int,
            stride: stride as int,
            hints,
        };
        let ghost v = self@;
        let (hp, off): (u32, usize) = match self.pick(pages, stride, hints) {
            Some(t) => t,
            None => return None,
        };
        proof {
            self.lemma_wf();
        }
        let base: usize = self.huge_base(hp) + off * PAGE_SIZE;
        proof {
            assert((base - v.huge_base(hp as int)) / (PAGE_SIZE as int) == off);
        }
        let needs_commit: bool = self.carve(hp, off, pages, hints);
        let commit_run: Option<(usize, usize)> = if needs_commit {
            Some((base - self.region_base, pages * PAGE_SIZE))
        } else {
            None
        };
        Some(Placement { hugepage: hp, base, pages, commit_run })
    }

    /// The page offset of a run in hugepage `hp`, or `None` when `(hp, base, pages)` names no
    /// run of an opened hugepage.
    fn validate_run(&self, hp: u32, base: usize, pages: usize) -> (res: Option<usize>)
        requires
            self@.geometry(),
        ensures
            match res {
                Some(off) => {
                    &&& self@.names_run(hp as int, base as int, pages as int)
                    &&& off == self@.offset_in(hp as int, base as int)
                    &&& off + pages <= PAGES_PER_HUGEPAGE
                },
                None => !self@.names_run(hp as int, base as int, pages as int),
            },
    {
        if hp >= self.next_untouched || pages == 0 {
            return None;
        }
        let start: usize = self.huge_base(hp);
        if base < start {
            return None;
        }
        let byte_off: usize = base - start;
        if byte_off % PAGE_SIZE != 0 {
            return None;
        }
        let off: usize = byte_off / PAGE_SIZE;
        if off >= PAGES_PER_HUGEPAGE || pages > PAGES_PER_HUGEPAGE - off {
            return None;
        }
        Some(off)
    }

    /// Back the `pages` pages at page `off` of hugepage `hp`.
    fn back_run(&mut self, hp: u32, off: usize, pages: usize)
        requires
            old(self).wf(),
            hp < old(self)@.opened,
            off + pages <= PAGES_PER_HUGEPAGE,
        ensures
            final(self).wf(),
            final(self)@ == old(self)@.with_page(
                hp as int,
                old(self)@.pages[hp as int].backed(off as int, pages as int),
            ),
    {
        proof {
            reveal(HugePageFiller::wf);
        }
        let ghost before = *self;
        let mut s = self.slots[hp as usize];
        let ghost p = s.spec_view();
        proof {
            assert(p == self@.pages[hp as int]);
            p.lemma_backed(off as int, pages as int);
        }
        s.committed.set_run(off, pages);
        s.released.clear_run(off, pages);
        proof {
            assert(s.spec_view() =~= p.backed(off as int, pages as int));
        }
        self.refile(hp, s);
        proof {
            before@.lemma_with_page(hp as int, s.spec_view());
        }
    }

    /// Confirm that a placement has been backed. A token that names no run of an opened
    /// hugepage is ignored.
    pub fn mark_committed(&mut self, p: &Placement)
        requires
            old(self).wf(),
        ensures
            final(self).wf(),
            ({
                let v = old(self)@;
                let hp = p.hugepage as int;
                final(self)@ == (if v.names_run(hp, p.base as int, p.pages as int) {
                    v.with_page(
                        hp,
                        v.pages[hp].backed(v.offset_in(hp, p.base as int), p.pages as int),
                    )
                } else {
                    v
                })
            }),
    {
        proof {
            self.lemma_wf();
        }
        match self.validate_run(p.hugepage, p.base, p.pages) {
            Some(off) => self.back_run(p.hugepage, off, p.pages),
            None => {},
        }
    }

    /// The hugepage and page offset of the live allocation that is exactly `pages` pages at
    /// `base`, or `None` when there is none outside runs of whole hugepages.
    fn find_allocation(&self, base: usize, pages: usize) -> (res: Option<(u32, usize)>)
        requires
            self.wf(),
        ensures
            match res {
                Some((hp, off)) => {
                    &&& self@.is_allocation(base as int, pages as int)
                    &&& hp == self@.index_of(base as int)
                    &&& hp < self@.opened
                    &&& off == self@.page_at(base as int)
                    &&& off + pages <= PAGES_PER_HUGEPAGE
                },
                None => !self@.is_allocation(base as int, pages as int),
            },
    {
        proof {
            reveal(HugePageFiller::wf);
        }
        let hp: u32 = match self.index_of(base) {
            Some(i) => i,
            None => return None,
        };
        let s = self.slots[hp as usize];
        proof {
            assert(s.spec_view() == self@.pages[hp as int]);
        }
        if !s.touched || pages == 0 || (base - self.region_base) % PAGE_SIZE != 0 {
            return None;
        }
        let off: usize = (base - self.huge_base(hp)) / PAGE_SIZE;
        if pages > PAGES_PER_HUGEPAGE - off {
            return None;
        }
        if s.in_run || !s.heads.get(off) {
            return None;
        }
        if !s.live.run_is_fully_set(off, pages) {
            return None;
        }
        if !s.heads.run_is_clear(off + 1, pages - 1) {
            return None;
        }
        if off + pages < PAGES_PER_HUGEPAGE && s.live.get(off + pages) && !s.heads.get(
            off + pages,
        ) {
            return None;
        }
        proof {
            s.live.lemma_view();
        }
        Some((hp, off))
    }

    /// Free the allocation of `pages` pages at `base`; its pages stay backed. Anything that is
    /// not exactly a live allocation is refused with nothing changed: a foreign or unaligned
    /// address, a second free, a part of an allocation, a member of a run of whole hugepages.
    pub fn free(&mut self, base: usize, pages: usize) -> (res: FreeReport)
        requires
            old(self).wf(),
        ensures
            final(self).wf(),
            ({
                let v = old(self)@;
                let hp = v.index_of(base as int);
                let q = v.pages[hp].freed(v.page_at(base as int), pages as int);
                &&& res.valid == v.is_allocation(base as int, pages as int)
                &&& res.now_empty == (res.valid && q.used() == 0)
                &&& final(self)@ == (if res.valid {
                    v.with_page(hp, q)
                } else {
                    v
                })
            }),
    {
        let (hp, off): (u32, usize) = match self.find_allocation(base, pages) {
            Some(t) => t,
            None => return FreeReport { valid: false, now_empty: false },
        };
        proof {
            reveal(HugePageFiller::wf);
        }
        let ghost before = *self;
        let mut s = self.slots[hp as usize];
        let ghost p = s.spec_view();
        proof {
            assert(p == self@.pages[hp as int]);
            p.lemma_freed(off as int, pages as int);
        }
        s.heads.clear(off);
        s.live.clear_run(off, pages);
        let now_empty: bool = s.live.count() == 0;
        if now_empty {
            s.hotness = Hotness::Neutral;
            s.lifetime = Lifetime::Unspecified;
        }
        proof {
            assert(s.spec_view() =~= p.freed(off as int, pages as int));
        }
        self.refile(hp, s);
        proof {
            before@.lemma_with_page(hp as int, s.spec_view());
        }
        FreeReport { valid: true, now_empty }
    }

    /// Cut the allocation of `old_pages` pages at `base` to `new_pages`, returning its tail to
    /// the filler. Answers `false`, with nothing changed, unless that is a strict cut of
    /// exactly a live allocation.
    pub fn trim(&mut self, base: usize, old_pages: usize, new_pages: usize) -> (res: bool)
        requires
            old(self).wf(),
        ensures
            final(self).wf(),
            ({
                let v = old(self)@;
                let hp = v.index_of(base as int);
                let q = v.pages[hp].trimmed(
                    v.page_at(base as int),
                    old_pages as int,
                    new_pages as int,
                );
                &&& res == (0 < new_pages < old_pages && v.is_allocation(
                    base as int,
                    old_pages as int,
                ))
                &&& final(self)@ == (if res {
                    v.with_page(hp, q)
                } else {
                    v
                })
            }),
    {
        if new_pages == 0 || new_pages >= old_pages {
            return false;
        }
        let (hp, off): (u32, usize) = match self.find_allocation(base, old_pages) {
            Some(t) => t,
            None => return false,
        };
        proof {
            reveal(HugePageFiller::wf);
        }
        let ghost before = *self;
        let mut s = self.slots[hp as usize];
        let ghost p = s.spec_view();
        proof {
            assert(p == self@.pages[hp as int]);
            p.lemma_trimmed(off as int, old_pages as int, new_pages as int);
        }
        s.live.clear_run(off + new_pages, old_pages - new_pages);
        proof {
            assert(s.spec_view() =~= p.trimmed(off as int, old_pages as int, new_pages as int));
        }
        self.refile(hp, s);
        proof {
            before@.lemma_with_page(hp as int, s.spec_view());
        }
        true
    }

    /// Decide to return the `pages` backed free pages at `base`. `None`, with nothing changed,
    /// unless they may be returned; no live page ever is. The caller takes the backing away,
    /// or undoes this with [`unsubrelease`](Self::unsubrelease).
    pub fn subrelease(&mut self, base: usize, pages: usize, pressure_high: bool) -> (res: Option<
        Subrelease,
    >)
        requires
            old(self).wf(),
        ensures
            final(self).wf(),
            ({
                let v = old(self)@;
                let hp = v.index_of(base as int);
                let off = v.page_at(base as int);
                match res {
                    Some(sr) => {
                        &&& v.may_return(base as int, pages as int, pressure_high)
                        &&& sr.hugepage == hp
                        &&& sr.region_offset == base - v.base
                        &&& sr.len == pages * PAGE_SIZE
                        &&& final(self)@ == (FillerView {
                            subreleases: if v.subreleases < u64::MAX {
                                v.subreleases + 1
                            } else {
                                v.subreleases
                            },
                            ..v.with_page(hp, v.pages[hp].returned(off, pages as int))
                        })
                    },
                    None => {
                        &&& !v.may_return(base as int, pages as int, pressure_high)
                        &&& final(self)@ == v
                    },
                }
            }),
    {
        proof {
            reveal(HugePageFiller::wf);
        }
        let hp: u32 = match self.index_of(base) {
            Some(i) => i,
            None => return None,
        };
        let ghost before = *self;
        let mut s = self.slots[hp as usize];
        let ghost p = s.spec_view();
        proof {
            assert(p == self@.pages[hp as int]);
        }
        if !s.touched || pages == 0 || (base - self.region_base) % PAGE_SIZE != 0 {
            return None;
        }
        let off: usize = (base - self.huge_base(hp)) / PAGE_SIZE;
        if pages > PAGES_PER_HUGEPAGE - off {
            return None;
        }
        if !s.live.run_is_clear(off, pages) {
            return None;
        }
        if !s.committed.run_is_fully_set(off, pages) {
            return None;
        }
        let cold_or_sparse: bool = s.bin == HugeBin::ColdSparse || s.bin == HugeBin::Sparse
            || s.bin == HugeBin::NearlyEmpty || s.bin == HugeBin::EmptyBacked || s.hotness
            == Hotness::Cold;
        if !(cold_or_sparse || pressure_high) {
            return None;
        }
        let predicted_cost: usize = s.used() / FRAGMENTATION_COST_DIVISOR;
        if !pressure_high && pages < predicted_cost {
            return None;
        }
        proof {
            p.lemma_returned(off as int, pages as int);
        }
        s.committed.clear_run(off, pages);
        s.released.set_run(off, pages);
        proof {
            assert(s.spec_view() =~= p.returned(off as int, pages as int));
        }
        self.refile(hp, s);
        proof {
            before@.lemma_with_page(hp as int, s.spec_view());
        }
        let ghost mid = *self;
        self.subrelease_events = self.subrelease_events.saturating_add(1);
        proof {
            self.lemma_only_events_differ(mid);
        }
        Some(
            Subrelease {
                hugepage: hp,
                region_offset: base - self.region_base,
                len: pages * PAGE_SIZE,
            },
        )
    }

    /// The subrelease counter has no bearing on anything else.
    proof fn lemma_only_events_differ(self, other: HugePageFiller)
        requires
            other.shape(-1),
            other@.ok(),
            self == (HugePageFiller { subrelease_events: self.subrelease_events, ..other }),
        ensures
            self.wf(),
            self@ == (FillerView { subreleases: self.subrelease_events as int, ..other@ }),
    {
        reveal(HugePageFiller::wf);
        assert(self@.pages == other@.pages);
        assert forall|c: int| #![trigger self.lists@[c]] 0 <= c < HugeBin::COUNT implies linked(
            self.slots@,
            self.lists@[c],
            self.bins@[c],
            self.bin_tails@[c],
        ) by {
            assert(other.lists@[c] == self.lists@[c]);
        }
        assert forall|j: int| #![trigger self@.pages[j]] 0 <= j < self@.opened implies self@.run_ok(
            j,
        ) by {
            assert(other@.run_ok(j));
        }
    }

    /// Undo a subrelease whose backing could not be taken away. A token that names no run of
    /// an opened hugepage is ignored.
    pub fn unsubrelease(&mut self, sr: &Subrelease)
        requires
            old(self).wf(),
        ensures
            final(self).wf(),
            ({
                let v = old(self)@;
                let hp = sr.hugepage as int;
                let base = v.base + sr.region_offset;
                let pages = sr.len as int / (PAGE_SIZE as int);
                final(self)@ == (if v.names_run(hp, base, pages) {
                    v.with_page(hp, v.pages[hp].backed(v.offset_in(hp, base), pages))
                } else {
                    v
                })
            }),
    {
        proof {
            self.lemma_wf();
        }
        let pages: usize = sr.len / PAGE_SIZE;
        let base: usize = match self.region_base.checked_add(sr.region_offset) {
            Some(b) => b,
            None => return,
        };
        match self.validate_run(sr.hugepage, base, pages) {
            Some(off) => self.back_run(sr.hugepage, off, pages),
            None => {},
        }
    }

    /// The lowest `n` consecutive opened hugepages that hold nothing live.
    fn find_consecutive_empty(&self, n: usize) -> (res: Option<u32>)
        requires
            self.wf(),
            0 < n <= self@.pages.len(),
        ensures
            match res {
                Some(s) => self@.first_empty_run(s as int, n as int),
                None => self@.no_empty_run(n as int),
            },
    {
        proof {
            self.lemma_wf();
        }
        let ghost v = self@;
        let mut run: usize = 0;
        let mut i: u32 = 0;
        while i < self.next_untouched
            invariant
                v == self@,
                v.ok(),
                self.slots@.len() == v.pages.len(),
                self.next_untouched == v.opened,
                i <= v.opened <= v.pages.len() <= u32::MAX,
                0 < n <= v.pages.len(),
                run < n,
                run <= i,
                forall|j: int| #![trigger v.pages[j]] i - run <= j < i ==> v.pages[j].used() == 0,
                run < i ==> v.pages[i - run - 1].used() != 0,
                forall|s: int| s + n <= i ==> !#[trigger] v.empty_run(s, n as int),
            decreases v.opened - i,
        {
            let s = self.slots[i as usize];
            proof {
                assert(s.spec_view() == v.pages[i as int]);
            }
            if s.used() == 0 {
                run = run + 1;
                if run == n {
                    let start: u32 = i + 1 - n as u32;
                    proof {
                        assert(v.empty_run(start as int, n as int));
                    }
                    return Some(start);
                }
                proof {
                    assert forall|t: int| t + n <= i + 1 implies !#[trigger] v.empty_run(
                        t,
                        n as int,
                    ) by {
                        if t + n == i + 1 && v.empty_run(t, n as int) {
                            assert(t <= i - run);
                            assert(v.pages[i - run].used() != 0);
                        }
                    }
                }
            } else {
                run = 0;
                proof {
                    assert forall|t: int| t + n <= i + 1 implies !#[trigger] v.empty_run(
                        t,
                        n as int,
                    ) by {
                        if t + n == i + 1 && v.empty_run(t, n as int) {
                            assert(v.pages[i as int].used() == 0);
                        }
                    }
                }
            }
            i = i + 1;
        }
        None
    }

    /// Mark the `n` whole hugepages from `start` on as one run.
    fn mark_run(&mut self, start: u32, n: usize)
        requires
            old(self).wf(),
            0 < n,
            start + n <= old(self)@.opened,
            forall|i: int|
                #![trigger old(self)@.pages[i]]
                start <= i < start + n ==> old(self)@.pages[i].full() && old(self)@.pages[i].run_len
                    == 0 && !old(self)@.pages[i].in_run,
        ensures
            final(self).wf(),
            final(self)@ == old(self)@.marked_run(start as int, n as int),
    {
        proof {
            reveal(HugePageFiller::wf);
        }
        let ghost before = *self;
        let ghost v = self@;
        let mut k: usize = n;
        while k > 0
            invariant
                0 <= k <= n,
                0 < n,
                v == before@,
                before.shape(-1),
                v.ok(),
                start + n <= v.opened,
                forall|i: int|
                    #![trigger v.pages[i]]
                    start <= i < start + n ==> v.pages[i].full() && v.pages[i].run_len == 0
                        && !v.pages[i].in_run,
                *self == (HugePageFiller { slots: self.slots, ..before }),
                self.slots@.len() == before.slots@.len(),
                forall|i: int|
                    #![trigger self.slots@[i]]
                    0 <= i < self.slots@.len() ==> self.slots@[i] == (if start + k <= i < start + n {
                        HugePageSlot {
                            in_run: true,
                            run_len: if i == start {
                                n as u32
                            } else {
                                0
                            },
                            ..before.slots@[i]
                        }
                    } else {
                        before.slots@[i]
                    }),
            decreases k,
        {
            k = k - 1;
            let j: usize = start as usize + k;
            let mut s = self.slots[j];
            s.in_run = true;
            s.run_len = if k == 0 {
                n as u32
            } else {
                0
            };
            self.slots.set(j, s);
        }
        proof {
            let w = self@;
            assert(w =~= v.marked_run(start as int, n as int)) by {
                assert forall|i: int| 0 <= i < w.pages.len() implies #[trigger] w.pages[i]
                    == v.marked_run(start as int, n as int).pages[i] by {
                    assert(self.slots@[i].spec_view() == w.pages[i]);
                    assert(before.slots@[i].spec_view() == v.pages[i]);
                }
            }
            assert forall|i: int| #![trigger w.pages[i]] 0 <= i < w.pages.len() implies w.pages[i].bin()
                == v.pages[i].bin() && w.pages[i].full() == v.pages[i].full() by {}
            self.lemma_same_bins(before);
            assert forall|i: int| #![trigger w.pages[i]] 0 <= i < w.pages.len() implies w.pages[i].ok() by {
                assert(v.pages[i].ok());
                v.pages[i].lemma_same_allocations(w.pages[i]);
            }
            assert forall|i: int| #![trigger w.pages[i]] w.opened <= i < w.pages.len() implies w.pages[i]
                == HugePageView::fresh() by {
                assert(v.pages[i] == HugePageView::fresh());
            }
            assert forall|i: int| #![trigger w.pages[i]] 0 <= i < w.opened implies w.run_ok(i) by {
                assert(v.run_ok(i));
                assert(v.pages[i].run_len > 0 ==> v.pages[i].in_run);
                if v.pages[i].run_len > 0 {
                    assert forall|j: int|
                        #![trigger w.pages[j]]
                        i < j < i + w.pages[i].run_len implies w.pages[j].in_run
                        && w.pages[j].run_len == 0 by {
                        assert(v.pages[j].in_run && v.pages[j].run_len == 0);
                    }
                }
            }
            reveal(HugePageFiller::wf);
        }
    }

    /// Slots whose bins and fullness are as before are filed as before.
    proof fn lemma_same_bins(self, before: HugePageFiller)
        requires
            before.shape(-1),
            self == (HugePageFiller { slots: self.slots, ..before }),
            self.slots@.len() == before.slots@.len(),
            forall|i: int|
                #![trigger self.slots@[i]]
                0 <= i < self.slots@.len() ==> {
                    &&& self.slots@[i].touched == before.slots@[i].touched
                    &&& self.slots@[i].bin == before.slots@[i].bin
                    &&& self.slots@[i].bin_prev == before.slots@[i].bin_prev
                    &&& self.slots@[i].bin_next == before.slots@[i].bin_next
                },
            forall|i: int|
                #![trigger self@.pages[i]]
                0 <= i < self@.pages.len() ==> self@.pages[i].bin() == before@.pages[i].bin()
                    && self@.pages[i].full() == before@.pages[i].full(),
        ensures
            self.shape(-1),
    {
        let w = self@;
        let v = before@;
        assert(w.lists == v.lists);
        assert forall|c: int| #![trigger self.lists@[c]] 0 <= c < HugeBin::COUNT implies linked(
            self.slots@,
            self.lists@[c],
            self.bins@[c],
            self.bin_tails@[c],
        ) && filler_model::list_ok(w.pages, self.lists@[c], c, w.opened, -1) by {
            let lc = before.lists@[c];
            assert(linked(before.slots@, lc, before.bins@[c], before.bin_tails@[c]));
            assert(filler_model::list_ok(v.pages, lc, c, v.opened, -1));
            assert forall|m: int| #![trigger lc[m]] 0 <= m < lc.len() implies {
                &&& self.slots@[lc[m]].bin_prev == before.slots@[lc[m]].bin_prev
                &&& self.slots@[lc[m]].bin_next == before.slots@[lc[m]].bin_next
                &&& w.pages[lc[m]].bin() == v.pages[lc[m]].bin()
                &&& w.pages[lc[m]].full() == v.pages[lc[m]].full()
            } by {
                let j = lc[m];
                assert(self.slots@[j].bin_prev == before.slots@[j].bin_prev);
                assert(w.pages[j].bin() == v.pages[j].bin());
            }
            lemma_linked_frame(before.slots@, self.slots@, lc, before.bins@[c], before.bin_tails@[c]);
        }
        assert forall|j: int| 0 <= j < w.opened implies #[trigger] filler_model::is_filed(
            w.pages,
            w.lists,
            j,
        ) by {
            assert(filler_model::is_filed(v.pages, v.lists, j));
            assert(w.pages[j].bin() == v.pages[j].bin());
        }
        assert forall|i: int| #![trigger self.slots@[i]] 0 <= i < self.next_untouched implies self.slots@[i].bin
            == self.slots@[i].spec_view().bin() by {
            assert(w.pages[i] == self.slots@[i].spec_view());
            assert(v.pages[i] == before.slots@[i].spec_view());
        }
    }

    /// Take the empty hugepage `j` whole. Answers whether some page of it is not backed yet.
    fn take_whole(&mut self, j: u32) -> (res: bool)
        requires
            old(self).wf(),
            j < old(self)@.opened,
            old(self)@.pages[j as int].used() == 0,
        ensures
            final(self).wf(),
            final(self)@ == old(self)@.with_page(j as int, old(self)@.pages[j as int].taken_whole()),
            res == !bitmap::all_pages().subset_of(old(self)@.pages[j as int].committed),
    {
        proof {
            self.lemma_wf();
            assert(self@.pages[j as int].ok());
            bitmap::lemma_pages_bounded(self@.pages[j as int].live);
            assert(bitmap::page_run(0, PAGES_PER_HUGEPAGE as int) == bitmap::all_pages());
        }
        self.carve(j, 0, PAGES_PER_HUGEPAGE, PlaceHints::default())
    }

    /// Reserve `n` consecutive whole hugepages: the lowest that hold nothing live, or the next
    /// fresh ones. `None`, with nothing changed, when there are neither.
    pub fn reserve_hugepages(&mut self, n: usize) -> (res: Option<HugeRun>)
        requires
            old(self).wf(),
        ensures
            final(self).wf(),
            ({
                let v = old(self)@;
                match res {
                    Some(run) => {
                        let start = v.index_of(run.base as int);
                        &&& 0 < n
                        &&& run.hugepages == n
                        &&& run.base == v.huge_base(start)
                        &&& 0 <= start
                        &&& start + n <= v.pages.len()
                        &&& v.first_empty_run(start, n as int) || (start == v.opened
                            && v.no_empty_run(n as int))
                        &&& final(self)@ == v.reserved(start, n as int)
                        &&& run.commit_run == (if v.unbacked_in(start, n as int) {
                            Some(((run.base - v.base) as usize, (n * HUGEPAGE_SIZE) as usize))
                        } else {
                            None
                        })
                    },
                    None => {
                        &&& final(self)@ == v
                        &&& n == 0 || (v.no_empty_run(n as int) && v.opened + n > v.pages.len())
                    },
                }
            }),
    {
        proof {
            self.lemma_wf();
        }
        let ghost v = self@;
        let capacity: usize = self.slots.len();
        if n == 0 || n > capacity {
            return None;
        }
        match self.find_consecutive_empty(n) {
            Some(start) => {
                proof {
                    assert(v.empty_run(start as int, n as int));
                    assert(start < v.opened);
                }
                Some(self.take_run(start, n))
            },
            None => {
                if n > capacity - self.next_untouched as usize {
                    return None;
                }
                Some(self.take_fresh_run(n))
            },
        }
    }

    /// Reserve the `n` opened hugepages from `start` on, which hold nothing live.
    fn take_run(&mut self, start: u32, n: usize) -> (res: HugeRun)
        requires
            old(self).wf(),
            0 < n,
            old(self)@.empty_run(start as int, n as int),
        ensures
            final(self).wf(),
            ({
                let v = old(self)@;
                &&& v.index_of(res.base as int) == start
                &&& res.hugepages == n
                &&& res.base == v.huge_base(start as int)
                &&& final(self)@ == v.reserved(start as int, n as int)
                &&& res.commit_run == (if v.unbacked_in(start as int, n as int) {
                    Some(((res.base - v.base) as usize, (n * HUGEPAGE_SIZE) as usize))
                } else {
                    None
                })
            }),
    {
        proof {
            self.lemma_wf();
        }
        let ghost v = self@;
        let ghost f = |p: HugePageView| p.taken_whole();
        let mut needs_commit: bool = false;
        let mut k: usize = 0;
        while k < n
            invariant
                0 <= k <= n,
                self.wf(),
                v.ok(),
                v.empty_run(start as int, n as int),
                start + n <= v.opened <= v.pages.len() <= u32::MAX,
                f == (|p: HugePageView| p.taken_whole()),
                self@ == v.each_page(start as int, k as int, f),
                needs_commit == v.unbacked_in(start as int, k as int),
            decreases n - k,
        {
            let j: u32 = start + k as u32;
            proof {
                v.lemma_each_page(start as int, k as int, f);
                assert(v.pages[j as int].used() == 0);
                assert(self@.pages[j as int] == v.pages[j as int]);
            }
            let unbacked: bool = self.take_whole(j);
            proof {
                v.lemma_unbacked_step(start as int, k as int);
            }
            needs_commit = needs_commit || unbacked;
            k = k + 1;
        }
        proof {
            v.lemma_each_page(start as int, n as int, f);
            let u = self@;
            assert forall|i: int| #![trigger u.pages[i]] start <= i < start + n implies u.pages[i].full()
                && u.pages[i].run_len == 0 && !u.pages[i].in_run by {
                assert(v.pages[i].ok());
                v.pages[i].lemma_taken_whole();
            }
        }
        self.mark_run(start, n);
        let base: usize = self.run_base(start, n);
        HugeRun {
            base,
            hugepages: n,
            commit_run: if needs_commit {
                Some((base - self.region_base, n * HUGEPAGE_SIZE))
            } else {
                None
            },
        }
    }

    /// Reserve the next `n` fresh hugepages.
    fn take_fresh_run(&mut self, n: usize) -> (res: HugeRun)
        requires
            old(self).wf(),
            0 < n,
            old(self)@.opened + n <= old(self)@.pages.len(),
        ensures
            final(self).wf(),
            ({
                let v = old(self)@;
                &&& v.index_of(res.base as int) == v.opened
                &&& res.hugepages == n
                &&& res.base == v.huge_base(v.opened)
                &&& final(self)@ == v.reserved(v.opened, n as int)
                &&& res.commit_run == (if v.unbacked_in(v.opened, n as int) {
                    Some(((res.base - v.base) as usize, (n * HUGEPAGE_SIZE) as usize))
                } else {
                    None
                })
            }),
    {
        proof {
            self.lemma_wf();
        }
        let ghost v = self@;
        let start: u32 = self.next_untouched;
        let mut needs_commit: bool = false;
        let mut k: usize = 0;
        while k < n
            invariant
                0 <= k <= n,
                self.wf(),
                v.ok(),
                start == v.opened,
                v.opened + n <= v.pages.len() <= u32::MAX,
                self@ == v.take_fresh(k as int),
                needs_commit == v.unbacked_in(start as int, k as int),
            decreases n - k,
        {
            proof {
                v.lemma_take_fresh(k as int);
            }
            let opened: Option<u32> = self.open_fresh();
            let j: u32 = start + k as u32;
            proof {
                assert(opened == Some(j));
                assert(v.pages[j as int] == HugePageView::fresh());
                assert(self@.pages[j as int] == v.pages[j as int]);
                assert(Set::<int>::empty().len() == 0);
            }
            let unbacked: bool = self.take_whole(j);
            proof {
                v.lemma_unbacked_step(start as int, k as int);
            }
            needs_commit = needs_commit || unbacked;
            k = k + 1;
        }
        proof {
            v.lemma_take_fresh(n as int);
            let u = self@;
            assert forall|i: int| #![trigger u.pages[i]] start <= i < start + n implies u.pages[i].full()
                && u.pages[i].run_len == 0 && !u.pages[i].in_run by {
                assert(v.pages[i] == HugePageView::fresh());
                assert(v.pages[i].ok());
                assert(Set::<int>::empty().len() == 0);
                v.pages[i].lemma_taken_whole();
            }
        }
        self.mark_run(start, n);
        let base: usize = self.run_base(start, n);
        HugeRun {
            base,
            hugepages: n,
            commit_run: if needs_commit {
                Some((base - self.region_base, n * HUGEPAGE_SIZE))
            } else {
                None
            },
        }
    }

    /// The base address of the run of `n` hugepages from `start` on.
    fn run_base(&self, start: u32, n: usize) -> (res: usize)
        requires
            self.wf(),
            0 < n,
            start + n <= self@.pages.len(),
        ensures
            res == self@.huge_base(start as int),
            self@.index_of(res as int) == start,
            self.region_base == self@.base,
            res >= self.region_base,
            n * HUGEPAGE_SIZE <= usize::MAX,
    {
        proof {
            self.lemma_wf();
        }
        self.huge_base(start)
    }

    /// Reserve the `n` whole hugepages at `base` again. `None`, with nothing changed, unless
    /// `base` is the start of a hugepage and all `n` are opened and hold nothing live.
    pub fn reserve_hugepages_at(&mut self, base: usize, n: usize) -> (res: Option<HugeRun>)
        requires
            old(self).wf(),
        ensures
            final(self).wf(),
            ({
                let v = old(self)@;
                let start = v.index_of(base as int);
                let claimable = 0 < n && v.covers(base as int) && base == v.huge_base(start)
                    && v.empty_run(start, n as int);
                match res {
                    Some(run) => {
                        &&& claimable
                        &&& run.base == base
                        &&& run.hugepages == n
                        &&& final(self)@ == v.reserved(start, n as int)
                        &&& run.commit_run == (if v.unbacked_in(start, n as int) {
                            Some(((base - v.base) as usize, (n * HUGEPAGE_SIZE) as usize))
                        } else {
                            None
                        })
                    },
                    None => !claimable && final(self)@ == v,
                }
            }),
    {
        proof {
            self.lemma_wf();
        }
        let ghost v = self@;
        let start: u32 = match self.index_of(base) {
            Some(i) => i,
            None => return None,
        };
        if base != self.huge_base(start) || n == 0 || start >= self.next_untouched || n
            > self.next_untouched as usize - start as usize {
            return None;
        }
        let mut k: usize = 0;
        while k < n
            invariant
                self.wf(),
                v == old(self)@,
                start == v.index_of(base as int),
                k <= n,
                v == self@,
                self.slots@.len() == v.pages.len(),
                start + n <= v.opened <= v.pages.len() <= u32::MAX,
                forall|i: int|
                    #![trigger v.pages[i]]
                    start <= i < start + k ==> v.pages[i].used() == 0,
            decreases n - k,
        {
            let s = self.slots[start as usize + k];
            proof {
                assert(s.spec_view() == v.pages[start + k]);
            }
            if s.used() != 0 {
                return None;
            }
            k = k + 1;
        }
        proof {
            assert(v.empty_run(start as int, n as int));
        }
        Some(self.take_run(start, n))
    }

    /// Confirm that a run of whole hugepages has been backed. A token that names no run of
    /// opened hugepages is ignored.
    pub fn mark_run_committed(&mut self, run: &HugeRun)
        requires
            old(self).wf(),
        ensures
            final(self).wf(),
            ({
                let v = old(self)@;
                let start = v.index_of(run.base as int);
                let named = v.opened_at(run.base as int) && run.base == v.huge_base(start) && 0
                    < run.hugepages && start + run.hugepages <= v.opened;
                final(self)@ == (if named {
                    v.each_page(start, run.hugepages as int, |p: HugePageView| p.backed_whole())
                } else {
                    v
                })
            }),
    {
        proof {
            self.lemma_wf();
        }
        let ghost v = self@;
        let start: u32 = match self.index_of(run.base) {
            Some(i) => i,
            None => return,
        };
        let n: usize = run.hugepages;
        if run.base != self.huge_base(start) || n == 0 || start >= self.next_untouched || n
            > self.next_untouched as usize - start as usize {
            return;
        }
        let ghost f = |p: HugePageView| p.backed_whole();
        let mut k: usize = 0;
        while k < n
            invariant
                k <= n,
                self.wf(),
                v.ok(),
                start + n <= v.opened <= v.pages.len() <= u32::MAX,
                f == (|p: HugePageView| p.backed_whole()),
                self@ == v.each_page(start as int, k as int, f),
            decreases n - k,
        {
            proof {
                v.lemma_each_page(start as int, k as int, f);
                reveal(HugePageFiller::wf);
            }
            let ghost before = *self;
            let j: u32 = start + k as u32;
            let mut s = self.slots[j as usize];
            let ghost p = s.spec_view();
            proof {
                assert(p == self@.pages[j as int]);
                assert(p.ok());
            }
            s.committed = s.live;
            s.released = PageBitmap::empty();
            proof {
                assert(s.spec_view() =~= p.backed_whole());
                p.lemma_same_allocations(s.spec_view());
            }
            self.refile(j, s);
            proof {
                before@.lemma_with_page(j as int, s.spec_view());
            }
            k = k + 1;
        }
    }

    /// Free the run of exactly `n` whole hugepages that starts at `base`; its pages stay
    /// backed. Anything else is refused with nothing changed, a part of a run too.
    pub fn free_hugepages(&mut self, base: usize, n: usize) -> (res: FreeReport)
        requires
            old(self).wf(),
        ensures
            final(self).wf(),
            ({
                let v = old(self)@;
                let start = v.index_of(base as int);
                &&& res.valid == (v.opened_at(base as int) && base == v.huge_base(start) && 0 < n
                    && v.pages[start].run_len == n)
                &&& res.now_empty == res.valid
                &&& final(self)@ == (if res.valid {
                    v.each_page(start, n as int, |p: HugePageView| p.emptied())
                } else {
                    v
                })
            }),
    {
        proof {
            self.lemma_wf();
        }
        let ghost v = self@;
        let start: u32 = match self.index_of(base) {
            Some(i) => i,
            None => return FreeReport { valid: false, now_empty: false },
        };
        proof {
            assert(self.slots@[start as int].spec_view() == v.pages[start as int]);
        }
        if n == 0 || start >= self.next_untouched || base != self.huge_base(start)
            || self.slots[start as usize].run_len as usize != n {
            return FreeReport { valid: false, now_empty: false };
        }
        proof {
            assert(v.pages[start as int].run_len == n);
            assert(v.run_ok(start as int));
        }
        let ghost f = |p: HugePageView| p.emptied();
        let mut k: usize = 0;
        while k < n
            invariant
                k <= n,
                self.wf(),
                v.ok(),
                0 < n,
                v.pages[start as int].run_len == n,
                v.run_ok(start as int),
                start + n <= v.opened <= v.pages.len() <= u32::MAX,
                f == (|p: HugePageView| p.emptied()),
                self@ == v.each_page(start as int, k as int, f),
            decreases n - k,
        {
            proof {
                v.lemma_each_page(start as int, k as int, f);
                reveal(HugePageFiller::wf);
            }
            let ghost before = *self;
            let j: u32 = start + k as u32;
            let mut s = self.slots[j as usize];
            let ghost p = s.spec_view();
            proof {
                assert(p == self@.pages[j as int]);
                assert(p == v.pages[j as int]);
                assert(p.ok());
                assert(k > 0 ==> p.run_len == 0);
            }
            s.live = PageBitmap::empty();
            s.heads = PageBitmap::empty();
            s.in_run = false;
            s.run_len = 0;
            s.hotness = Hotness::Neutral;
            s.lifetime = Lifetime::Unspecified;
            proof {
                assert(s.spec_view() =~= p.emptied());
            }
            self.refile(j, s);
            proof {
                before@.lemma_dropped_member(v, start as int, n as int, k as int);
            }
            k = k + 1;
        }
        FreeReport { valid: true, now_empty: true }
    }

    /// Mark the hugepage that covers `addr` cold. Answers `false`, with nothing changed, when
    /// no opened hugepage does.
    pub fn mark_cold(&mut self, addr: usize) -> (res: bool)
        requires
            old(self).wf(),
        ensures
            final(self).wf(),
            ({
                let v = old(self)@;
                let i = v.index_of(addr as int);
                &&& res == v.opened_at(addr as int)
                &&& final(self)@ == (if res {
                    v.with_page(i, HugePageView { hotness: Hotness::Cold, ..v.pages[i] })
                } else {
                    v
                })
            }),
    {
        proof {
            reveal(HugePageFiller::wf);
        }
        let i: u32 = match self.index_of(addr) {
            Some(i) => i,
            None => return false,
        };
        let ghost before = *self;
        let mut s = self.slots[i as usize];
        proof {
            assert(s.spec_view() == self@.pages[i as int]);
            assert(self@.pages[i as int].ok());
        }
        if !s.touched {
            return false;
        }
        s.hotness = Hotness::Cold;
        self.refile(i, s);
        proof {
            before@.pages[i as int].lemma_same_allocations(s.spec_view());
            before@.lemma_with_page(i as int, s.spec_view());
        }
        true
    }

    /// The number of hugepages in the region.
    pub fn capacity(&self) -> (res: usize)
        ensures
            res == self@.pages.len(),
    {
        self.slots.len()
    }

    /// The number of hugepages opened so far.
    pub fn touched(&self) -> (res: usize)
        ensures
            res == self@.opened,
    {
        self.next_untouched as usize
    }

    /// Subreleases so far.
    pub fn subrelease_events(&self) -> (res: u64)
        ensures
            res == self@.subreleases,
    {
        self.subrelease_events
    }

    /// Base address of the region.
    pub fn region_base(&self) -> (res: usize)
        ensures
            res == self@.base,
    {
        self.region_base
    }

    /// The bin of the hugepage that covers `addr`, or `None` when no opened hugepage does.
    pub fn bin_of(&self, addr: usize) -> (res: Option<HugeBin>)
        requires
            self.wf(),
        ensures
            res == (if self@.opened_at(addr as int) {
                Some(self@.pages[self@.index_of(addr as int)].bin())
            } else {
                None
            }),
    {
        proof {
            reveal(HugePageFiller::wf);
        }
        let i: u32 = match self.index_of(addr) {
            Some(i) => i,
            None => return None,
        };
        let s = self.slots[i as usize];
        proof {
            assert(s.spec_view() == self@.pages[i as int]);
        }
        if !s.touched {
            return None;
        }
        Some(s.bin)
    }

    /// The live pages of the hugepage that covers `addr`; 0 outside the region.
    pub fn used_pages_of(&self, addr: usize) -> (res: usize)
        requires
            self.wf(),
        ensures
            res == (if self@.covers(addr as int) {
                self@.pages[self@.index_of(addr as int)].used()
            } else {
                0
            }),
    {
        proof {
            self.lemma_wf();
        }
        match self.index_of(addr) {
            Some(i) => {
                let s = self.slots[i as usize];
                proof {
                    assert(s.spec_view() == self@.pages[i as int]);
                }
                s.used()
            },
            None => 0,
        }
    }

    /// The hugepages filed in `bin`, in the order in which a placement looks at them.
    pub fn bin_list(&self, bin: HugeBin) -> (res: Vec<u32>)
        requires
            self.wf(),
        ensures
            res@.len() == self@.lists[bin.number()].len(),
            forall|k: int|
                0 <= k < res@.len() ==> #[trigger] res@[k] as int == self@.lists[bin.number()][k],
    {
        proof {
            reveal(HugePageFiller::wf);
        }
        let ghost l = self.lists@[bin.number()];
        let mut out: Vec<u32> = Vec::new();
        let mut i: u32 = self.bins[bin.index()];
        proof {
            assert(linked(
                self.slots@,
                l,
                self.bins@[bin.number()],
                self.bin_tails@[bin.number()],
            ));
            assert(filler_model::list_ok(self@.pages, l, bin.number(), self@.opened, -1));
        }
        while i != NIL
            invariant
                linked(
                    self.slots@,
                    l,
                    self.bins@[bin.number()],
                    self.bin_tails@[bin.number()],
                ),
                filler_model::list_ok(self@.pages, l, bin.number(), self@.opened, -1),
                self@.opened <= self.slots@.len() <= u32::MAX,
                out@.len() <= l.len(),
                forall|k: int| 0 <= k < out@.len() ==> #[trigger] out@[k] as int == l[k],
                i as int == (if out@.len() < l.len() {
                    l[out@.len() as int]
                } else {
                    NIL as int
                }),
            decreases l.len() - out@.len(),
        {
            proof {
                assert(link_at(self.slots@, l, out@.len() as int));
                assert(0 <= l[out@.len() as int] < self@.opened);
            }
            out.push(i);
            i = self.slots[i as usize].bin_next;
        }
        out
    }

    /// The next hugepage at or after `from` that holds a backed page and nothing live, with its
    /// base address and how many pages are backed.
    pub fn next_empty_backed(&self, from: u32) -> (res: Option<(u32, usize, usize)>)
        requires
            self.wf(),
        ensures
            match res {
                Some((i, base, committed)) => {
                    &&& from <= i < self@.opened
                    &&& self@.pages[i as int].empty_backed()
                    &&& base == self@.huge_base(i as int)
                    &&& committed == self@.pages[i as int].committed.len()
                    &&& forall|j: int|
                        #![trigger self@.pages[j]]
                        from <= j < i ==> !self@.pages[j].empty_backed()
                },
                None => forall|j: int|
                    #![trigger self@.pages[j]]
                    from <= j < self@.opened ==> !self@.pages[j].empty_backed(),
            },
    {
        proof {
            self.lemma_wf();
        }
        let ghost v = self@;
        let mut i: u32 = from;
        while i < self.next_untouched
            invariant
                v == self@,
                v.geometry(),
                self.slots@.len() == v.pages.len(),
                self.next_untouched == v.opened,
                from <= i,
                i <= v.opened || i == from,
                forall|j: int|
                    #![trigger v.pages[j]]
                    from <= j < i ==> !v.pages[j].empty_backed(),
            decreases v.opened - i,
        {
            let s = self.slots[i as usize];
            proof {
                assert(s.spec_view() == v.pages[i as int]);
            }
            if s.used() == 0 {
                let committed: usize = s.committed.count();
                if committed != 0 {
                    return Some((i, self.huge_base(i), committed));
                }
            }
            i = i + 1;
        }
        None
    }

    /// How many hugepages hold a backed page and nothing live.
    pub fn empty_backed_hugepages(&self) -> (res: usize)
        requires
            self.wf(),
        ensures
            res == self@.total(filler_model::Metric::EmptyBackedPages),
    {
        proof {
            self.lemma_wf();
        }
        let ghost v = self@;
        let mut n: usize = 0;
        let mut i: u32 = 0;
        while i < self.next_untouched
            invariant
                v == self@,
                self.slots@.len() == v.pages.len(),
                self.next_untouched == v.opened <= v.pages.len(),
                i <= v.opened,
                n <= i,
                n == filler_model::sum_pages(
                    filler_model::Metric::EmptyBackedPages,
                    v.pages,
                    i as int,
                ),
            decreases v.opened - i,
        {
            let s = self.slots[i as usize];
            proof {
                assert(s.spec_view() == v.pages[i as int]);
            }
            if s.used() == 0 && s.committed.count() != 0 {
                n = n + 1;
            }
            i = i + 1;
        }
        n
    }

    /// The next maximal run of backed pages of hugepage `hp` at or after page `from`, as its
    /// first page and length; `None` when there is none, or the hugepage is not opened.
    pub fn next_committed_run(&self, hp: u32, from: usize) -> (res: Option<(usize, usize)>)
        requires
            self.wf(),
            from <= PAGES_PER_HUGEPAGE,
        ensures
            ({
                let c = self@.pages[hp as int].committed;
                match res {
                    Some((off, pages)) => {
                        &&& hp < self@.opened
                        &&& from <= off
                        &&& 0 < pages
                        &&& off + pages <= PAGES_PER_HUGEPAGE
                        &&& forall|p: int| from <= p < off ==> !c.contains(p)
                        &&& bitmap::page_run(off as int, pages as int).subset_of(c)
                        &&& !c.contains(off + pages)
                    },
                    None => hp < self@.opened ==> forall|p: int|
                        from <= p < PAGES_PER_HUGEPAGE ==> !c.contains(p),
                }
            }),
    {
        proof {
            self.lemma_wf();
        }
        if hp >= self.next_untouched {
            return None;
        }
        let s = self.slots[hp as usize];
        proof {
            assert(s.spec_view() == self@.pages[hp as int]);
            s.committed.lemma_view();
        }
        let off: usize = s.committed.seek(from, true);
        if off >= PAGES_PER_HUGEPAGE {
            return None;
        }
        let end: usize = s.committed.seek(off, false);
        Some((off, end - off))
    }

    /// The coverage statistics over the opened hugepages.
    pub fn coverage(&self) -> (res: HugeStats)
        requires
            self.wf(),
        ensures
            self@.has_stats(res),
    {
        proof {
            reveal(HugePageFiller::wf);
        }
        let ghost v = self@;
        let mut st = HugeStats::default();
        let mut i: u32 = 0;
        while i < self.next_untouched
            invariant
                v == self@,
                v.ok(),
                self.shape(-1),
                self.slots@.len() == v.pages.len(),
                self.next_untouched == v.opened <= v.pages.len(),
                v.pages.len() * HUGEPAGE_SIZE <= usize::MAX,
                i <= v.opened,
                (FillerView { opened: i as int, ..v }).has_stats(st),
            decreases v.opened - i,
        {
            let s = self.slots[i as usize];
            let ghost p = v.pages[i as int];
            let ghost before = st;
            proof {
                assert(s.spec_view() == p);
                assert(s.bin == p.bin());
                filler_model::lemma_amounts(p);
                filler_model::lemma_one_bin(p);
                lemma_stats_bounded(v, i as int);
            }
            let used: usize = s.used();
            let committed: usize = s.committed.count();
            let released: usize = s.subreleased();
            let live_b: u64 = (used * PAGE_SIZE) as u64;
            st.coverage_bytes = st.coverage_bytes + HUGEPAGE_SIZE as u64;
            st.live_total_bytes = st.live_total_bytes + live_b;
            let b: usize = s.bin.index();
            let in_bin: u32 = st.bins[b];
            proof {
                assert(before.bins@[b as int] == in_bin);
            }
            st.bins[b] = in_bin + 1;
            if used == 0 {
                st.empty_backed_bytes = st.empty_backed_bytes + (committed * PAGE_SIZE) as u64;
                st.empty_released_bytes = st.empty_released_bytes + (released * PAGE_SIZE) as u64;
            } else {
                if released == 0 {
                    st.live_bytes_on_intact = st.live_bytes_on_intact + live_b;
                } else {
                    st.live_bytes_on_partial = st.live_bytes_on_partial + live_b;
                    st.partial_subreleased_bytes = st.partial_subreleased_bytes + (released
                        * PAGE_SIZE) as u64;
                }
                let backed_free: usize = committed.saturating_sub(used);
                st.fragmentation_bytes = st.fragmentation_bytes + (backed_free * PAGE_SIZE) as u64;
            }
            i = i + 1;
            proof {
                let w = FillerView { opened: i as int, ..v };
                assert forall|c: int| 0 <= c < HugeBin::COUNT implies #[trigger] st.bins@[c]
                    == w.total(filler_model::Metric::InBin(c)) by {
                    assert(before.bins@[c] == filler_model::sum_pages(
                        filler_model::Metric::InBin(c),
                        v.pages,
                        i - 1,
                    ));
                }
            }
        }
        proof {
            assert((FillerView { opened: i as int, ..v }) =~= v);
        }
        st
    }

    /// What [`check_invariants`](Self::check_invariants) asks of the slots: an opened hugepage
    /// has its live pages backed and none returned, no page both backed and returned, its
    /// allocations starting on live pages, a run member entirely live and the filed bin equal
    /// to the one that occupancy implies; any other hugepage is untouched.
    spec fn slot_good(self, i: int) -> bool {
        let s = self.slots@[i];
        let p = s.spec_view();
        if i < self.next_untouched {
            &&& s.touched
            &&& p.confirmed()
            &&& p.committed.disjoint(p.released)
            &&& p.heads.subset_of(p.live)
            &&& p.in_run ==> p.full()
            &&& p.run_len != 0 ==> p.in_run
            &&& s.bin == p.bin()
        } else {
            &&& !s.touched
            &&& p.used() == 0
            &&& p.committed.len() == 0
            &&& p.heads.len() == 0
            &&& !p.in_run
            &&& p.run_len == 0
        }
    }

    /// The links of the slots spell `lists`, which file every opened hugepage by its bin.
    spec fn spelled(self, lists: Seq<Seq<int>>) -> bool {
        &&& filler_model::lists_ok(self@.pages, lists, self@.opened, -1)
        &&& forall|b: int|
            #![trigger lists[b]]
            0 <= b < HugeBin::COUNT ==> linked(
                self.slots@,
                lists[b],
                self.bins@[b],
                self.bin_tails@[b],
            )
    }

    /// Every slot is good, and there are lists that the links spell.
    pub closed spec fn consistent(self) -> bool {
        &&& forall|i: int| 0 <= i < self.slots@.len() ==> #[trigger] self.slot_good(i)
        &&& exists|lists: Seq<Seq<int>>| self.spelled(lists)
    }

    /// A well-formed filler is consistent exactly when every placement has been confirmed.
    pub proof fn lemma_consistent(self)
        requires
            self.wf(),
        ensures
            self.consistent() <==> self@.confirmed(),
    {
        reveal(HugePageFiller::wf);
        assert(self.spelled(self.lists@));
        if self.consistent() {
            assert forall|i: int|
                #![trigger self@.pages[i]]
                0 <= i < self@.opened implies self@.pages[i].confirmed() by {
                assert(self.slot_good(i));
                assert(self.slots@[i].spec_view() == self@.pages[i]);
            }
        }
        if self@.confirmed() {
            assert forall|i: int| 0 <= i < self.slots@.len() implies #[trigger] self.slot_good(
                i,
            ) by {
                assert(self.slots@[i].spec_view() == self@.pages[i]);
                assert(self@.pages[i].ok());
                assert(Set::<int>::empty().len() == 0);
            }
        }
    }

    /// Walk the links of one bin, whose hugepages `expected` counts. Answers whether they spell
    /// a list: opened hugepages of that bin, linked both ways from head to tail, those with
    /// room before the full ones, all of them.
    fn check_bin(&self, b: usize, expected: usize) -> (res: (bool, Ghost<Seq<int>>))
        requires
            self@.geometry(),
            b < HugeBin::COUNT,
            forall|i: int| 0 <= i < self.slots@.len() ==> #[trigger] self.slot_good(i),
            expected == filler_model::sum_pages(
                filler_model::Metric::InBin(b as int),
                self@.pages,
                self@.opened,
            ),
        ensures
            res.0 ==> {
                let l = res.1@;
                &&& linked(self.slots@, l, self.bins@[b as int], self.bin_tails@[b as int])
                &&& filler_model::list_ok(self@.pages, l, b as int, self@.opened, -1)
                &&& forall|i: int|
                    #![trigger self@.pages[i]]
                    0 <= i < self@.opened && self@.pages[i].bin().number() == b ==> l.contains(i)
            },
            !res.0 ==> forall|lists: Seq<Seq<int>>| !#[trigger] self.spelled(lists),
    {
        let ghost v = self@;
        let ghost mut l: Seq<int> = Seq::empty();
        let mut j: u32 = self.bins[b];
        let mut prev: u32 = NIL;
        let mut seen: usize = 0;
        let mut seen_full: bool = false;
        proof {
            assert forall|lists: Seq<Seq<int>>| #[trigger] self.spelled(lists) implies walked(
                lists[b as int],
                l,
                j as int,
            ) by {
                assert(linked(
                    self.slots@,
                    lists[b as int],
                    self.bins@[b as int],
                    self.bin_tails@[b as int],
                ));
                assert(lists[b as int].take(0) =~= l);
            }
        }
        while j != NIL
            invariant
                v == self@,
                v.geometry(),
                b < HugeBin::COUNT,
                self.slots@.len() == v.pages.len() <= u32::MAX,
                self.next_untouched == v.opened <= v.pages.len(),
                forall|i: int| 0 <= i < self.slots@.len() ==> #[trigger] self.slot_good(i),
                l.len() == seen,
                seen <= self.slots@.len(),
                prev as int == (if seen == 0 {
                    NIL as int
                } else {
                    l[seen - 1]
                }),
                (if seen == 0 {
                    j
                } else {
                    l[0] as u32
                }) == self.bins@[b as int],
                forall|k: int|
                    #![trigger l[k]]
                    0 <= k < seen ==> 0 <= l[k] < v.opened && v.pages[l[k]].bin().number() == b,
                forall|k: int|
                    0 <= k < seen ==> #[trigger] half_link(self.slots@, l, k, j as int),
                forall|m: int, k: int|
                    #![trigger l[m], l[k]]
                    0 <= m < k < seen && v.pages[l[m]].full() ==> v.pages[l[k]].full(),
                seen_full == (seen > 0 && v.pages[l[seen - 1]].full()),
                forall|lists: Seq<Seq<int>>| #[trigger]
                    self.spelled(lists) ==> walked(lists[b as int], l, j as int),
            decreases self.slots@.len() + 1 - seen,
        {
            if j as usize >= self.slots.len() {
                proof {
                    assert forall|lists: Seq<Seq<int>>| !#[trigger] self.spelled(lists) by {
                        if self.spelled(lists) {
                            assert(walked(lists[b as int], l, j as int));
                            assert(filler_model::list_ok(
                                v.pages,
                                lists[b as int],
                                b as int,
                                v.opened,
                                -1,
                            ));
                            assert(lists[b as int][seen as int] == j);
                        }
                    }
                }
                return (false, Ghost(l));
            }
            let s = self.slots[j as usize];
            proof {
                assert(self.slot_good(j as int));
                assert(s.spec_view() == v.pages[j as int]);
                assert forall|lists: Seq<Seq<int>>| #[trigger] self.spelled(lists) implies {
                    let x = lists[b as int];
                    &&& seen < x.len()
                    &&& x[seen as int] == j
                    &&& x.take(seen as int) == l
                    &&& linked(self.slots@, x, self.bins@[b as int], self.bin_tails@[b as int])
                    &&& filler_model::list_ok(v.pages, x, b as int, v.opened, -1)
                    &&& link_at(self.slots@, x, seen as int)
                } by {
                    let x = lists[b as int];
                    assert(walked(x, l, j as int));
                    assert(linked(self.slots@, x, self.bins@[b as int], self.bin_tails@[b as int]));
                    assert(filler_model::list_ok(v.pages, x, b as int, v.opened, -1));
                    assert(0 <= x[seen as int] < v.opened || seen == x.len());
                }
            }
            if !s.touched || s.bin.index() != b || s.bin_prev != prev {
                proof {
                    assert forall|lists: Seq<Seq<int>>| !#[trigger] self.spelled(lists) by {
                        if self.spelled(lists) {
                            let x = lists[b as int];
                            assert(link_at(self.slots@, x, seen as int));
                            if seen > 0 {
                                assert(x.take(seen as int)[seen - 1] == x[seen - 1]);
                            }
                        }
                    }
                }
                return (false, Ghost(l));
            }
            let full: bool = s.used() >= PAGES_PER_HUGEPAGE;
            if seen_full && !full {
                proof {
                    assert forall|lists: Seq<Seq<int>>| !#[trigger] self.spelled(lists) by {
                        if self.spelled(lists) {
                            let x = lists[b as int];
                            assert(x.take(seen as int)[seen - 1] == x[seen - 1]);
                            assert(v.pages[x[seen - 1]].full());
                        }
                    }
                }
                return (false, Ghost(l));
            }
            if seen == self.slots.len() {
                proof {
                    assert forall|lists: Seq<Seq<int>>| !#[trigger] self.spelled(lists) by {
                        if self.spelled(lists) {
                            lemma_distinct_len(lists[b as int], self.slots@.len() as int);
                        }
                    }
                }
                return (false, Ghost(l));
            }
            seen_full = seen_full || full;
            let ghost grown = l.push(j as int);
            proof {
                assert forall|k: int| 0 <= k < seen + 1 implies #[trigger] half_link(
                    self.slots@,
                    grown,
                    k,
                    s.bin_next as int,
                ) by {
                    if k < seen {
                        assert(half_link(self.slots@, l, k, j as int));
                    }
                }
                assert forall|lists: Seq<Seq<int>>| #[trigger] self.spelled(lists) implies walked(
                    lists[b as int],
                    grown,
                    s.bin_next as int,
                ) by {
                    let x = lists[b as int];
                    assert(x.take(seen + 1) =~= grown);
                    assert(link_at(self.slots@, x, seen as int));
                }
                l = grown;
            }
            prev = j;
            j = s.bin_next;
            seen = seen + 1;
        }
        proof {
            lemma_walk_distinct(self.slots@, l, NIL as int);
            assert forall|k: int| 0 <= k < l.len() implies #[trigger] link_at(
                self.slots@,
                l,
                k,
            ) by {
                assert(half_link(self.slots@, l, k, NIL as int));
            }
            filler_model::lemma_members(v.pages, v.opened, b as int);
            l.unique_seq_to_set();
            let set = filler_model::members(v.pages, v.opened, b as int);
            assert forall|i: int| l.to_set().contains(i) implies set.contains(i) by {
                let k = choose|k: int| 0 <= k < l.len() && l[k] == i;
            }
        }
        if seen != expected {
            proof {
                assert forall|lists: Seq<Seq<int>>| !#[trigger] self.spelled(lists) by {
                    if self.spelled(lists) {
                        filler_model::lemma_list_len(v.pages, lists, v.opened, b as int);
                        assert(walked(lists[b as int], l, NIL as int));
                        assert(filler_model::list_ok(
                            v.pages,
                            lists[b as int],
                            b as int,
                            v.opened,
                            -1,
                        ));
                    }
                }
            }
            return (false, Ghost(l));
        }
        if self.bin_tails[b] != prev {
            proof {
                assert forall|lists: Seq<Seq<int>>| !#[trigger] self.spelled(lists) by {
                    if self.spelled(lists) {
                        let x = lists[b as int];
                        assert(walked(x, l, NIL as int));
                        assert(filler_model::list_ok(v.pages, x, b as int, v.opened, -1));
                        assert(x.take(seen as int) =~= x);
                        assert(linked(
                            self.slots@,
                            x,
                            self.bins@[b as int],
                            self.bin_tails@[b as int],
                        ));
                    }
                }
            }
            return (false, Ghost(l));
        }
        proof {
            let set = filler_model::members(v.pages, v.opened, b as int);
            lemma_subset_equality(l.to_set(), set);
            assert forall|i: int|
                #![trigger v.pages[i]]
                0 <= i < v.opened && v.pages[i].bin().number() == b implies l.contains(i) by {
                assert(set.contains(i));
                assert(l.to_set().contains(i));
            }
        }
        (true, Ghost(l))
    }

    /// Whether the filler is well formed: for every opened hugepage the live pages are backed
    /// and not returned, the filed bin is the one that occupancy implies, and the bin lists
    /// are intact; and the other hugepages are untouched. A filler whose placements have all
    /// been confirmed is.
    pub fn check_invariants(&self) -> (res: bool)
        requires
            self@.geometry(),
        ensures
            res == self.consistent(),
            self.wf() ==> res == self@.confirmed(),
    {
        proof {
            if self.wf() {
                self.lemma_consistent();
            }
        }
        let ghost v = self@;
        let mut binned: [usize; HugeBin::COUNT] = [0usize; HugeBin::COUNT];
        let mut i: usize = 0;
        while i < self.slots.len()
            invariant
                v == self@,
                v.geometry(),
                self.slots@.len() == v.pages.len(),
                self.next_untouched == v.opened <= v.pages.len() <= u32::MAX,
                i <= self.slots@.len(),
                forall|k: int| 0 <= k < i ==> #[trigger] self.slot_good(k),
                self.wf() ==> self.consistent() == v.confirmed(),
                forall|b: int|
                    0 <= b < HugeBin::COUNT ==> #[trigger] binned@[b] == filler_model::sum_pages(
                        filler_model::Metric::InBin(b),
                        v.pages,
                        filler_model::min_of(i as int, v.opened),
                    ) && binned@[b] <= i,
            decreases self.slots@.len() - i,
        {
            let s = self.slots[i];
            let ghost p = s.spec_view();
            proof {
                assert(p == v.pages[i as int]);
            }
            if i >= self.next_untouched as usize {
                if s.touched || s.used() != 0 || s.committed.count() != 0 || s.heads.count() != 0
                    || s.in_run || s.run_len != 0 {
                    proof {
                        assert(!self.slot_good(i as int));
                    }
                    return false;
                }
            } else {
                if !s.touched || !s.live.is_subset(&s.committed) || !s.committed.is_disjoint(
                    &s.released,
                ) || !s.live.is_disjoint(&s.released) || !s.heads.is_subset(&s.live) || (s.in_run
                    && s.used() != PAGES_PER_HUGEPAGE) || (s.run_len != 0 && !s.in_run) || s.bin
                    != s.target_bin() {
                    proof {
                        assert(!self.slot_good(i as int));
                    }
                    return false;
                }
                let b: usize = s.bin.index();
                let ghost before = binned@;
                let count: usize = binned[b];
                proof {
                    assert(binned@[b as int] == count);
                }
                binned[b] = count + 1;
                proof {
                    assert forall|c: int| 0 <= c < HugeBin::COUNT implies #[trigger] binned@[c]
                        == filler_model::sum_pages(
                        filler_model::Metric::InBin(c),
                        v.pages,
                        i + 1,
                    ) && binned@[c] <= i + 1 by {
                        assert(before[c] == filler_model::sum_pages(
                            filler_model::Metric::InBin(c),
                            v.pages,
                            i as int,
                        ));
                    }
                }
            }
            proof {
                assert(self.slot_good(i as int));
            }
            i = i + 1;
        }
        let ghost mut lists: Seq<Seq<int>> = Seq::empty();
        let mut b: usize = 0;
        while b < HugeBin::COUNT
            invariant
                v == self@,
                v.geometry(),
                self.slots@.len() == v.pages.len(),
                b <= HugeBin::COUNT,
                lists.len() == b,
                forall|k: int| 0 <= k < self.slots@.len() ==> #[trigger] self.slot_good(k),
                self.wf() ==> self.consistent() == v.confirmed(),
                forall|c: int|
                    0 <= c < HugeBin::COUNT ==> #[trigger] binned@[c] == filler_model::sum_pages(
                        filler_model::Metric::InBin(c),
                        v.pages,
                        v.opened,
                    ),
                forall|c: int|
                    #![trigger lists[c]]
                    0 <= c < b ==> {
                        &&& linked(self.slots@, lists[c], self.bins@[c], self.bin_tails@[c])
                        &&& filler_model::list_ok(v.pages, lists[c], c, v.opened, -1)
                        &&& forall|i: int|
                            #![trigger v.pages[i]]
                            0 <= i < v.opened && v.pages[i].bin().number() == c
                                ==> lists[c].contains(i)
                    },
            decreases HugeBin::COUNT - b,
        {
            let expected: usize = binned[b];
            proof {
                assert(binned@[b as int] == expected);
            }
            let (good, Ghost(l)) = self.check_bin(b, expected);
            if !good {
                return false;
            }
            proof {
                lists = lists.push(l);
            }
            b = b + 1;
        }
        proof {
            assert forall|i: int| 0 <= i < v.opened implies #[trigger] filler_model::is_filed(
                v.pages,
                lists,
                i,
            ) by {
                filler_model::lemma_one_bin(v.pages[i]);
                let c = v.pages[i].bin().number();
                assert(lists[c].contains(i));
            }
            assert(self.spelled(lists));
        }
        true
    }
}

} // verus!
