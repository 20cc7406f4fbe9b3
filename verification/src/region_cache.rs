//! The index of recently freed runs of whole hugepages.
use vstd::prelude::*;
use crate::bitmap::HUGEPAGE_SIZE;
use crate::bootstrap::BumpArena;
use crate::filler::{HugePageFiller, HugeRun};
use crate::filler_model::FillerView;
use crate::overflow;

verus! {

/// Metadata bytes of one entry.
pub const REGION_CACHE_SLOT_BYTES: usize = 16;

/// One entry: a freed run, or nothing when `hugepages` is 0.
#[derive(Clone, Copy)]
pub struct RegionCacheEntry {
    base: usize,
    hugepages: u32,
}

/// A fixed number of freed runs, kept for reuse by size. The runs themselves are free in the
/// filler: an entry that has been reused meanwhile is dropped when it is met.
pub struct RegionCache {
    entries: Vec<RegionCacheEntry>,
    live: u32,
}

/// The number of entries that hold a run.
pub open spec fn live_entries(s: Seq<(int, int)>) -> int
    decreases s.len(),
{
    if s.len() == 0 {
        0
    } else {
        live_entries(s.drop_last()) + (if s.last().1 != 0 {
            1int
        } else {
            0int
        })
    }
}

/// Changing one entry changes the count by that entry alone.
proof fn lemma_live_update(s: Seq<(int, int)>, i: int, e: (int, int))
    requires
        0 <= i < s.len(),
    ensures
        live_entries(s.update(i, e)) == live_entries(s) - (if s[i].1 != 0 {
            1int
        } else {
            0int
        }) + (if e.1 != 0 {
            1int
        } else {
            0int
        }),
        0 <= live_entries(s) <= s.len(),
    decreases s.len(),
{
    lemma_live_bounds(s);
    let u = s.update(i, e);
    if i == s.len() - 1 {
        assert(u.drop_last() =~= s.drop_last());
    } else {
        assert(u.drop_last() =~= s.drop_last().update(i, e));
        lemma_live_update(s.drop_last(), i, e);
    }
}

proof fn lemma_live_bounds(s: Seq<(int, int)>)
    ensures
        0 <= live_entries(s) <= s.len(),
    decreases s.len(),
{
    if s.len() > 0 {
        lemma_live_bounds(s.drop_last());
    }
}

/// An entry that holds a run is counted.
proof fn lemma_live_positive(s: Seq<(int, int)>, i: int)
    requires
        0 <= i < s.len(),
        s[i].1 != 0,
    ensures
        live_entries(s) > 0,
    decreases s.len(),
{
    lemma_live_bounds(s.drop_last());
    if i < s.len() - 1 {
        lemma_live_positive(s.drop_last(), i);
    }
}

/// Whether `n` whole hugepages of `v` can be reserved again at `base`.
pub open spec fn claimable(v: FillerView, base: int, n: int) -> bool {
    &&& 0 < n
    &&& v.covers(base)
    &&& base == v.huge_base(v.index_of(base))
    &&& v.empty_run(v.index_of(base), n)
}

/// Entry `i` is the first of `n` hugepages that can be reserved again.
pub open spec fn first_warm(s: Seq<(int, int)>, v: FillerView, n: int, i: int) -> bool {
    &&& 0 <= i < s.len()
    &&& s[i].1 == n
    &&& claimable(v, s[i].0, n)
    &&& forall|j: int| #![trigger s[j]] 0 <= j < i && s[j].1 == n ==> !claimable(v, s[j].0, n)
}

/// No entry of `n` hugepages can be reserved again.
pub open spec fn no_warm(s: Seq<(int, int)>, v: FillerView, n: int) -> bool {
    forall|j: int|
        #![trigger s[j]]
        0 <= j < s.len() && s[j].1 == n ==> !claimable(v, s[j].0, n)
}

/// The entries with those of `n` hugepages among the first `k` dropped.
pub open spec fn pruned(s: Seq<(int, int)>, n: int, k: int) -> Seq<(int, int)> {
    Seq::new(
        s.len(),
        |j: int|
            if j < k && s[j].1 == n {
                (0int, 0int)
            } else {
                s[j]
            },
    )
}

/// Entry `i` is the first that holds nothing.
pub open spec fn first_vacant(s: Seq<(int, int)>, i: int) -> bool {
    &&& 0 <= i < s.len()
    &&& s[i].1 == 0
    &&& forall|j: int| #![trigger s[j]] 0 <= j < i ==> s[j].1 != 0
}

impl View for RegionCache {
    type V = Seq<(int, int)>;

    closed spec fn view(&self) -> Seq<(int, int)> {
        self.entries@.map_values(|e: RegionCacheEntry| (e.base as int, e.hugepages as int))
    }
}

impl RegionCache {
    /// The count of held runs is right.
    pub closed spec fn wf(self) -> bool {
        self.live == live_entries(self@) && self.entries@.len() <= u32::MAX
    }

    /// A cache of `slots` empty entries, with metadata from `meta`; `None` on no or too many
    /// entries, or metadata exhaustion.
    pub fn new(meta: &mut BumpArena, slots: usize) -> (res: Option<RegionCache>)
        requires
            old(meta).wf(),
        ensures
            final(meta).wf(),
            final(meta).base() == old(meta).base(),
            final(meta).len() == old(meta).len(),
            ({
                let fits = 0 < slots <= u32::MAX && old(meta).next_start(8) + slots
                    * REGION_CACHE_SLOT_BYTES <= old(meta).base() + old(meta).len();
                match res {
                    Some(c) => {
                        &&& fits
                        &&& c.wf()
                        &&& c@ == Seq::new(slots as nat, |i: int| (0int, 0int))
                        &&& final(meta).used() == old(meta).next_start(8) + slots
                            * REGION_CACHE_SLOT_BYTES - old(meta).base()
                    },
                    None => !fits && final(meta).used() == old(meta).used(),
                }
            }),
    {
        if slots == 0 || slots > u32::MAX as usize {
            return None;
        }
        proof {
            vstd::arithmetic::power2::lemma2_to64();
            assert(overflow::is_pow2(8)) by {
                assert(8 == vstd::arithmetic::power2::pow2(3));
            }
            overflow::lemma_round_up(meta.base() + meta.used(), 8);
        }
        let bytes: usize = match slots.checked_mul(REGION_CACHE_SLOT_BYTES) {
            Some(v) => v,
            None => return None,
        };
        if meta.vend(bytes, 8).is_none() {
            return None;
        }
        let mut entries: Vec<RegionCacheEntry> = Vec::new();
        let mut n: usize = 0;
        let ghost blank = (0int, 0int);
        while n < slots
            invariant
                n <= slots,
                entries@.len() == n,
                forall|i: int|
                    #![trigger entries@[i]]
                    0 <= i < n ==> entries@[i].base == 0 && entries@[i].hugepages == 0,
            decreases slots - n,
        {
            entries.push(RegionCacheEntry { base: 0, hugepages: 0 });
            n = n + 1;
        }
        let c = RegionCache { entries, live: 0 };
        proof {
            assert(c@ =~= Seq::new(slots as nat, |i: int| (0int, 0int)));
            lemma_no_live(c@);
        }
        Some(c)
    }

    /// Reserve again in `filler` the first cached run of exactly `hugepages` hugepages that is
    /// still free. Entries of that size that are met and were reused meanwhile are dropped.
    pub fn take(&mut self, hugepages: usize, filler: &mut HugePageFiller) -> (res: Option<HugeRun>)
        requires
            old(self).wf(),
            old(filler).wf(),
        ensures
            final(self).wf(),
            final(filler).wf(),
            ({
                let s = old(self)@;
                let v = old(filler)@;
                let n = hugepages as int;
                match res {
                    Some(run) => exists|i: int|
                        {
                            &&& #[trigger] first_warm(s, v, n, i)
                            &&& final(self)@ == pruned(s, n, i + 1)
                            &&& run.base == s[i].0
                            &&& run.hugepages == n
                            &&& final(filler)@ == v.reserved(v.index_of(s[i].0), n)
                            &&& run.commit_run == (if v.unbacked_in(v.index_of(s[i].0), n) {
                                Some(((s[i].0 - v.base) as usize, (n * HUGEPAGE_SIZE) as usize))
                            } else {
                                None
                            })
                        },
                    None => {
                        &&& n == 0 || no_warm(s, v, n)
                        &&& final(self)@ == (if n == 0 {
                            s
                        } else {
                            pruned(s, n, s.len() as int)
                        })
                        &&& final(filler)@ == v
                    },
                }
            }),
    {
        if hugepages == 0 {
            return None;
        }
        let ghost s = self@;
        let ghost v = filler@;
        let ghost n = hugepages as int;
        proof {
            assert(pruned(s, n, 0) =~= s);
        }
        let mut i: usize = 0;
        while i < self.entries.len()
            invariant
                self.wf(),
                filler.wf(),
                filler@ == v,
                s == old(self)@,
                v == old(filler)@,
                n == hugepages > 0,
                self.entries@.len() == s.len(),
                i <= s.len(),
                self@ == pruned(s, n, i as int),
                forall|j: int|
                    #![trigger s[j]]
                    0 <= j < i && s[j].1 == n ==> !claimable(v, s[j].0, n),
            decreases s.len() - i,
        {
            let e = self.entries[i];
            proof {
                assert(self@[i as int] == s[i as int]);
                assert(self@[i as int] == (e.base as int, e.hugepages as int));
            }
            if e.hugepages as usize == hugepages {
                let ghost before = self@;
                proof {
                    lemma_live_update(before, i as int, (0int, 0int));
                    lemma_live_positive(before, i as int);
                }
                self.entries.set(i, RegionCacheEntry { base: 0, hugepages: 0 });
                self.live = self.live - 1;
                proof {
                    assert(self@ =~= before.update(i as int, (0int, 0int)));
                    assert(self@ =~= pruned(s, n, i + 1));
                }
                match filler.reserve_hugepages_at(e.base, hugepages) {
                    Some(run) => {
                        proof {
                            assert(first_warm(s, v, n, i as int));
                        }
                        return Some(run);
                    },
                    None => {},
                }
            } else {
                proof {
                    assert(pruned(s, n, i + 1) =~= pruned(s, n, i as int));
                }
            }
            i = i + 1;
        }
        None
    }

    /// Record the freed run of `hugepages` hugepages at `base` in the first empty entry;
    /// `false`, with nothing changed, when there is none.
    pub fn store(&mut self, base: usize, hugepages: usize) -> (res: bool)
        requires
            old(self).wf(),
            0 < hugepages <= u32::MAX,
        ensures
            final(self).wf(),
            ({
                let s = old(self)@;
                if res {
                    exists|i: int| #[trigger]
                        first_vacant(s, i) && final(self)@ == s.update(
                            i,
                            (base as int, hugepages as int),
                        )
                } else {
                    final(self)@ == s && forall|j: int| #![trigger s[j]] 0 <= j < s.len() ==> s[j].1
                        != 0
                }
            }),
    {
        let ghost s = self@;
        let mut i: usize = 0;
        while i < self.entries.len()
            invariant
                self.wf(),
                self@ == s,
                s == old(self)@,
                self.entries@.len() == s.len(),
                i <= s.len(),
                0 < hugepages <= u32::MAX,
                forall|j: int| #![trigger s[j]] 0 <= j < i ==> s[j].1 != 0,
            decreases s.len() - i,
        {
            proof {
                assert(self@[i as int] == (
                    self.entries@[i as int].base as int,
                    self.entries@[i as int].hugepages as int,
                ));
            }
            if self.entries[i].hugepages == 0 {
                proof {
                    lemma_live_update(s, i as int, (base as int, hugepages as int));
                    lemma_live_bounds(s.update(i as int, (base as int, hugepages as int)));
                }
                self.entries.set(i, RegionCacheEntry { base, hugepages: hugepages as u32 });
                self.live = self.live + 1;
                proof {
                    assert(self@ =~= s.update(i as int, (base as int, hugepages as int)));
                    assert(first_vacant(s, i as int));
                }
                return true;
            }
            i = i + 1;
        }
        false
    }

    /// Forget every entry.
    pub fn clear(&mut self)
        requires
            old(self).wf(),
        ensures
            final(self).wf(),
            final(self)@ == Seq::new(old(self)@.len(), |i: int| (0int, 0int)),
    {
        let ghost s = self@;
        let mut i: usize = 0;
        while i < self.entries.len()
            invariant
                self.entries@.len() == s.len() <= u32::MAX,
                i <= s.len(),
                forall|j: int|
                    #![trigger self.entries@[j]]
                    0 <= j < i ==> self.entries@[j].base == 0 && self.entries@[j].hugepages == 0,
            decreases s.len() - i,
        {
            self.entries.set(i, RegionCacheEntry { base: 0, hugepages: 0 });
            i = i + 1;
        }
        self.live = 0;
        proof {
            assert(self@ =~= Seq::new(s.len(), |i: int| (0int, 0int)));
            lemma_no_live(self@);
        }
    }

    /// How many runs are held.
    pub fn live(&self) -> (res: u32)
        requires
            self.wf(),
        ensures
            res == live_entries(self@),
    {
        self.live
    }
}

/// Empty entries hold no run.
proof fn lemma_no_live(s: Seq<(int, int)>)
    requires
        forall|i: int| #![trigger s[i]] 0 <= i < s.len() ==> s[i].1 == 0,
    ensures
        live_entries(s) == 0,
    decreases s.len(),
{
    if s.len() > 0 {
        lemma_no_live(s.drop_last());
    }
}

} // verus!
