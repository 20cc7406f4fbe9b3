//! The table of allocation-site profiles: fixed in size, with short probes, and with the least
//! useful site of a full window giving way to a new one.
use vstd::prelude::*;
use crate::huge_bin::PlaceHints;
use crate::overflow;
use crate::placement;
use crate::placement::{
    AllocationSiteProfile, ProfileView, StackId, BP_ONE, DEFAULT_MIN_CONFIDENCE_BP,
};

verus! {

/// How many slots a probe looks at.
pub const PROBE_LEN: usize = 8;

/// A mixed 64-bit hash.
pub open spec fn mix(x: u64) -> u64 {
    let a: u64 = (x ^ (x >> 30)).wrapping_mul(0xbf58_476d_1ce4_e5b9);
    let b: u64 = (a ^ (a >> 27)).wrapping_mul(0x94d0_49bb_1331_11eb);
    b ^ (b >> 31)
}

/// Multiplying by a number that has an inverse loses nothing.
proof fn lemma_multiplied(x: u64, y: u64, c: u64, inverse: int, k: int)
    requires
        x.wrapping_mul(c) == y.wrapping_mul(c),
        c * inverse == 1 + k * 0x1_0000_0000_0000_0000,
    ensures
        x == y,
{
    let m = 0x1_0000_0000_0000_0000int;
    let d = x - y;
    let q = (x * c) / m - (y * c) / m;
    vstd::arithmetic::div_mod::lemma_fundamental_div_mod(x * c, m);
    vstd::arithmetic::div_mod::lemma_fundamental_div_mod(y * c, m);
    assert((x * c) % m == (y * c) % m);
    assert(d * c == q * m) by (nonlinear_arith)
        requires
            x * c == m * ((x * c) / m) + (x * c) % m,
            y * c == m * ((y * c) / m) + (y * c) % m,
            (x * c) % m == (y * c) % m,
            d == x - y,
            q == (x * c) / m - (y * c) / m,
    ;
    let n = q * inverse - d * k;
    assert(d == n * m) by (nonlinear_arith)
        requires
            d * c == q * m,
            c * inverse == 1 + k * m,
            n == q * inverse - d * k,
    {
        assert(d * (c * inverse) == (d * c) * inverse);
        assert(d * (1 + k * m) == d + (d * k) * m);
        assert((q * m) * inverse == (q * inverse) * m);
        assert((q * inverse) * m - (d * k) * m == (q * inverse - d * k) * m);
    }
    assert(n == 0) by (nonlinear_arith)
        requires
            d == n * m,
            -m < d < m,
            m == 0x1_0000_0000_0000_0000int,
    ;
}

/// A hash loses nothing: different values have different hashes.
pub proof fn law_hashes_are_distinct(x: u64, y: u64)
    requires
        mix(x) == mix(y),
    ensures
        x == y,
{
    let a: u64 = (x ^ (x >> 30)).wrapping_mul(0xbf58_476d_1ce4_e5b9);
    let b: u64 = (a ^ (a >> 27)).wrapping_mul(0x94d0_49bb_1331_11eb);
    let c: u64 = (y ^ (y >> 30)).wrapping_mul(0xbf58_476d_1ce4_e5b9);
    let d: u64 = (c ^ (c >> 27)).wrapping_mul(0x94d0_49bb_1331_11eb);
    assert(b == d) by (bit_vector)
        requires
            b ^ (b >> 31) == d ^ (d >> 31),
    ;
    lemma_multiplied(
        a ^ (a >> 27),
        c ^ (c >> 27),
        0x94d0_49bb_1331_11eb,
        0x3196_42b2_d24d_8ec3,
        2077064247507883091,
    );
    assert(a == c) by (bit_vector)
        requires
            a ^ (a >> 27) == c ^ (c >> 27),
    ;
    lemma_multiplied(
        x ^ (x >> 30),
        y ^ (y >> 30),
        0xbf58_476d_1ce4_e5b9,
        0x96de_1b17_3f11_9089,
        8125545580553827436,
    );
    assert(x == y) by (bit_vector)
        requires
            x ^ (x >> 30) == y ^ (y >> 30),
    ;
}

/// A mixed 64-bit hash: the same value gives the same hash in every run.
pub fn splitmix64(x: u64) -> (res: u64)
    ensures
        res == mix(x),
{
    let a: u64 = (x ^ (x >> 30)).wrapping_mul(0xbf58_476d_1ce4_e5b9);
    let b: u64 = (a ^ (a >> 27)).wrapping_mul(0x94d0_49bb_1331_11eb);
    b ^ (b >> 31)
}

/// Counters of the table.
#[derive(Clone, Copy, PartialEq, Eq, Debug, Default, Structural)]
pub struct PlacementStats {
    /// Sites in the table.
    pub sites_tracked: u32,
    /// Sites that are trusted enough to be acted on.
    pub confident_sites: u32,
    /// Sampled allocations so far.
    pub alloc_samples: u64,
    /// Sampled frees so far.
    pub free_samples: u64,
    /// Objects found still live so far.
    pub censored_samples: u64,
    /// Sites that gave way so far.
    pub evictions: u64,
    /// The sampled live bytes of all sites.
    pub sampled_live_bytes: u64,
}

/// A table, mathematically.
#[verifier::ext_equal]
pub struct TableView {
    /// The slots.
    pub slots: Seq<Option<ProfileView>>,
    /// Sampled allocations so far.
    pub alloc_samples: u64,
    /// Sampled frees so far.
    pub free_samples: u64,
    /// Objects found still live so far.
    pub censored_samples: u64,
    /// Sites that gave way so far.
    pub evictions: u64,
    /// The confidence from which on a site is acted on.
    pub min_bp: u32,
}

/// How many of the first `n` slots are taken.
pub open spec fn taken(s: Seq<Option<ProfileView>>, n: int) -> int
    decreases n,
{
    if n <= 0 {
        0
    } else {
        taken(s, n - 1) + (if s[n - 1] is Some {
            1int
        } else {
            0int
        })
    }
}

/// How many of the first `n` slots hold a site trusted at least `min_bp`.
pub open spec fn trusted(s: Seq<Option<ProfileView>>, n: int, min_bp: int) -> int
    decreases n,
{
    if n <= 0 {
        0
    } else {
        trusted(s, n - 1, min_bp) + (if s[n - 1] is Some && (s[n - 1]->0).trust() >= min_bp {
            1int
        } else {
            0int
        })
    }
}

/// The sampled live bytes of the sites in the first `n` slots.
pub open spec fn live_sum(s: Seq<Option<ProfileView>>, n: int) -> int
    decreases n,
{
    if n <= 0 {
        0
    } else {
        live_sum(s, n - 1) + (if s[n - 1] is Some {
            (s[n - 1]->0).live_bytes as int
        } else {
            0int
        })
    }
}

impl TableView {
    /// The slot where the probe for `key` starts.
    pub open spec fn home(self, key: StackId) -> int {
        mix(key.0) as int % self.slots.len() as int
    }

    /// The slot that the probe for `key` looks at in its step `step`.
    pub open spec fn at(self, key: StackId, step: int) -> int {
        (self.home(key) + step) % self.slots.len() as int
    }

    /// The probe finds `key` in its step `step`.
    pub open spec fn holds(self, key: StackId, step: int) -> bool {
        let slot = self.slots[self.at(key, step)];
        slot is Some && (slot->0).stack_id == key
    }

    /// The probe finds a free slot in its step `step`.
    pub open spec fn vacant(self, key: StackId, step: int) -> bool {
        self.slots[self.at(key, step)] is None
    }

    /// The table tracks `key`.
    pub open spec fn tracks(self, key: StackId) -> bool {
        exists|step: int| 0 <= step < PROBE_LEN && #[trigger] self.holds(key, step)
    }

    /// The probe for `key` meets a free slot.
    pub open spec fn has_room(self, key: StackId) -> bool {
        exists|step: int| 0 <= step < PROBE_LEN && #[trigger] self.vacant(key, step)
    }

    /// The step in which the probe finds `key`.
    pub open spec fn found_at(self, key: StackId, step: int) -> bool {
        &&& 0 <= step < PROBE_LEN
        &&& self.holds(key, step)
        &&& forall|s: int| 0 <= s < step ==> !#[trigger] self.holds(key, s)
    }

    /// The profile of a tracked site.
    pub open spec fn profile_of(self, key: StackId) -> ProfileView {
        let step = choose|step: int| self.found_at(key, step);
        self.slots[self.at(key, step)]->0
    }

    /// The site in step `a` of the probe is less useful than that in step `b`: less trusted, or
    /// as much and longer idle.
    pub open spec fn less_useful(self, key: StackId, a: int, b: int) -> bool {
        let p = self.slots[self.at(key, a)]->0;
        let q = self.slots[self.at(key, b)]->0;
        ||| p.trust() < q.trust()
        ||| p.trust() == q.trust() && p.last_alloc_ms < q.last_alloc_ms
    }

    /// The slot that `key` is recorded in is that of step `step`: its own; or the first free
    /// one; or else the first of the least useful ones.
    pub open spec fn claims(self, key: StackId, step: int) -> bool {
        &&& 0 <= step < PROBE_LEN
        &&& if self.tracks(key) {
            self.found_at(key, step)
        } else if self.has_room(key) {
            &&& self.vacant(key, step)
            &&& forall|s: int| 0 <= s < step ==> !#[trigger] self.vacant(key, s)
        } else {
            &&& forall|s: int| 0 <= s < PROBE_LEN ==> !#[trigger] self.less_useful(key, s, step)
            &&& forall|s: int| 0 <= s < step ==> #[trigger] self.less_useful(key, step, s)
        }
    }

    /// The profile that a sample of `key` is recorded in.
    pub open spec fn claimed(self, key: StackId, step: int, now: u64) -> ProfileView {
        if self.tracks(key) {
            self.slots[self.at(key, step)]->0
        } else {
            ProfileView::fresh(key, now)
        }
    }

    /// The table with the profile in step `step` of the probe for `key` set.
    pub open spec fn with(self, key: StackId, step: int, p: ProfileView) -> TableView {
        TableView { slots: self.slots.update(self.at(key, step), Some(p)), ..self }
    }

    /// A site is in its own window.
    pub open spec fn in_window(self, i: int) -> bool {
        self.slots[i] is Some ==> exists|step: int|
            0 <= step < PROBE_LEN && i == #[trigger] self.at((self.slots[i]->0).stack_id, step)
    }

    /// Sites are known, distinct and in their own windows.
    pub open spec fn ok(self) -> bool {
        &&& self.slots.len() > 0
        &&& forall|i: int|
            #![trigger self.slots[i]]
            0 <= i < self.slots.len() && self.slots[i] is Some ==> placement::entries_ok(
                (self.slots[i]->0).sizes.entries,
            ) && (self.slots[i]->0).stack_id != StackId(0)
        &&& forall|i: int| 0 <= i < self.slots.len() ==> #[trigger] self.in_window(i)
        &&& forall|i: int, j: int|
            #![trigger self.slots[i], self.slots[j]]
            0 <= i < j < self.slots.len() && self.slots[i] is Some && self.slots[j] is Some
                ==> (self.slots[i]->0).stack_id != (self.slots[j]->0).stack_id
    }
}

/// Changing one slot changes what is counted by that slot.
proof fn lemma_taken_update(s: Seq<Option<ProfileView>>, n: int, i: int, e: Option<ProfileView>)
    requires
        0 <= i < s.len(),
        n <= s.len(),
    ensures
        taken(s.update(i, e), n) == taken(s, n) + (if i < n {
            (if e is Some {
                1int
            } else {
                0int
            }) - (if s[i] is Some {
                1int
            } else {
                0int
            })
        } else {
            0int
        }),
    decreases n,
{
    if n > 0 {
        lemma_taken_update(s, n - 1, i, e);
    }
}

/// No more slots are taken than there are.
proof fn lemma_taken_bounds(s: Seq<Option<ProfileView>>, n: int)
    requires
        0 <= n,
    ensures
        0 <= taken(s, n) <= n,
    decreases n,
{
    if n > 0 {
        lemma_taken_bounds(s, n - 1);
    }
}

/// A free slot leaves fewer taken than there are.
proof fn lemma_taken_room(s: Seq<Option<ProfileView>>, n: int, i: int)
    requires
        0 <= i < n,
        s[i] is None,
    ensures
        taken(s, n) < n,
    decreases n,
{
    if i == n - 1 {
        lemma_taken_bounds(s, n - 1);
    } else {
        lemma_taken_room(s, n - 1, i);
    }
}

impl TableView {
    /// The probe stays in the table, and goes one slot further in each step.
    pub proof fn lemma_at(self, key: StackId, step: int)
        requires
            self.slots.len() > 0,
            0 <= step,
        ensures
            0 <= self.at(key, step) < self.slots.len(),
            self.at(key, 0) == self.home(key),
            self.at(key, step + 1) == (if self.at(key, step) == self.slots.len() - 1 {
                0
            } else {
                self.at(key, step) + 1
            }),
    {
        let n = self.slots.len() as int;
        vstd::arithmetic::div_mod::lemma_mod_bound(mix(key.0) as int, n);
        vstd::arithmetic::div_mod::lemma_mod_bound(self.home(key) + step, n);
        vstd::arithmetic::div_mod::lemma_small_mod(self.home(key) as nat, n as nat);
        overflow::lemma_next_turn(self.home(key) + step, n);
    }

    /// A tracked site is in one slot, and the probe finds it there.
    pub proof fn lemma_found(self, key: StackId, step: int)
        requires
            self.found_at(key, step),
        ensures
            self.tracks(key),
            self.profile_of(key) == self.slots[self.at(key, step)]->0,
    {
        let s = choose|s: int| self.found_at(key, s);
        assert(self.found_at(key, s));
        if s < step {
            assert(!self.holds(key, s));
        } else if step < s {
            assert(!self.holds(key, step));
        }
    }

    /// Recording a profile of `key` in the slot that it claims keeps the table good.
    pub proof fn lemma_with(self, key: StackId, step: int, p: ProfileView)
        requires
            self.ok(),
            self.claims(key, step),
            p.stack_id == key,
            key != StackId(0),
            placement::entries_ok(p.sizes.entries),
        ensures
            self.with(key, step, p).ok(),
    {
        let w = self.with(key, step, p);
        let at = self.at(key, step);
        self.lemma_at(key, step);
        assert forall|i: int| 0 <= i < w.slots.len() implies #[trigger] w.in_window(i) by {
            assert(self.in_window(i));
            if i == at {
                assert(w.at((w.slots[i]->0).stack_id, step) == at);
            } else if w.slots[i] is Some {
                let id = (self.slots[i]->0).stack_id;
                let s = choose|s: int| 0 <= s < PROBE_LEN && i == #[trigger] self.at(id, s);
                assert(w.at((w.slots[i]->0).stack_id, s) == self.at(id, s));
            }
        }
        assert forall|i: int|
            #![trigger self.slots[i]]
            0 <= i < self.slots.len() && self.slots[i] is Some && (self.slots[i]->0).stack_id
                == key implies i == at by {
            assert(self.in_window(i));
            let s = choose|s: int| 0 <= s < PROBE_LEN && i == #[trigger] self.at(key, s);
            assert(self.holds(key, s));
            assert(self.tracks(key));
            assert(self.holds(key, step));
            if i < at {
                assert((self.slots[i]->0).stack_id != (self.slots[at]->0).stack_id);
            } else if at < i {
                assert((self.slots[at]->0).stack_id != (self.slots[i]->0).stack_id);
            }
        }
    }
}

/// The table of allocation-site profiles. `CAP` is a power of two.
pub struct SiteProfileTable<const CAP: usize> {
    slots: Vec<Option<AllocationSiteProfile>>,
    occupied: u32,
    alloc_samples: u64,
    free_samples: u64,
    censored_samples: u64,
    evictions: u64,
    min_confidence_bp: u32,
}

/// What a slot holds.
pub open spec fn slot_view(s: Option<AllocationSiteProfile>) -> Option<ProfileView> {
    match s {
        Some(p) => Some(p@),
        None => None,
    }
}

impl<const CAP: usize> View for SiteProfileTable<CAP> {
    type V = TableView;

    closed spec fn view(&self) -> TableView {
        TableView {
            slots: self.slots@.map_values(|s: Option<AllocationSiteProfile>| slot_view(s)),
            alloc_samples: self.alloc_samples,
            free_samples: self.free_samples,
            censored_samples: self.censored_samples,
            evictions: self.evictions,
            min_bp: self.min_confidence_bp,
        }
    }
}

impl<const CAP: usize> SiteProfileTable<CAP> {
    /// The table is good and of its size, and its taken slots are counted right.
    pub closed spec fn wf(self) -> bool {
        &&& self@.ok()
        &&& self@.slots.len() == CAP <= u32::MAX
        &&& self.occupied == taken(self@.slots, CAP as int)
        &&& self.min_confidence_bp <= BP_ONE
    }

    /// What follows from the invariant.
    pub proof fn lemma_wf(self)
        requires
            self.wf(),
        ensures
            self@.ok(),
            self@.slots.len() == CAP <= u32::MAX,
            self@.min_bp <= BP_ONE,
    {
    }

    /// An empty table.
    pub fn new() -> (res: SiteProfileTable<CAP>)
        requires
            overflow::is_pow2(CAP as int),
            CAP <= u32::MAX,
        ensures
            res.wf(),
            res@ == (TableView {
                slots: Seq::new(CAP as nat, |i: int| None::<ProfileView>),
                alloc_samples: 0,
                free_samples: 0,
                censored_samples: 0,
                evictions: 0,
                min_bp: DEFAULT_MIN_CONFIDENCE_BP,
            }),
    {
        proof {
            let k = choose|k: nat| CAP as int == #[trigger] vstd::arithmetic::power2::pow2(k);
            vstd::arithmetic::power2::lemma_pow2_pos(k);
        }
        let mut slots: Vec<Option<AllocationSiteProfile>> = Vec::new();
        let mut n: usize = 0;
        while n < CAP
            invariant
                n <= CAP,
                slots@.len() == n,
                forall|i: int| 0 <= i < n ==> #[trigger] slots@[i] is None,
            decreases CAP - n,
        {
            slots.push(None);
            n = n + 1;
        }
        let t = SiteProfileTable {
            slots,
            occupied: 0,
            alloc_samples: 0,
            free_samples: 0,
            censored_samples: 0,
            evictions: 0,
            min_confidence_bp: DEFAULT_MIN_CONFIDENCE_BP,
        };
        proof {
            assert(t@.slots =~= Seq::new(CAP as nat, |i: int| None::<ProfileView>));
            lemma_none_taken(t@.slots, CAP as int);
        }
        t
    }

    /// Set the confidence from which on a site is acted on, at most full scale.
    pub fn set_min_confidence_bp(&mut self, bp: u32)
        requires
            old(self).wf(),
        ensures
            final(self).wf(),
            final(self)@ == (TableView {
                min_bp: if bp < BP_ONE {
                    bp
                } else {
                    BP_ONE as u32
                },
                ..old(self)@
            }),
    {
        self.min_confidence_bp = if (bp as u64) < BP_ONE {
            bp
        } else {
            BP_ONE as u32
        };
        proof {
            assert(self@.slots == old(self)@.slots);
            self.lemma_same_slots(*old(self));
        }
    }

    /// The invariant speaks of the slots and their count alone.
    proof fn lemma_same_slots(self, other: Self)
        requires
            other.wf(),
            self@.slots == other@.slots,
            self.occupied == other.occupied,
            self.min_confidence_bp <= BP_ONE,
        ensures
            self.wf(),
    {
        assert forall|i: int| 0 <= i < self@.slots.len() implies #[trigger] self@.in_window(i) by {
            assert(other@.in_window(i));
            if self@.slots[i] is Some {
                let id = (self@.slots[i]->0).stack_id;
                let s = choose|s: int| 0 <= s < PROBE_LEN && i == #[trigger] other@.at(id, s);
                assert(self@.at(id, s) == i);
            }
        }
    }

    /// The confidence from which on a site is acted on.
    pub fn min_confidence_bp(&self) -> (res: u32)
        ensures
            res == self@.min_bp,
    {
        self.min_confidence_bp
    }

    /// The number of slots.
    pub fn capacity(&self) -> (res: usize)
        ensures
            res == CAP,
    {
        CAP
    }

    /// The slot where the probe for `key` starts.
    fn home(&self, key: StackId) -> (res: usize)
        requires
            self.wf(),
        ensures
            res == self@.home(key),
            res < CAP,
    {
        (splitmix64(key.0) % (CAP as u64)) as usize
    }

    /// The slot after `i`.
    fn next(i: usize) -> (res: usize)
        requires
            i < CAP,
        ensures
            res == (if i == CAP - 1 {
                0
            } else {
                i + 1
            }),
    {
        if i == CAP - 1 {
            0
        } else {
            i + 1
        }
    }

    /// The slot of `key`, if it is tracked.
    fn find(&self, key: StackId) -> (res: Option<usize>)
        requires
            self.wf(),
        ensures
            match res {
                Some(i) => exists|step: int| #[trigger]
                    self@.found_at(key, step) && i == self@.at(key, step) && i < CAP,
                None => !self@.tracks(key),
            },
    {
        let mut i: usize = self.home(key);
        let mut step: usize = 0;
        proof {
            self@.lemma_at(key, 0);
        }
        while step < PROBE_LEN
            invariant
                self.wf(),
                step <= PROBE_LEN,
                i == self@.at(key, step as int),
                i < CAP,
                forall|s: int| 0 <= s < step ==> !#[trigger] self@.holds(key, s),
            decreases PROBE_LEN - step,
        {
            proof {
                self@.lemma_at(key, step as int);
                assert(self@.slots[i as int] == slot_view(self.slots@[i as int]));
            }
            if let Some(p) = &self.slots[i] {
                if p.stack_id().0 == key.0 {
                    proof {
                        assert(self@.found_at(key, step as int));
                    }
                    return Some(i);
                }
            }
            i = Self::next(i);
            step = step + 1;
        }
        None
    }

    /// The first free slot in the probe for `key`.
    fn find_free(&self, key: StackId) -> (res: Option<usize>)
        requires
            self.wf(),
            !self@.tracks(key),
        ensures
            match res {
                Some(i) => self@.has_room(key) && exists|step: int| #[trigger]
                    self@.claims(key, step) && i == self@.at(key, step) && i < CAP,
                None => !self@.has_room(key),
            },
    {
        let mut i: usize = self.home(key);
        let mut step: usize = 0;
        proof {
            self@.lemma_at(key, 0);
        }
        while step < PROBE_LEN
            invariant
                self.wf(),
                !self@.tracks(key),
                step <= PROBE_LEN,
                i == self@.at(key, step as int),
                i < CAP,
                forall|s: int| 0 <= s < step ==> !#[trigger] self@.vacant(key, s),
            decreases PROBE_LEN - step,
        {
            proof {
                self@.lemma_at(key, step as int);
                assert(self@.slots[i as int] == slot_view(self.slots@[i as int]));
            }
            if self.slots[i].is_none() {
                proof {
                    assert(self@.vacant(key, step as int));
                    assert(self@.has_room(key));
                    assert(self@.claims(key, step as int));
                }
                return Some(i);
            }
            i = Self::next(i);
            step = step + 1;
        }
        None
    }

    /// How much the site in slot `i` is trusted, and when it last allocated.
    fn usefulness(&self, i: usize) -> (res: (u32, u64))
        requires
            self.wf(),
            i < CAP,
            self@.slots[i as int] is Some,
        ensures
            res.0 == (self@.slots[i as int]->0).trust(),
            res.1 == (self@.slots[i as int]->0).last_alloc_ms,
    {
        proof {
            assert(self@.slots[i as int] == slot_view(self.slots@[i as int]));
        }
        match &self.slots[i] {
            Some(p) => (p.confidence_bp(), p.last_alloc_ms()),
            None => (0, 0),
        }
    }

    /// The least useful site in a full window: the least trusted, the longest idle of several.
    fn find_victim(&self, key: StackId) -> (res: usize)
        requires
            self.wf(),
            !self@.tracks(key),
            !self@.has_room(key),
        ensures
            exists|step: int| #[trigger]
                self@.claims(key, step) && res == self@.at(key, step) && res < CAP,
    {
        proof {
            self@.lemma_at(key, 0);
            assert(!self@.vacant(key, 0));
        }
        let mut victim: usize = self.home(key);
        let (mut victim_conf, mut victim_age): (u32, u64) = self.usefulness(victim);
        let mut i: usize = Self::next(victim);
        let mut step: usize = 1;
        let ghost mut best: int = 0;
        while step < PROBE_LEN
            invariant
                self.wf(),
                !self@.has_room(key),
                1 <= step <= PROBE_LEN,
                i == self@.at(key, step as int),
                i < CAP,
                0 <= best < step,
                victim == self@.at(key, best),
                victim < CAP,
                victim_conf == (self@.slots[victim as int]->0).trust(),
                victim_age == (self@.slots[victim as int]->0).last_alloc_ms,
                forall|s: int| 0 <= s < step ==> !#[trigger] self@.less_useful(key, s, best),
                forall|s: int| 0 <= s < best ==> #[trigger] self@.less_useful(key, best, s),
            decreases PROBE_LEN - step,
        {
            proof {
                self@.lemma_at(key, step as int);
                assert(!self@.vacant(key, step as int));
            }
            let (c, age): (u32, u64) = self.usefulness(i);
            if c < victim_conf || (c == victim_conf && age < victim_age) {
                proof {
                    assert(self@.less_useful(key, step as int, best));
                    assert forall|s: int| 0 <= s < step implies #[trigger] self@.less_useful(
                        key,
                        step as int,
                        s,
                    ) by {
                        assert(!self@.less_useful(key, s, best));
                    }
                    assert forall|s: int| 0 <= s < step + 1 implies !#[trigger] self@.less_useful(
                        key,
                        s,
                        step as int,
                    ) by {
                        if s < step {
                            assert(self@.less_useful(key, step as int, s));
                        }
                    }
                    best = step as int;
                }
                victim = i;
                victim_conf = c;
                victim_age = age;
            }
            i = Self::next(i);
            step = step + 1;
        }
        proof {
            assert(self@.claims(key, best));
        }
        victim
    }

    /// The slot that a sample of `key` is recorded in. A site that is not tracked yet gets a
    /// fresh profile there, in place of the least useful one when the window is full.
    fn find_or_make(&mut self, key: StackId, now_ms: u64) -> (res: usize)
        requires
            old(self).wf(),
            key != StackId(0),
        ensures
            final(self).wf(),
            res < CAP,
            exists|step: int| #[trigger]
                old(self)@.claims(key, step) && res == old(self)@.at(key, step) && final(self)@ == (
                TableView {
                    evictions: old(self)@.evictions_after(key),
                    ..old(self)@.with(key, step, old(self)@.claimed(key, step, now_ms))
                }),
    {
        let ghost v = self@;
        proof {
            self.lemma_wf();
        }
        if let Some(i) = self.find(key) {
            proof {
                let step = choose|step: int| #[trigger]
                    v.found_at(key, step) && i == v.at(key, step);
                v.lemma_found(key, step);
                assert(v.claims(key, step));
                assert(v.slots.update(i as int, v.slots[i as int]) =~= v.slots);
            }
            return i;
        }
        let free: Option<usize> = self.find_free(key);
        let i: usize = match free {
            Some(i) => i,
            None => self.find_victim(key),
        };
        let ghost step = choose|step: int| #[trigger] v.claims(key, step) && i == v.at(key, step);
        let ghost fresh = ProfileView::fresh(key, now_ms);
        proof {
            v.lemma_with(key, step, fresh);
            lemma_taken_update(v.slots, CAP as int, i as int, Some(fresh));
            if free is Some {
                assert(v.vacant(key, step));
                lemma_taken_room(v.slots, CAP as int, i as int);
            } else {
                assert(!v.vacant(key, step));
            }
        }
        self.slots.set(i, Some(AllocationSiteProfile::new(key, now_ms)));
        if free.is_some() {
            self.occupied = self.occupied + 1;
        } else {
            self.evictions = self.evictions.saturating_add(1);
        }
        proof {
            assert(self@.slots =~= v.with(key, step, fresh).slots);
            lemma_ok_slots(self@, v.with(key, step, fresh));
        }
        i
    }

    /// Record a sampled allocation at a site. A sample with no captured stack is counted only.
    pub fn record_alloc(
        &mut self,
        stack_id: StackId,
        bucket: u16,
        bytes: u64,
        hotness_hint: u8,
        now_ms: u64,
    )
        requires
            old(self).wf(),
        ensures
            final(self).wf(),
            ({
                let v = old(self)@;
                let counted = TableView {
                    alloc_samples: placement::cap64(v.alloc_samples + 1) as u64,
                    ..v
                };
                if stack_id == StackId(0) {
                    final(self)@ == counted
                } else {
                    exists|step: int| #[trigger]
                        v.claims(stack_id, step) && final(self)@ == (TableView {
                            evictions: v.evictions_after(stack_id),
                            ..counted.with(
                                stack_id,
                                step,
                                v.claimed(stack_id, step, now_ms).allocated(
                                    bucket,
                                    bytes,
                                    hotness_hint,
                                    now_ms,
                                ),
                            )
                        })
                }
            }),
    {
        let ghost v = self@;
        let counted: u64 = self.alloc_samples.saturating_add(1);
        if !stack_id.is_known() {
            self.alloc_samples = counted;
            proof {
                self.lemma_same_slots(*old(self));
            }
            return;
        }
        proof {
            self.lemma_wf();
        }
        let i: usize = self.find_or_make(stack_id, now_ms);
        let ghost step = choose|step: int| #[trigger]
            v.claims(stack_id, step) && i == v.at(stack_id, step) && self@ == (TableView {
                evictions: v.evictions_after(stack_id),
                ..v.with(stack_id, step, v.claimed(stack_id, step, now_ms))
            });
        let ghost before = *self;
        let ghost p = v.claimed(stack_id, step, now_ms);
        let ghost q = p.allocated(bucket, bytes, hotness_hint, now_ms);
        proof {
            self.lemma_wf();
            assert(self@.slots[i as int] == slot_view(self.slots@[i as int]));
            assert(self@.slots[i as int] == Some(p));
        }
        if let Some(mut profile) = self.slots[i] {
            profile.record_alloc(bucket, bytes, hotness_hint, now_ms);
            self.slots.set(i, Some(profile));
            proof {
                assert(profile@ == q);
                assert(self.slots@ == before.slots@.update(i as int, Some(profile)));
                assert(self@.slots =~= before@.slots.update(i as int, Some(q)));
            }
        }
        self.alloc_samples = counted;
        proof {
            assert(self@.slots =~= v.slots.update(i as int, Some(q)));
            lemma_taken_update(before@.slots, CAP as int, i as int, Some(q));
            assert(before@.slots.update(i as int, Some(q)) =~= self@.slots);
            v.lemma_claimed_id(stack_id, step, now_ms);
            v.lemma_with(stack_id, step, q);
            lemma_ok_slots(self@, v.with(stack_id, step, q));
        }
    }

    /// Change the profile of a tracked site in place.
    fn put(&mut self, i: usize, profile: AllocationSiteProfile, key: StackId, Ghost(step): Ghost<int>)
        requires
            old(self).wf(),
            i < CAP,
            old(self)@.found_at(key, step),
            i == old(self)@.at(key, step),
            profile@.stack_id == key,
            profile.wf(),
        ensures
            final(self).wf(),
            final(self)@ == old(self)@.with(key, step, profile@),
    {
        let ghost v = self@;
        proof {
            self.lemma_wf();
            v.lemma_found(key, step);
            assert(v.claims(key, step));
            v.lemma_with(key, step, profile@);
            lemma_taken_update(v.slots, CAP as int, i as int, Some(profile@));
        }
        self.slots.set(i, Some(profile));
        proof {
            assert(self@.slots =~= v.with(key, step, profile@).slots);
            lemma_ok_slots(self@, v.with(key, step, profile@));
        }
    }

    /// Record a sampled free at a site: the object lived `age_ms` milliseconds and held `bytes`
    /// bytes. A site that is not tracked is not changed.
    pub fn record_free(&mut self, stack_id: StackId, age_ms: u64, bytes: u64, now_ms: u64)
        requires
            old(self).wf(),
        ensures
            final(self).wf(),
            ({
                let v = old(self)@;
                let counted = TableView {
                    free_samples: placement::cap64(v.free_samples + 1) as u64,
                    ..v
                };
                if v.tracks(stack_id) {
                    exists|step: int| #[trigger]
                        v.found_at(stack_id, step) && final(self)@ == counted.with(
                            stack_id,
                            step,
                            v.profile_of(stack_id).freed(age_ms, bytes, now_ms),
                        )
                } else {
                    final(self)@ == counted
                }
            }),
    {
        let ghost v = self@;
        proof {
            self.lemma_wf();
        }
        if let Some(i) = self.find(stack_id) {
            let ghost step = choose|step: int| #[trigger]
                v.found_at(stack_id, step) && i == v.at(stack_id, step);
            proof {
                v.lemma_found(stack_id, step);
                assert(v.slots[i as int] == slot_view(self.slots@[i as int]));
            }
            if let Some(mut profile) = self.slots[i] {
                profile.record_free(age_ms, bytes, now_ms);
                self.put(i, profile, stack_id, Ghost(step));
            }
        }
        let ghost before = *self;
        self.free_samples = self.free_samples.saturating_add(1);
        proof {
            assert(self@.slots == before@.slots);
            self.lemma_same_slots(before);
        }
    }

    /// Record that an object of a site has lived `age_ms` milliseconds so far and is still
    /// live. A site that is not tracked is not changed.
    pub fn record_censored(&mut self, stack_id: StackId, age_ms: u64)
        requires
            old(self).wf(),
        ensures
            final(self).wf(),
            ({
                let v = old(self)@;
                let counted = TableView {
                    censored_samples: placement::cap64(v.censored_samples + 1) as u64,
                    ..v
                };
                if v.tracks(stack_id) {
                    exists|step: int| #[trigger]
                        v.found_at(stack_id, step) && final(self)@ == counted.with(
                            stack_id,
                            step,
                            v.profile_of(stack_id).censored(age_ms),
                        )
                } else {
                    final(self)@ == counted
                }
            }),
    {
        let ghost v = self@;
        proof {
            self.lemma_wf();
        }
        if let Some(i) = self.find(stack_id) {
            let ghost step = choose|step: int| #[trigger]
                v.found_at(stack_id, step) && i == v.at(stack_id, step);
            proof {
                v.lemma_found(stack_id, step);
                assert(v.slots[i as int] == slot_view(self.slots@[i as int]));
            }
            if let Some(mut profile) = self.slots[i] {
                profile.record_censored(age_ms);
                self.put(i, profile, stack_id, Ghost(step));
            }
        }
        let ghost before = *self;
        self.censored_samples = self.censored_samples.saturating_add(1);
        proof {
            assert(self@.slots == before@.slots);
            self.lemma_same_slots(before);
        }
    }

    /// The profile of a site, if it is tracked.
    pub fn profile(&self, stack_id: StackId) -> (res: Option<&AllocationSiteProfile>)
        requires
            self.wf(),
        ensures
            match res {
                Some(p) => self@.tracks(stack_id) && p@ == self@.profile_of(stack_id) && p.wf(),
                None => !self@.tracks(stack_id),
            },
    {
        match self.find(stack_id) {
            Some(i) => {
                proof {
                    let v = self@;
                    let step = choose|step: int| #[trigger]
                        v.found_at(stack_id, step) && i == v.at(stack_id, step);
                    v.lemma_found(stack_id, step);
                    assert(v.slots[i as int] == slot_view(self.slots@[i as int]));
                }
                self.slots[i].as_ref()
            },
            None => None,
        }
    }

    /// The placement hints of a site: neutral when it is not tracked or not trusted enough.
    pub fn place_hints(&self, stack_id: StackId) -> (res: PlaceHints)
        requires
            self.wf(),
        ensures
            res == (if self@.tracks(stack_id) {
                self@.profile_of(stack_id).hints(self@.min_bp as int)
            } else {
                PlaceHints::neutral()
            }),
    {
        match self.profile(stack_id) {
            Some(p) => p.place_hints(self.min_confidence_bp),
            None => PlaceHints::default(),
        }
    }

    /// Every tracked profile, in the order of the slots.
    pub fn for_each_profile(&self) -> (res: Vec<AllocationSiteProfile>)
        requires
            self.wf(),
        ensures
            profiles_of(self@.slots, CAP as int) == res@.map_values(
                |p: AllocationSiteProfile| p@,
            ),
    {
        let mut out: Vec<AllocationSiteProfile> = Vec::new();
        let mut i: usize = 0;
        proof {
            assert(profiles_of(self@.slots, 0) =~= out@.map_values(
                |p: AllocationSiteProfile| p@,
            ));
        }
        while i < CAP
            invariant
                self.wf(),
                i <= CAP,
                profiles_of(self@.slots, i as int) == out@.map_values(
                    |p: AllocationSiteProfile| p@,
                ),
            decreases CAP - i,
        {
            proof {
                assert(self@.slots[i as int] == slot_view(self.slots@[i as int]));
            }
            if let Some(p) = self.slots[i] {
                let ghost before = out@;
                out.push(p);
                proof {
                    assert(out@.map_values(|p: AllocationSiteProfile| p@) =~= before.map_values(
                        |p: AllocationSiteProfile| p@,
                    ).push(p@));
                }
            }
            i = i + 1;
        }
        out
    }

    /// The counters.
    pub fn stats(&self) -> (res: PlacementStats)
        requires
            self.wf(),
        ensures
            res.sites_tracked == taken(self@.slots, CAP as int),
            res.confident_sites == trusted(self@.slots, CAP as int, self@.min_bp as int),
            res.sampled_live_bytes == placement::cap64(live_sum(self@.slots, CAP as int)),
            res.alloc_samples == self@.alloc_samples,
            res.free_samples == self@.free_samples,
            res.censored_samples == self@.censored_samples,
            res.evictions == self@.evictions,
            res.sites_tracked <= CAP,
    {
        let mut confident: u32 = 0;
        let mut live_bytes: u64 = 0;
        let mut i: usize = 0;
        while i < CAP
            invariant
                self.wf(),
                i <= CAP,
                confident == trusted(self@.slots, i as int, self@.min_bp as int),
                confident <= i,
                live_bytes == placement::cap64(live_sum(self@.slots, i as int)),
                0 <= live_sum(self@.slots, i as int),
            decreases CAP - i,
        {
            proof {
                assert(self@.slots[i as int] == slot_view(self.slots@[i as int]));
            }
            if let Some(p) = &self.slots[i] {
                if p.confidence_bp() >= self.min_confidence_bp {
                    confident = confident + 1;
                }
                live_bytes = live_bytes.saturating_add(p.sampled_live_bytes());
            }
            i = i + 1;
        }
        proof {
            lemma_taken_bounds(self@.slots, CAP as int);
        }
        PlacementStats {
            sites_tracked: self.occupied,
            confident_sites: confident,
            alloc_samples: self.alloc_samples,
            free_samples: self.free_samples,
            censored_samples: self.censored_samples,
            evictions: self.evictions,
            sampled_live_bytes: live_bytes,
        }
    }
}

/// The profiles in the first `n` slots, in order.
pub open spec fn profiles_of(s: Seq<Option<ProfileView>>, n: int) -> Seq<ProfileView>
    decreases n,
{
    if n <= 0 {
        Seq::empty()
    } else if s[n - 1] is Some {
        profiles_of(s, n - 1).push(s[n - 1]->0)
    } else {
        profiles_of(s, n - 1)
    }
}

impl TableView {
    /// The sites that gave way once a sample of `key` is recorded.
    pub open spec fn evictions_after(self, key: StackId) -> u64 {
        if self.tracks(key) || self.has_room(key) {
            self.evictions
        } else {
            placement::cap64(self.evictions + 1) as u64
        }
    }

    /// The profile that a sample is recorded in is one of its site, and a good one.
    pub proof fn lemma_claimed_id(self, key: StackId, step: int, now: u64)
        requires
            self.ok(),
            self.claims(key, step),
        ensures
            self.claimed(key, step, now).stack_id == key,
            placement::entries_ok(self.claimed(key, step, now).sizes.entries),
    {
        self.lemma_at(key, step);
    }
}

/// Whether a table is good depends on its slots alone.
proof fn lemma_ok_slots(a: TableView, b: TableView)
    requires
        b.ok(),
        a.slots == b.slots,
    ensures
        a.ok(),
{
    assert forall|i: int| 0 <= i < a.slots.len() implies #[trigger] a.in_window(i) by {
        assert(b.in_window(i));
        if a.slots[i] is Some {
            let id = (a.slots[i]->0).stack_id;
            let s = choose|s: int| 0 <= s < PROBE_LEN && i == #[trigger] b.at(id, s);
            assert(a.at(id, s) == i);
        }
    }
}

proof fn lemma_none_taken(s: Seq<Option<ProfileView>>, n: int)
    requires
        n <= s.len(),
        forall|i: int| 0 <= i < s.len() ==> #[trigger] s[i] is None,
    ensures
        taken(s, n) == 0,
    decreases n,
{
    if n > 0 {
        lemma_none_taken(s, n - 1);
    }
}

/// A recorded site is tracked, with what was recorded.
pub proof fn law_recorded_site_is_tracked(v: TableView, key: StackId, step: int, p: ProfileView)
    requires
        v.ok(),
        v.claims(key, step),
        p.stack_id == key,
        placement::entries_ok(p.sizes.entries),
    ensures
        v.with(key, step, p).tracks(key),
        v.with(key, step, p).profile_of(key) == p,
{
    let w = v.with(key, step, p);
    v.lemma_at(key, step);
    assert(w.at(key, step) == v.at(key, step));
    assert(w.holds(key, step));
    let first = lemma_first_hold(w, key, step);
    w.lemma_found(key, first);
    if first < step {
        v.lemma_at(key, first);
        assert(w.at(key, first) == v.at(key, first));
        if v.at(key, first) != v.at(key, step) {
            assert(v.holds(key, first));
            assert(v.tracks(key));
            assert(!v.holds(key, first));
        }
    }
}

/// The probe finds what it meets, at the latest where it is met.
proof fn lemma_first_hold(v: TableView, key: StackId, step: int) -> (first: int)
    requires
        0 <= step < PROBE_LEN,
        v.holds(key, step),
    ensures
        first <= step,
        v.found_at(key, first),
    decreases step,
{
    if exists|s: int| 0 <= s < step && #[trigger] v.holds(key, s) {
        let s = choose|s: int| 0 <= s < step && #[trigger] v.holds(key, s);
        lemma_first_hold(v, key, s)
    } else {
        step
    }
}

/// A site gives way only when every slot that the newcomer may have is taken by another, and then
/// it is the one that is least to be missed: no other among them is trusted less, and none that
/// is trusted as little has been idle for longer. A site that is tracked already, or that finds a
/// free slot, displaces nobody.
pub proof fn law_least_useful_site_gives_way(v: TableView, key: StackId, step: int, other: int)
    requires
        v.ok(),
        v.claims(key, step),
        0 <= other < PROBE_LEN,
    ensures
        ({
            let slot = v.slots[v.at(key, step)];
            let rival = v.slots[v.at(key, other)];
            slot is Some && (slot->0).stack_id != key ==> {
                &&& rival is Some
                &&& (rival->0).stack_id != key
                &&& (slot->0).trust() <= (rival->0).trust()
                &&& (slot->0).trust() == (rival->0).trust() ==> (slot->0).last_alloc_ms <= (
                rival->0).last_alloc_ms
                &&& v.evictions < u64::MAX ==> v.evictions_after(key) == v.evictions + 1
            }
        }),
        v.slots[v.at(key, step)] is None ==> v.evictions_after(key) == v.evictions,
        v.slots[v.at(key, step)] is Some && (v.slots[v.at(key, step)]->0).stack_id == key
            ==> v.evictions_after(key) == v.evictions && v.claimed(key, step, 0)
            == v.slots[v.at(key, step)]->0,
{
    let slot = v.slots[v.at(key, step)];
    if slot is None {
        assert(v.vacant(key, step));
        assert(v.has_room(key));
    } else if (slot->0).stack_id == key {
        assert(v.holds(key, step));
        assert(v.tracks(key));
    } else {
        assert(!v.holds(key, step));
        assert(!v.vacant(key, step));
        assert(!v.tracks(key));
        assert(!v.has_room(key));
        assert(!v.vacant(key, other));
        assert(!v.holds(key, other));
        assert(!v.less_useful(key, other, step));
    }
}

/// Recording one site changes no other, but for the one that gives way.
pub proof fn law_other_sites_are_kept(
    v: TableView,
    key: StackId,
    step: int,
    p: ProfileView,
    other: StackId,
)
    requires
        v.ok(),
        v.claims(key, step),
        p.stack_id == key,
        other != key,
        v.tracks(other),
        v.slots[v.at(key, step)] is None || (v.slots[v.at(key, step)]->0).stack_id != other,
    ensures
        v.with(key, step, p).tracks(other),
        v.with(key, step, p).profile_of(other) == v.profile_of(other),
{
    let w = v.with(key, step, p);
    let met = choose|s: int| 0 <= s < PROBE_LEN && #[trigger] v.holds(other, s);
    let first = lemma_first_hold(v, other, met);
    v.lemma_found(other, first);
    v.lemma_at(other, first);
    v.lemma_at(key, step);
    assert(w.at(other, first) == v.at(other, first));
    assert(w.holds(other, first));
    assert forall|s: int| 0 <= s < first implies !#[trigger] w.holds(other, s) by {
        v.lemma_at(other, s);
        assert(w.at(other, s) == v.at(other, s));
        assert(!v.holds(other, s));
    }
    assert(w.found_at(other, first));
    w.lemma_found(other, first);
}

/// The sites are counted: recording a site that was not tracked in a free slot adds one, and any
/// other record leaves as many.
pub proof fn law_sites_are_counted(v: TableView, key: StackId, step: int, p: ProfileView)
    requires
        v.ok(),
        v.claims(key, step),
    ensures
        ({
            let n = v.slots.len() as int;
            taken(v.with(key, step, p).slots, n) == taken(v.slots, n) + (if v.slots[v.at(
                key,
                step,
            )] is None {
                1int
            } else {
                0
            })
        }),
{
    v.lemma_at(key, step);
    lemma_taken_update(v.slots, v.slots.len() as int, v.at(key, step), Some(p));
}

} // verus!
