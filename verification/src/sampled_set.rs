//! The set of live sampled objects, by address.
use vstd::prelude::*;
use crate::overflow;
use crate::placement;
use crate::placement::StackId;

verus! {

/// One live sampled object.
#[derive(Clone, Copy, PartialEq, Eq, Debug, Structural)]
pub struct SampledRecord {
    /// The site that allocated it.
    pub stack_id: StackId,
    /// The bytes that were asked for.
    pub bytes: u64,
    /// The bytes that can be used.
    pub usable: u64,
    /// When it was allocated, in milliseconds.
    pub alloc_ms: u64,
}

/// A slot: an object and its address, or nothing when the address is 0.
#[derive(Clone, Copy)]
struct ObjSlot {
    addr: usize,
    rec: SampledRecord,
}

/// A set of sampled objects, mathematically.
#[verifier::ext_equal]
pub struct SampledView {
    /// The objects, by address.
    pub records: Map<usize, SampledRecord>,
    /// Objects that there was no room for so far.
    pub dropped: u64,
}

/// A hash of an address.
spec fn address_hash(addr: usize) -> u64 {
    (addr as u64).wrapping_mul(0x9e37_79b9_7f4a_7c15) >> 29
}

/// Where the probe for `addr` starts, in a table of `n` slots.
spec fn home_of(addr: usize, n: int) -> int {
    address_hash(addr) as int % n
}

/// How many slots `b` is after `a`, going round a table of `n` slots.
spec fn ahead(a: int, b: int, n: int) -> int {
    if a <= b {
        b - a
    } else {
        b - a + n
    }
}

/// Slot `e` does not stand between the home of the object in slot `p` and slot `p`.
spec fn off_path(s: Seq<ObjSlot>, p: int, e: int) -> bool {
    let h = home_of(s[p].addr, s.len() as int);
    ahead(h, p, s.len() as int) <= ahead(h, e, s.len() as int)
}

/// No address occurs twice.
spec fn distinct(s: Seq<ObjSlot>) -> bool {
    forall|p: int, q: int|
        #![trigger s[p], s[q]]
        0 <= p < q < s.len() && s[p].addr != 0 ==> s[p].addr != s[q].addr
}

/// No free slot but `hole` stands between the home of an object and its slot, so that a probe
/// finds every object.
spec fn reachable(s: Seq<ObjSlot>, hole: int) -> bool {
    forall|p: int, e: int|
        0 <= p < s.len() && 0 <= e < s.len() && s[p].addr != 0 && s[e].addr == 0 && e != hole
            ==> #[trigger] off_path(s, p, e)
}

/// An address is in the table.
spec fn has_addr(s: Seq<ObjSlot>, addr: usize) -> bool {
    addr != 0 && exists|p: int| 0 <= p < s.len() && (#[trigger] s[p]).addr == addr
}

/// The slot of an address.
spec fn slot_of(s: Seq<ObjSlot>, addr: usize) -> int {
    choose|p: int| 0 <= p < s.len() && (#[trigger] s[p]).addr == addr
}

/// The objects in a table.
spec fn records_of(s: Seq<ObjSlot>) -> Map<usize, SampledRecord> {
    Map::new(|a: usize| has_addr(s, a), |a: usize| s[slot_of(s, a)].rec)
}

/// How many of the first `n` slots are taken.
spec fn taken(s: Seq<ObjSlot>, n: int) -> int
    decreases n,
{
    if n <= 0 {
        0
    } else {
        taken(s, n - 1) + (if s[n - 1].addr != 0 {
            1int
        } else {
            0int
        })
    }
}

/// How far the objects in the first `n` slots are from their homes, in all.
spec fn spread(s: Seq<ObjSlot>, n: int) -> int
    decreases n,
{
    if n <= 0 {
        0
    } else {
        spread(s, n - 1) + (if s[n - 1].addr != 0 {
            ahead(home_of(s[n - 1].addr, s.len() as int), n - 1, s.len() as int)
        } else {
            0int
        })
    }
}

proof fn lemma_home(addr: usize, n: int)
    requires
        n > 0,
    ensures
        0 <= home_of(addr, n) < n,
{
    vstd::arithmetic::div_mod::lemma_mod_bound(address_hash(addr) as int, n);
}

/// An object is where it is.
proof fn lemma_slot(s: Seq<ObjSlot>, p: int)
    requires
        distinct(s),
        0 <= p < s.len(),
        s[p].addr != 0,
    ensures
        has_addr(s, s[p].addr),
        slot_of(s, s[p].addr) == p,
{
    let q = slot_of(s, s[p].addr);
    assert(0 <= q < s.len() && s[q].addr == s[p].addr);
    if q < p {
        assert(s[q].addr != s[p].addr);
    } else if p < q {
        assert(s[p].addr != s[q].addr);
    }
}

/// Changing one slot changes the count and the spread by that slot.
proof fn lemma_slot_update(s: Seq<ObjSlot>, n: int, i: int, e: ObjSlot)
    requires
        0 <= i < s.len(),
        n <= s.len(),
    ensures
        taken(s.update(i, e), n) == taken(s, n) + (if i < n {
            (if e.addr != 0 {
                1int
            } else {
                0int
            }) - (if s[i].addr != 0 {
                1int
            } else {
                0int
            })
        } else {
            0int
        }),
        spread(s.update(i, e), n) == spread(s, n) + (if i < n {
            (if e.addr != 0 {
                ahead(home_of(e.addr, s.len() as int), i, s.len() as int)
            } else {
                0int
            }) - (if s[i].addr != 0 {
                ahead(home_of(s[i].addr, s.len() as int), i, s.len() as int)
            } else {
                0int
            })
        } else {
            0int
        }),
    decreases n,
{
    if n > 0 {
        lemma_slot_update(s, n - 1, i, e);
    }
}

proof fn lemma_spread_positive(s: Seq<ObjSlot>, n: int)
    requires
        n <= s.len(),
    ensures
        0 <= spread(s, n),
        0 <= taken(s, n),
        n >= 0 ==> taken(s, n) <= n,
    decreases n,
{
    if n > 0 {
        lemma_spread_positive(s, n - 1);
        lemma_home(s[n - 1].addr, s.len() as int);
    }
}

/// The addresses in the first `n` slots.
spec fn addresses(s: Seq<ObjSlot>, n: int) -> Set<usize> {
    Set::new(
        |a: usize| a != 0 && exists|p: int| 0 <= p < n && (#[trigger] s[p]).addr == a,
    )
}

proof fn lemma_addresses(s: Seq<ObjSlot>, n: int)
    requires
        distinct(s),
        0 <= n <= s.len(),
    ensures
        addresses(s, n).finite(),
        addresses(s, n).len() == taken(s, n),
    decreases n,
{
    if n == 0 {
        assert(addresses(s, 0) =~= Set::empty());
    } else {
        lemma_addresses(s, n - 1);
        let a = s[n - 1].addr;
        if a != 0 {
            assert(!addresses(s, n - 1).contains(a)) by {
                if addresses(s, n - 1).contains(a) {
                    let p = choose|p: int| 0 <= p < n - 1 && (#[trigger] s[p]).addr == a;
                    assert(s[p].addr != s[n - 1].addr);
                }
            }
            assert(addresses(s, n) =~= addresses(s, n - 1).insert(a)) by {
                assert forall|b: usize| addresses(s, n).contains(b) implies addresses(
                    s,
                    n - 1,
                ).insert(a).contains(b) by {
                    let p = choose|p: int| 0 <= p < n && (#[trigger] s[p]).addr == b;
                    if p < n - 1 {
                        assert(addresses(s, n - 1).contains(b));
                    }
                }
                assert(addresses(s, n).contains(a));
            }
        } else {
            assert(addresses(s, n) =~= addresses(s, n - 1)) by {
                assert forall|b: usize| addresses(s, n).contains(b) implies addresses(
                    s,
                    n - 1,
                ).contains(b) by {
                    let p = choose|p: int| 0 <= p < n && (#[trigger] s[p]).addr == b;
                    assert(p < n - 1);
                }
            }
        }
    }
}

/// The objects are as many as the taken slots.
proof fn lemma_records_len(s: Seq<ObjSlot>)
    requires
        distinct(s),
    ensures
        records_of(s).dom().finite(),
        records_of(s).len() == taken(s, s.len() as int),
{
    lemma_addresses(s, s.len() as int);
    assert(records_of(s).dom() =~= addresses(s, s.len() as int));
}

/// A full table has every slot taken.
proof fn lemma_all_taken(s: Seq<ObjSlot>, n: int)
    requires
        0 <= n <= s.len(),
        forall|p: int| 0 <= p < n ==> (#[trigger] s[p]).addr != 0,
    ensures
        taken(s, n) == n,
    decreases n,
{
    if n > 0 {
        lemma_all_taken(s, n - 1);
    }
}

/// Putting an object in a free slot.
proof fn lemma_put(s: Seq<ObjSlot>, e: int, slot: ObjSlot)
    requires
        distinct(s),
        0 <= e < s.len(),
        s[e].addr == 0,
        slot.addr != 0,
        !has_addr(s, slot.addr),
    ensures
        distinct(s.update(e, slot)),
        records_of(s.update(e, slot)) == records_of(s).insert(slot.addr, slot.rec),
{
    let t = s.update(e, slot);
    assert forall|p: int| 0 <= p < s.len() implies (#[trigger] s[p]).addr != slot.addr by {}
    assert forall|p: int, q: int|
        #![trigger t[p], t[q]]
        0 <= p < q < t.len() && t[p].addr != 0 implies t[p].addr != t[q].addr by {
        if p == e {
            assert(t[q] == s[q]);
        } else if q == e {
            assert(t[p] == s[p]);
        } else {
            assert(s[p].addr != s[q].addr);
        }
    }
    lemma_same_objects(s, t, e, slot);
}

/// The objects after one was put in a free slot.
proof fn lemma_same_objects(s: Seq<ObjSlot>, t: Seq<ObjSlot>, e: int, slot: ObjSlot)
    requires
        distinct(s),
        distinct(t),
        0 <= e < s.len(),
        s[e].addr == 0,
        slot.addr != 0,
        t == s.update(e, slot),
    ensures
        records_of(t) == records_of(s).insert(slot.addr, slot.rec),
{
    let m = records_of(s).insert(slot.addr, slot.rec);
    assert forall|a: usize| has_addr(t, a) == m.contains_key(a) by {
        if has_addr(t, a) {
            let p = slot_of(t, a);
            assert(t[p].addr == a);
            if p != e {
                assert(s[p].addr == a);
            }
        }
        if has_addr(s, a) {
            let p = slot_of(s, a);
            assert(s[p].addr == a);
            assert(t[p].addr == a);
        }
        assert(t[e].addr == slot.addr);
    }
    assert forall|a: usize| #[trigger] m.contains_key(a) implies records_of(t)[a] == m[a] by {
        assert(has_addr(t, a));
        let p = slot_of(t, a);
        assert(t[p].addr == a);
        if p == e {
        } else {
            assert(s[p].addr == a);
            lemma_slot(s, p);
            lemma_slot(t, e);
            assert(a != slot.addr);
        }
    }
    assert(records_of(t) =~= m);
}

/// Clearing a slot.
proof fn lemma_cleared(s: Seq<ObjSlot>, i: int, blank: ObjSlot)
    requires
        distinct(s),
        0 <= i < s.len(),
        s[i].addr != 0,
        blank.addr == 0,
    ensures
        distinct(s.update(i, blank)),
        records_of(s.update(i, blank)) == records_of(s).remove(s[i].addr),
        !has_addr(s.update(i, blank), s[i].addr),
{
    let t = s.update(i, blank);
    assert forall|p: int, q: int|
        #![trigger t[p], t[q]]
        0 <= p < q < t.len() && t[p].addr != 0 implies t[p].addr != t[q].addr by {
        assert(t[p] == s[p]);
        if q != i {
            assert(s[p].addr != s[q].addr);
        }
    }
    if has_addr(t, s[i].addr) {
        let p = slot_of(t, s[i].addr);
        assert(t[p].addr == s[i].addr);
        lemma_slot(s, p);
        lemma_slot(s, i);
    }
    assert(t.update(i, s[i]) =~= s);
    lemma_same_objects(t, s, i, s[i]);
    assert(!records_of(t).contains_key(s[i].addr));
    assert(records_of(t) =~= records_of(s).remove(s[i].addr));
}

/// The objects from the gap at `hole` up to slot `j` are not cut off from their homes by it.
spec fn settled(s: Seq<ObjSlot>, hole: int, j: int) -> bool {
    forall|p: int|
        0 <= p < s.len() && (#[trigger] s[p]).addr != 0 && ahead(hole, p, s.len() as int) <= ahead(
            hole,
            j,
            s.len() as int,
        ) ==> off_path(s, p, hole)
}

/// Where the gap ends: at a free slot, or once round the table, no object is cut off by it.
proof fn lemma_gap_closed(s: Seq<ObjSlot>, hole: int, was: int, j: int)
    requires
        0 <= hole < s.len(),
        0 <= was < s.len(),
        j == (if was == s.len() - 1 {
            0
        } else {
            was + 1
        }),
        s[j].addr == 0,
        s[hole].addr == 0,
        reachable(s, hole),
        settled(s, hole, was),
    ensures
        reachable(s, -1),
{
    let n = s.len() as int;
    assert forall|p: int, e: int|
        0 <= p < s.len() && 0 <= e < s.len() && s[p].addr != 0 && s[e].addr == 0 && e
            != -1 implies #[trigger] off_path(s, p, e) by {
        lemma_home(s[p].addr, n);
        if e == hole && ahead(hole, p, n) > ahead(hole, was, n) {
            assert(j != hole);
            assert(off_path(s, p, j));
        }
    }
}

/// The next object is not cut off by the gap either.
proof fn lemma_settled_step(s: Seq<ObjSlot>, hole: int, was: int, j: int)
    requires
        0 <= hole < s.len(),
        0 <= was < s.len(),
        j == (if was == s.len() - 1 {
            0
        } else {
            was + 1
        }),
        s[hole].addr == 0,
        s[j].addr != 0,
        settled(s, hole, was),
        off_path(s, j, hole),
    ensures
        settled(s, hole, j),
        ahead(hole, j, s.len() as int) == ahead(hole, was, s.len() as int) + 1,
{
    let n = s.len() as int;
    assert forall|p: int|
        0 <= p < s.len() && (#[trigger] s[p]).addr != 0 && ahead(hole, p, n) <= ahead(
            hole,
            j,
            n,
        ) implies off_path(s, p, hole) by {
        if p != j {
            assert(ahead(hole, p, n) <= ahead(hole, was, n));
        }
    }
}

/// Moving an object that the gap cuts off back into the gap moves the gap to its slot, and
/// brings the object nearer to its home.
proof fn lemma_gap_moves(s: Seq<ObjSlot>, hole: int, j: int, blank: ObjSlot)
    requires
        distinct(s),
        0 <= hole < s.len(),
        0 <= j < s.len(),
        s[hole].addr == 0,
        s[j].addr != 0,
        blank.addr == 0,
        reachable(s, hole),
        !off_path(s, j, hole),
    ensures
        ({
            let t = s.update(hole, s[j]).update(j, blank);
            &&& distinct(t)
            &&& records_of(t) == records_of(s)
            &&& taken(t, s.len() as int) == taken(s, s.len() as int)
            &&& spread(t, s.len() as int) < spread(s, s.len() as int)
            &&& reachable(t, j)
            &&& t[j].addr == 0
        }),
{
    let n = s.len() as int;
    let moved = s[j];
    let c = s.update(j, blank);
    let t = s.update(hole, moved).update(j, blank);
    assert(c.update(hole, moved) =~= t);
    lemma_cleared(s, j, blank);
    lemma_put(c, hole, moved);
    lemma_slot(s, j);
    lemma_slot_update(s, n, j, blank);
    lemma_slot_update(c, n, hole, moved);
    assert(records_of(t) =~= records_of(s));
    assert forall|p: int, e: int|
        0 <= p < t.len() && 0 <= e < t.len() && t[p].addr != 0 && t[e].addr == 0 && e
            != j implies #[trigger] off_path(t, p, e) by {
        assert(t[e] == s[e]);
        assert(e != hole);
        if p == hole {
            assert(off_path(s, j, e));
        } else {
            assert(t[p] == s[p]);
            assert(off_path(s, p, e));
        }
    }
}

/// The set of live sampled objects. `CAP` is a power of two.
pub struct SampledObjects<const CAP: usize> {
    slots: Vec<ObjSlot>,
    len: usize,
    dropped: u64,
}

impl<const CAP: usize> View for SampledObjects<CAP> {
    type V = SampledView;

    closed spec fn view(&self) -> SampledView {
        SampledView { records: records_of(self.slots@), dropped: self.dropped }
    }
}

/// The number of objects from which on no new one is taken.
pub open spec fn load_limit(cap: int) -> int {
    cap - cap / 8
}

impl<const CAP: usize> SampledObjects<CAP> {
    /// No address occurs twice, a probe finds every object, and the objects are counted right.
    pub closed spec fn wf(self) -> bool {
        &&& self.slots@.len() == CAP > 0
        &&& distinct(self.slots@)
        &&& reachable(self.slots@, -1)
        &&& self.len == taken(self.slots@, CAP as int)
    }

    /// What follows from the invariant.
    pub proof fn lemma_wf(self)
        requires
            self.wf(),
        ensures
            self@.records.dom().finite(),
            self@.records.len() <= CAP,
            !self@.records.contains_key(0),
    {
        lemma_records_len(self.slots@);
        lemma_spread_positive(self.slots@, CAP as int);
    }

    /// An empty set.
    pub fn new() -> (res: SampledObjects<CAP>)
        requires
            overflow::is_pow2(CAP as int),
        ensures
            res.wf(),
            res@ == (SampledView { records: Map::empty(), dropped: 0 }),
    {
        proof {
            let k = choose|k: nat| CAP as int == #[trigger] vstd::arithmetic::power2::pow2(k);
            vstd::arithmetic::power2::lemma_pow2_pos(k);
        }
        let mut slots: Vec<ObjSlot> = Vec::new();
        let mut n: usize = 0;
        while n < CAP
            invariant
                n <= CAP,
                slots@.len() == n,
                forall|i: int| 0 <= i < n ==> (#[trigger] slots@[i]).addr == 0,
                taken(slots@, n as int) == 0,
            decreases CAP - n,
        {
            let ghost before = slots@;
            slots.push(Self::blank());
            n = n + 1;
            proof {
                lemma_taken_prefix(before, slots@, n - 1);
            }
        }
        let s = SampledObjects { slots, len: 0, dropped: 0 };
        proof {
            assert(s@.records =~= Map::<usize, SampledRecord>::empty());
        }
        s
    }

    /// A free slot.
    fn blank() -> (res: ObjSlot)
        ensures
            res == (ObjSlot {
                addr: 0,
                rec: SampledRecord { stack_id: StackId(0), bytes: 0, usable: 0, alloc_ms: 0 },
            }),
    {
        ObjSlot {
            addr: 0,
            rec: SampledRecord { stack_id: StackId::unknown(), bytes: 0, usable: 0, alloc_ms: 0 },
        }
    }

    /// The number of objects from which on no new one is taken.
    fn max_load(&self) -> (res: usize)
        ensures
            res == load_limit(CAP as int),
    {
        CAP - CAP / 8
    }

    /// Where the probe for `addr` starts.
    fn home(addr: usize) -> (res: usize)
        requires
            CAP > 0,
        ensures
            res == home_of(addr, CAP as int),
            res < CAP,
    {
        let h: u64 = (addr as u64).wrapping_mul(0x9e37_79b9_7f4a_7c15) >> 29;
        (h % (CAP as u64)) as usize
    }

    /// The slot after `i`.
    fn next(i: usize) -> (res: usize)
        requires
            i < CAP,
        ensures
            res == (if i == CAP - 1 {
                0
            } else {
                i + 1
            }),
    {
        if i == CAP - 1 {
            0
        } else {
            i + 1
        }
    }

    /// How many objects there are.
    pub fn len(&self) -> (res: usize)
        requires
            self.wf(),
        ensures
            res == self@.records.len(),
    {
        proof {
            lemma_records_len(self.slots@);
        }
        self.len
    }

    /// Whether there are none.
    pub fn is_empty(&self) -> (res: bool)
        requires
            self.wf(),
        ensures
            res == (self@.records.len() == 0),
    {
        proof {
            lemma_records_len(self.slots@);
        }
        self.len == 0
    }

    /// Objects that there was no room for so far.
    pub fn dropped(&self) -> (res: u64)
        ensures
            res == self@.dropped,
    {
        self.dropped
    }

    /// The slot of `addr`, and `true`; or the free slot where it would go, and `false`; `None`
    /// when it is not there and there is no free slot.
    fn probe(&self, addr: usize) -> (res: Option<(usize, bool)>)
        requires
            self.wf(),
            addr != 0,
        ensures
            match res {
                Some((i, there)) => {
                    &&& i < CAP
                    &&& there ==> self.slots@[i as int].addr == addr
                    &&& !there ==> {
                        &&& self.slots@[i as int].addr == 0
                        &&& !has_addr(self.slots@, addr)
                        &&& forall|e: int|
                            0 <= e < CAP && e != i && (#[trigger] self.slots@[e]).addr == 0 ==> ahead(
                                home_of(addr, CAP as int),
                                i as int,
                                CAP as int,
                            ) <= ahead(home_of(addr, CAP as int), e, CAP as int)
                    }
                },
                None => !has_addr(self.slots@, addr) && self.len == CAP,
            },
    {
        let ghost s = self.slots@;
        let ghost h = home_of(addr, CAP as int);
        let mut i: usize = Self::home(addr);
        let mut steps: usize = 0;
        while steps < CAP
            invariant
                self.wf(),
                addr != 0,
                s == self.slots@,
                h == home_of(addr, CAP as int),
                0 <= h < CAP,
                steps <= CAP,
                i < CAP,
                steps < CAP ==> ahead(h, i as int, CAP as int) == steps,
                forall|p: int|
                    0 <= p < CAP && ahead(h, p, CAP as int) < steps ==> (#[trigger] s[p]).addr != 0
                        && s[p].addr != addr,
            decreases CAP - steps,
        {
            let at: usize = self.slots[i].addr;
            if at == 0 {
                proof {
                    if has_addr(s, addr) {
                        let p = slot_of(s, addr);
                        assert(s[p].addr == addr);
                        assert(off_path(s, p, i as int));
                    }
                }
                return Some((i, false));
            }
            if at == addr {
                return Some((i, true));
            }
            i = Self::next(i);
            steps = steps + 1;
        }
        proof {
            assert forall|p: int| 0 <= p < CAP implies (#[trigger] s[p]).addr != 0 && s[p].addr
                != addr by {
                assert(ahead(h, p, CAP as int) < CAP);
            }
            lemma_all_taken(s, CAP as int);
        }
        None
    }

    /// Put a new object in the free slot that the probe found.
    fn put(&mut self, i: usize, addr: usize, rec: SampledRecord)
        requires
            old(self).wf(),
            i < CAP,
            addr != 0,
            old(self).slots@[i as int].addr == 0,
            !has_addr(old(self).slots@, addr),
            forall|e: int|
                0 <= e < CAP && e != i && (#[trigger] old(self).slots@[e]).addr == 0 ==> ahead(
                    home_of(addr, CAP as int),
                    i as int,
                    CAP as int,
                ) <= ahead(home_of(addr, CAP as int), e, CAP as int),
        ensures
            final(self).wf(),
            final(self)@ == (SampledView {
                records: old(self)@.records.insert(addr, rec),
                ..old(self)@
            }),
    {
        let ghost s = self.slots@;
        let slot = ObjSlot { addr, rec };
        proof {
            lemma_put(s, i as int, slot);
            lemma_slot_update(s, CAP as int, i as int, slot);
            lemma_spread_positive(s.update(i as int, slot), CAP as int);
        }
        self.slots.set(i, slot);
        self.len = self.len + 1;
        proof {
            let t = self.slots@;
            assert forall|p: int, e: int|
                0 <= p < t.len() && 0 <= e < t.len() && t[p].addr != 0 && t[e].addr == 0 && e
                    != -1 implies #[trigger] off_path(t, p, e) by {
                assert(t[e] == s[e]);
                if p != i {
                    assert(t[p] == s[p]);
                    assert(off_path(s, p, e));
                }
            }
        }
    }

    /// Record a sampled allocation at `addr`. `true` when it is a new object of the set; `false`
    /// when there is no room, which is counted, when the address was recorded already, which
    /// takes the newer record, and for address 0.
    pub fn on_alloc(&mut self, addr: usize, rec: SampledRecord) -> (res: bool)
        requires
            old(self).wf(),
        ensures
            final(self).wf(),
            ({
                let v = old(self)@;
                if addr == 0 {
                    !res && final(self)@ == v
                } else if v.records.len() >= load_limit(CAP as int) {
                    !res && final(self)@ == (SampledView {
                        dropped: placement::cap64(v.dropped + 1) as u64,
                        ..v
                    })
                } else {
                    &&& res == !v.records.contains_key(addr)
                    &&& final(self)@ == (SampledView {
                        records: v.records.insert(addr, rec),
                        ..v
                    })
                }
            }),
    {
        if addr == 0 {
            return false;
        }
        proof {
            lemma_records_len(self.slots@);
        }
        if self.len >= self.max_load() {
            self.dropped = self.dropped.saturating_add(1);
            return false;
        }
        match self.probe(addr) {
            Some((i, there)) => {
                if there {
                    let ghost s = self.slots@;
                    let slot = ObjSlot { addr, rec };
                    proof {
                        lemma_slot(s, i as int);
                        lemma_replaced(s, i as int, slot);
                        lemma_slot_update(s, CAP as int, i as int, slot);
                    }
                    self.slots.set(i, slot);
                    false
                } else {
                    self.put(i, addr, rec);
                    true
                }
            },
            None => false,
        }
    }

    /// Put a record back that was taken out for something that then failed: its object is still
    /// live. Unlike a new object it is taken as long as there is any room. `false` when there is
    /// none, which is counted, when the address has been recorded anew meanwhile, which keeps
    /// the newer record, and for address 0.
    pub fn on_alloc_restore(&mut self, addr: usize, rec: SampledRecord) -> (res: bool)
        requires
            old(self).wf(),
        ensures
            final(self).wf(),
            ({
                let v = old(self)@;
                if addr == 0 {
                    !res && final(self)@ == v
                } else if v.records.len() >= CAP {
                    !res && final(self)@ == (SampledView {
                        dropped: placement::cap64(v.dropped + 1) as u64,
                        ..v
                    })
                } else if v.records.contains_key(addr) {
                    !res && final(self)@ == v
                } else {
                    res && final(self)@ == (SampledView {
                        records: v.records.insert(addr, rec),
                        ..v
                    })
                }
            }),
    {
        if addr == 0 {
            return false;
        }
        proof {
            lemma_records_len(self.slots@);
        }
        if self.len >= CAP {
            self.dropped = self.dropped.saturating_add(1);
            return false;
        }
        match self.probe(addr) {
            Some((i, there)) => {
                if there {
                    proof {
                        lemma_slot(self.slots@, i as int);
                    }
                    false
                } else {
                    self.put(i, addr, rec);
                    true
                }
            },
            None => false,
        }
    }

    /// Take the record of `addr` out: its object is being freed. `None` when it was not sampled.
    pub fn on_free(&mut self, addr: usize) -> (res: Option<SampledRecord>)
        requires
            old(self).wf(),
        ensures
            final(self).wf(),
            ({
                let v = old(self)@;
                if v.records.contains_key(addr) {
                    &&& res == Some(v.records[addr])
                    &&& final(self)@ == (SampledView { records: v.records.remove(addr), ..v })
                } else {
                    res is None && final(self)@ == v
                }
            }),
    {
        if addr == 0 {
            return None;
        }
        match self.probe(addr) {
            Some((i, there)) => {
                if there {
                    proof {
                        lemma_slot(self.slots@, i as int);
                    }
                    let rec = self.slots[i].rec;
                    self.remove_at(i);
                    Some(rec)
                } else {
                    None
                }
            },
            None => None,
        }
    }

    /// Take the object in slot `i` out, and move back into the gap each later object that the
    /// gap would cut off from its home, so that a probe still finds every object.
    fn remove_at(&mut self, i: usize)
        requires
            old(self).wf(),
            i < CAP,
            old(self).slots@[i as int].addr != 0,
        ensures
            final(self).wf(),
            final(self)@ == (SampledView {
                records: old(self)@.records.remove(old(self).slots@[i as int].addr),
                ..old(self)@
            }),
    {
        let ghost n = CAP as int;
        let ghost m = self@.records.remove(self.slots@[i as int].addr);
        let blank = Self::blank();
        proof {
            lemma_cleared(self.slots@, i as int, blank);
            lemma_slot_update(self.slots@, n, i as int, blank);
            lemma_spread_positive(self.slots@, n);
            lemma_spread_positive(self.slots@.update(i as int, blank), n);
        }
        let ghost before = self.slots@;
        self.slots.set(i, blank);
        self.len = self.len - 1;
        proof {
            let s = self.slots@;
            assert forall|p: int, e: int|
                0 <= p < s.len() && 0 <= e < s.len() && s[p].addr != 0 && s[e].addr == 0 && e
                    != i implies #[trigger] off_path(s, p, e) by {
                assert(s[p] == before[p]);
                assert(off_path(before, p, e));
            }
        }
        let mut hole: usize = i;
        let mut j: usize = i;
        loop
            invariant
                n == CAP > 0,
                blank.addr == 0,
                self.slots@.len() == n,
                hole < CAP,
                j < CAP,
                self.slots@[hole as int].addr == 0,
                distinct(self.slots@),
                records_of(self.slots@) == m,
                m == old(self)@.records.remove(old(self).slots@[i as int].addr),
                self.dropped == old(self).dropped,
                self.len == taken(self.slots@, n),
                reachable(self.slots@, hole as int),
                settled(self.slots@, hole as int, j as int),
            decreases spread(self.slots@, n), n - ahead(hole as int, j as int, n),
        {
            let ghost s = self.slots@;
            let ghost was = j as int;
            j = Self::next(j);
            let addr_j: usize = self.slots[j].addr;
            if addr_j == 0 {
                proof {
                    lemma_gap_closed(s, hole as int, was, j as int);
                }
                return;
            }
            let home_j: usize = Self::home(addr_j);
            let can_move: bool = if hole <= j {
                !(hole < home_j && home_j <= j)
            } else {
                !(home_j > hole || home_j <= j)
            };
            proof {
                assert(can_move == !off_path(s, j as int, hole as int));
            }
            if can_move {
                let moved = self.slots[j];
                proof {
                    lemma_gap_moves(s, hole as int, j as int, blank);
                }
                self.slots.set(hole, moved);
                self.slots.set(j, blank);
                hole = j;
                proof {
                    lemma_spread_positive(self.slots@, n);
                    assert(settled(self.slots@, hole as int, j as int));
                }
            } else {
                proof {
                    lemma_settled_step(s, hole as int, was, j as int);
                    lemma_spread_positive(s, n);
                }
            }
        }
    }

    /// Every object, in no particular order.
    pub fn for_each(&self) -> (res: Vec<SampledRecord>)
        requires
            self.wf(),
        ensures
            exists|addrs: Seq<usize>| #[trigger]
                lists_all(self@.records, addrs) && res@ == addrs.map_values(
                    |a: usize| self@.records[a],
                ),
    {
        let mut out: Vec<SampledRecord> = Vec::new();
        let ghost mut addrs: Seq<usize> = Seq::empty();
        let ghost m = self@.records;
        let mut i: usize = 0;
        proof {
            assert(out@ =~= addrs.map_values(|a: usize| m[a]));
        }
        while i < CAP
            invariant
                self.wf(),
                m == self@.records,
                i <= CAP,
                listed(self.slots@, addrs, i as int),
                out@ == addrs.map_values(|a: usize| m[a]),
            decreases CAP - i,
        {
            let slot = self.slots[i];
            if slot.addr != 0 {
                let ghost before = addrs;
                proof {
                    lemma_slot(self.slots@, i as int);
                    lemma_listed_step(self.slots@, addrs, i as int);
                    addrs = addrs.push(slot.addr);
                }
                out.push(slot.rec);
                proof {
                    assert(out@ =~= addrs.map_values(|a: usize| m[a]));
                }
            } else {
                proof {
                    lemma_listed_skip(self.slots@, addrs, i as int);
                }
            }
            i = i + 1;
        }
        proof {
            lemma_lists_all(self.slots@, addrs);
        }
        out
    }

    /// The address of every object, in no particular order.
    pub fn for_each_addr(&self) -> (res: Vec<usize>)
        requires
            self.wf(),
        ensures
            lists_all(self@.records, res@),
    {
        let mut out: Vec<usize> = Vec::new();
        let mut i: usize = 0;
        while i < CAP
            invariant
                self.wf(),
                i <= CAP,
                listed(self.slots@, out@, i as int),
            decreases CAP - i,
        {
            let slot = self.slots[i];
            if slot.addr != 0 {
                proof {
                    lemma_listed_step(self.slots@, out@, i as int);
                }
                out.push(slot.addr);
            } else {
                proof {
                    lemma_listed_skip(self.slots@, out@, i as int);
                }
            }
            i = i + 1;
        }
        proof {
            lemma_lists_all(self.slots@, out@);
        }
        out
    }
}

/// The addresses of all objects, each once.
pub open spec fn lists_all(m: Map<usize, SampledRecord>, addrs: Seq<usize>) -> bool {
    &&& addrs.no_duplicates()
    &&& forall|a: usize| #[trigger] addrs.contains(a) <==> m.contains_key(a)
}

/// The addresses in the first `n` slots, each once.
spec fn listed(s: Seq<ObjSlot>, addrs: Seq<usize>, n: int) -> bool {
    &&& addrs.no_duplicates()
    &&& forall|a: usize| #[trigger] addrs.contains(a) <==> addresses(s, n).contains(a)
}

proof fn lemma_listed_step(s: Seq<ObjSlot>, addrs: Seq<usize>, n: int)
    requires
        distinct(s),
        0 <= n < s.len(),
        s[n].addr != 0,
        listed(s, addrs, n),
    ensures
        listed(s, addrs.push(s[n].addr), n + 1),
{
    let a = s[n].addr;
    let t = addrs.push(a);
    if addrs.contains(a) {
        assert(addresses(s, n).contains(a));
        let p = choose|p: int| 0 <= p < n && (#[trigger] s[p]).addr == a;
        assert(s[p].addr != s[n].addr);
    }
    assert forall|b: usize| #[trigger] t.contains(b) <==> addresses(s, n + 1).contains(b) by {
        if t.contains(b) {
            let k = choose|k: int| 0 <= k < t.len() && t[k] == b;
            if k < addrs.len() {
                assert(addrs[k] == b);
                assert(addrs.contains(b));
                assert(addresses(s, n).contains(b));
                let p = choose|p: int| 0 <= p < n && (#[trigger] s[p]).addr == b;
                assert(s[p].addr == b && p < n + 1);
            } else {
                assert(s[n].addr == b);
            }
        }
        if addresses(s, n + 1).contains(b) {
            let p = choose|p: int| 0 <= p < n + 1 && (#[trigger] s[p]).addr == b;
            if p < n {
                assert(addresses(s, n).contains(b));
                assert(addrs.contains(b));
                let k = choose|k: int| 0 <= k < addrs.len() && addrs[k] == b;
                assert(t[k] == b);
            } else {
                assert(t[addrs.len() as int] == b);
            }
        }
    }
}

proof fn lemma_listed_skip(s: Seq<ObjSlot>, addrs: Seq<usize>, n: int)
    requires
        0 <= n < s.len(),
        s[n].addr == 0,
        listed(s, addrs, n),
    ensures
        listed(s, addrs, n + 1),
{
    assert(addresses(s, n + 1) =~= addresses(s, n)) by {
        assert forall|b: usize| addresses(s, n + 1).contains(b) implies addresses(s, n).contains(
            b,
        ) by {
            let p = choose|p: int| 0 <= p < n + 1 && (#[trigger] s[p]).addr == b;
            assert(p < n);
        }
        assert forall|b: usize| addresses(s, n).contains(b) implies addresses(s, n + 1).contains(
            b,
        ) by {
            let p = choose|p: int| 0 <= p < n && (#[trigger] s[p]).addr == b;
            assert(p < n + 1 && s[p].addr == b);
        }
    }
}

proof fn lemma_lists_all(s: Seq<ObjSlot>, addrs: Seq<usize>)
    requires
        listed(s, addrs, s.len() as int),
    ensures
        lists_all(records_of(s), addrs),
{
    assert forall|a: usize| #[trigger] addrs.contains(a) <==> records_of(s).contains_key(a) by {
        assert(addresses(s, s.len() as int).contains(a) <==> has_addr(s, a));
    }
}

proof fn lemma_taken_prefix(s: Seq<ObjSlot>, t: Seq<ObjSlot>, n: int)
    requires
        n <= s.len(),
        n <= t.len(),
        forall|i: int| 0 <= i < n ==> #[trigger] t[i] == s[i],
    ensures
        taken(t, n) == taken(s, n),
    decreases n,
{
    if n > 0 {
        lemma_taken_prefix(s, t, n - 1);
    }
}

/// Taking a newer record for an address.
proof fn lemma_replaced(s: Seq<ObjSlot>, i: int, slot: ObjSlot)
    requires
        distinct(s),
        reachable(s, -1),
        0 <= i < s.len(),
        s[i].addr != 0,
        slot.addr == s[i].addr,
    ensures
        distinct(s.update(i, slot)),
        reachable(s.update(i, slot), -1),
        records_of(s.update(i, slot)) == records_of(s).insert(slot.addr, slot.rec),
{
    let t = s.update(i, slot);
    let blank = ObjSlot { addr: 0, rec: slot.rec };
    lemma_cleared(s, i, blank);
    lemma_put(s.update(i, blank), i, slot);
    assert(s.update(i, blank).update(i, slot) =~= t);
    assert(records_of(s).remove(slot.addr).insert(slot.addr, slot.rec) =~= records_of(s).insert(
        slot.addr,
        slot.rec,
    ));
    assert forall|p: int, e: int|
        0 <= p < t.len() && 0 <= e < t.len() && t[p].addr != 0 && t[e].addr == 0 && e
            != -1 implies #[trigger] off_path(t, p, e) by {
        assert(t[p].addr == s[p].addr);
        assert(off_path(s, p, e));
    }
}

/// Freeing an object gives back the record of its allocation, and leaves the set as it was
/// before.
pub proof fn law_free_resolves_the_allocation(
    m: Map<usize, SampledRecord>,
    addr: usize,
    rec: SampledRecord,
)
    requires
        !m.contains_key(addr),
    ensures
        m.insert(addr, rec)[addr] == rec,
        m.insert(addr, rec).remove(addr) == m,
{
    assert(m.insert(addr, rec).remove(addr) =~= m);
}

/// The set takes new objects until it is filled to seven eighths, and no further.
pub proof fn law_set_fills_to_seven_eighths(cap: int)
    requires
        0 < cap,
    ensures
        7 * cap <= 8 * load_limit(cap) < 7 * cap + 8,
        load_limit(cap) > 0,
        cap >= 8 ==> load_limit(cap) < cap,
{
}

} // verus!
