//! The order in which locks are taken, and the ranks that a thread holds.
use vstd::prelude::*;

verus! {

/// The ranks of the locks, in the order in which they may be taken.
pub struct LockRank;

impl LockRank {
    /// Global configuration.
    pub const GLOBAL_CONFIG: u8 = 0;

    /// The arena registry.
    pub const ARENA_REGISTRY: u8 = 1;

    /// The hooks of one arena.
    pub const ARENA: u8 = 2;

    /// The front-end caches.
    pub const FRONT_END: u8 = 3;

    /// The transfer caches.
    pub const TRANSFER: u8 = 4;

    /// The central free lists.
    pub const CENTRAL: u8 = 5;

    /// The pool of span descriptors, which is held while a span's lock is taken.
    pub const SPAN_POOL: u8 = 6;

    /// One span.
    pub const SPAN: u8 = 7;

    /// The extents, the large allocations and the hugepages.
    pub const BACKEND: u8 = 8;

    /// Statistics.
    pub const STATS: u8 = 9;
}

/// The most locks that a thread can hold at a time.
pub const MAX_HELD: usize = 16;

/// Why a lock must not be taken.
#[derive(Clone, Copy, PartialEq, Eq, Debug, Structural)]
pub enum LockOrder {
    /// The thread holds this rank, which is not below the one asked for.
    Holding(u8),
    /// The thread holds as many locks as can be tracked.
    TooDeep,
}

/// A lock of that rank may be taken by a thread that holds those ranks: it is above them all.
pub open spec fn admits(held: Seq<u8>, rank: u8) -> bool {
    forall|i: int| #![trigger held[i]] 0 <= i < held.len() ==> held[i] < rank
}

/// The first of the ranks that is not below `rank`.
pub open spec fn first_above(held: Seq<u8>, rank: u8, i: int) -> bool {
    &&& 0 <= i < held.len()
    &&& held[i] >= rank
    &&& forall|j: int| #![trigger held[j]] 0 <= j < i ==> held[j] < rank
}

/// The last of the ranks that is `rank`.
pub open spec fn last_of(held: Seq<u8>, rank: u8, i: int) -> bool {
    &&& 0 <= i < held.len()
    &&& held[i] == rank
    &&& forall|j: int| #![trigger held[j]] i < j < held.len() ==> held[j] != rank
}

/// The ranks that a thread holds. A build without the checker keeps none.
#[derive(Clone, Copy)]
pub struct HeldRanks {
    ranks: [u8; MAX_HELD],
    len: usize,
    checked: bool,
}

impl View for HeldRanks {
    type V = Seq<u8>;

    closed spec fn view(&self) -> Seq<u8> {
        self.ranks@.take(self.len as int)
    }
}

impl HeldRanks {
    /// What the set keeps: no more than can be tracked, and none twice; nothing without the
    /// checker.
    pub closed spec fn wf(self) -> bool {
        &&& self.len <= MAX_HELD
        &&& self@.no_duplicates()
        &&& !self.checked ==> self.len == 0
    }

    /// Whether the ranks are kept and the order is checked.
    pub closed spec fn checks(self) -> bool {
        self.checked
    }

    /// The thread may take a lock of that rank: the rank is above every rank that it holds, and
    /// there is room to keep it. Without the checker it may take any.
    pub open spec fn allows(self, rank: u8) -> bool {
        self.checks() ==> admits(self@, rank) && self@.len() < MAX_HELD
    }

    /// The ranks that are held once a lock of that rank was taken.
    pub open spec fn with(self, rank: u8) -> Seq<u8> {
        if self.checks() {
            self@.push(rank)
        } else {
            self@
        }
    }

    /// What follows from the invariant.
    pub proof fn lemma_wf(self)
        requires
            self.wf(),
        ensures
            self@.len() <= MAX_HELD,
            self@.no_duplicates(),
            !self.checks() ==> self@ == Seq::<u8>::empty(),
    {
        if !self.checked {
            assert(self@ =~= Seq::<u8>::empty());
        }
    }

    /// A thread that holds nothing.
    pub fn new() -> (res: HeldRanks)
        ensures
            res.wf(),
            res.checks(),
            res@ == Seq::<u8>::empty(),
    {
        let res = HeldRanks { ranks: [0u8; MAX_HELD], len: 0, checked: true };
        proof {
            assert(res@ =~= Seq::<u8>::empty());
        }
        res
    }

    /// A thread of a build without the checker: nothing is kept, and every order is taken.
    pub fn unchecked() -> (res: HeldRanks)
        ensures
            res.wf(),
            !res.checks(),
            res@ == Seq::<u8>::empty(),
    {
        let res = HeldRanks { ranks: [0u8; MAX_HELD], len: 0, checked: false };
        proof {
            assert(res@ =~= Seq::<u8>::empty());
        }
        res
    }

    /// Record that a lock of rank `rank` is taken. Refused, with nothing changed, unless the rank
    /// is above every rank that is held. Without the checker nothing is recorded or refused.
    pub fn enter(&mut self, rank: u8) -> (res: Result<(), LockOrder>)
        requires
            old(self).wf(),
        ensures
            final(self).wf(),
            final(self).checks() == old(self).checks(),
            res is Ok <==> old(self).allows(rank),
            match res {
                Ok(_) => final(self)@ == old(self).with(rank),
                Err(LockOrder::Holding(r)) => {
                    &&& exists|i: int| #[trigger]
                        first_above(old(self)@, rank, i) && old(self)@[i] == r
                    &&& final(self)@ == old(self)@
                },
                Err(LockOrder::TooDeep) => {
                    &&& admits(old(self)@, rank)
                    &&& old(self)@.len() == MAX_HELD
                    &&& final(self)@ == old(self)@
                },
            },
    {
        if !self.checked {
            return Ok(());
        }
        let ghost held = self@;
        let mut i: usize = 0;
        while i < self.len
            invariant
                self.wf(),
                self.checked,
                old(self).checked,
                self@ == held,
                held == old(self)@,
                held.len() == self.len,
                i <= self.len <= MAX_HELD,
                forall|j: int| #![trigger held[j]] 0 <= j < i ==> held[j] < rank,
            decreases self.len - i,
        {
            proof {
                assert(held[i as int] == self.ranks@[i as int]);
            }
            if self.ranks[i] >= rank {
                proof {
                    assert(first_above(held, rank, i as int));
                }
                return Err(LockOrder::Holding(self.ranks[i]));
            }
            i = i + 1;
        }
        if self.len >= MAX_HELD {
            return Err(LockOrder::TooDeep);
        }
        self.ranks[self.len] = rank;
        self.len = self.len + 1;
        proof {
            assert(self@ =~= held.push(rank));
        }
        Ok(())
    }

    /// Record that a lock of rank `rank` is given up; whether one was held. Locks may be given up
    /// in any order.
    pub fn leave(&mut self, rank: u8) -> (res: bool)
        requires
            old(self).wf(),
        ensures
            final(self).wf(),
            final(self).checks() == old(self).checks(),
            res == old(self)@.contains(rank),
            !res ==> final(self)@ == old(self)@,
            res ==> exists|i: int| #[trigger]
                last_of(old(self)@, rank, i) && final(self)@ == old(self)@.update(
                    i,
                    old(self)@.last(),
                ).drop_last(),
    {
        let ghost held = self@;
        let mut i: usize = self.len;
        while i > 0
            invariant
                self.wf(),
                self.checked == old(self).checked,
                self@ == held,
                held == old(self)@,
                held.len() == self.len,
                i <= self.len <= MAX_HELD,
                forall|j: int| #![trigger held[j]] i <= j < held.len() ==> held[j] != rank,
            decreases i,
        {
            i = i - 1;
            proof {
                assert(held[i as int] == self.ranks@[i as int]);
            }
            if self.ranks[i] == rank {
                let last: u8 = self.ranks[self.len - 1];
                self.ranks[i] = last;
                self.len = self.len - 1;
                proof {
                    assert(held.last() == last);
                    assert(self@ =~= held.update(i as int, held.last()).drop_last());
                    assert(last_of(held, rank, i as int));
                    assert forall|a: int, b: int|
                        0 <= a < b < self@.len() implies self@[a] != self@[b] by {
                        let c = if a == i {
                            held.len() - 1
                        } else {
                            a
                        };
                        let d = if b == i {
                            held.len() - 1
                        } else {
                            b
                        };
                        assert(self@[a] == held[c] && self@[b] == held[d]);
                    }
                }
                return true;
            }
        }
        false
    }
}

impl Default for HeldRanks {
    fn default() -> (res: HeldRanks)
        ensures
            res.wf(),
            res.checks(),
            res@ == Seq::<u8>::empty(),
    {
        HeldRanks::new()
    }
}

/// How many locks a thread holds, as far as they are kept: always 0 without the checker.
pub fn held_lock_count(held: &HeldRanks) -> (res: usize)
    requires
        held.wf(),
    ensures
        res == held@.len(),
        !held.checks() ==> res == 0,
{
    held.len
}

/// Forget every lock that a thread holds, as the one thread of a forked process does.
pub fn reset_lock_checker(held: &mut HeldRanks)
    ensures
        final(held).wf(),
        final(held).checks() == old(held).checks(),
        final(held)@ == Seq::<u8>::empty(),
{
    held.len = 0;
    proof {
        assert(held@ =~= Seq::<u8>::empty());
    }
}

/// A lock of a fixed rank.
pub struct RankedLock<const RANK: u8> {
    locked: bool,
}

/// The right to give up a lock that was taken.
#[must_use]
pub struct RankedGuard<const RANK: u8> {
    rank: u8,
}

impl<const RANK: u8> View for RankedLock<RANK> {
    type V = bool;

    /// Whether the lock is held.
    closed spec fn view(&self) -> bool {
        self.locked
    }
}

impl<const RANK: u8> RankedLock<RANK> {
    /// A free lock.
    pub fn new() -> (res: RankedLock<RANK>)
        ensures
            !res@,
    {
        RankedLock { locked: false }
    }

    /// The rank.
    pub fn rank(&self) -> (res: u8)
        ensures
            res == RANK,
    {
        RANK
    }

    /// Whether the lock is held.
    pub fn is_locked(&self) -> (res: bool)
        ensures
            res == self@,
    {
        self.locked
    }

    /// Take a free lock. Its rank is above every rank that the thread holds; only a build without
    /// the checker takes it in any order.
    pub fn acquire(&mut self, held: &mut HeldRanks)
        requires
            !old(self)@,
            old(held).wf(),
            old(held).allows(RANK),
        ensures
            final(self)@,
            final(held).wf(),
            final(held).checks() == old(held).checks(),
            final(held)@ == old(held).with(RANK),
    {
        let _entered: Result<(), LockOrder> = held.enter(RANK);
        self.locked = true;
    }

    /// Give up the lock.
    pub fn release(&mut self, held: &mut HeldRanks)
        requires
            old(held).wf(),
        ensures
            final(held).wf(),
            final(held).checks() == old(held).checks(),
            !final(self)@,
            !old(held)@.contains(RANK) ==> final(held)@ == old(held)@,
            old(held)@.contains(RANK) ==> exists|i: int| #[trigger]
                last_of(old(held)@, RANK, i) && final(held)@ == old(held)@.update(
                    i,
                    old(held)@.last(),
                ).drop_last(),
    {
        self.locked = false;
        let _held: bool = held.leave(RANK);
    }

    /// Take a free lock, for the right to give it up.
    pub fn lock(&mut self, held: &mut HeldRanks) -> (res: RankedGuard<RANK>)
        requires
            !old(self)@,
            old(held).wf(),
            old(held).allows(RANK),
        ensures
            final(self)@,
            final(held).wf(),
            final(held).checks() == old(held).checks(),
            final(held)@ == old(held).with(RANK),
    {
        self.acquire(held);
        RankedGuard { rank: RANK }
    }

    /// Free the lock and leave the held ranks alone, as the one thread of a forked process does.
    pub fn force_reset(&mut self)
        ensures
            !final(self)@,
    {
        self.locked = false;
    }
}

impl<const RANK: u8> RankedGuard<RANK> {
    /// Give up the lock that the right is for.
    pub fn unlock(self, lock: &mut RankedLock<RANK>, held: &mut HeldRanks)
        requires
            old(held).wf(),
        ensures
            final(held).wf(),
            final(held).checks() == old(held).checks(),
            !final(lock)@,
            !old(held)@.contains(RANK) ==> final(held)@ == old(held)@,
            old(held)@.contains(RANK) ==> exists|i: int| #[trigger]
                last_of(old(held)@, RANK, i) && final(held)@ == old(held)@.update(
                    i,
                    old(held)@.last(),
                ).drop_last(),
    {
        lock.release(held);
    }
}

impl<const RANK: u8> Default for RankedLock<RANK> {
    fn default() -> (res: RankedLock<RANK>)
        ensures
            !res@,
    {
        RankedLock::new()
    }
}

/// Giving up the lock that was taken last leaves what was held before.
pub proof fn law_release_undoes_acquire(held: Seq<u8>, rank: u8, i: int)
    requires
        admits(held, rank),
        last_of(held.push(rank), rank, i),
    ensures
        i == held.len(),
        held.push(rank).update(i, held.push(rank).last()).drop_last() == held,
{
    let s = held.push(rank);
    assert(s[held.len() as int] == rank);
    assert(s.update(i, s.last()).drop_last() =~= held);
}

/// Whatever the order in which locks are given up, the ranks that stay held are the others.
pub proof fn law_release_keeps_the_others(held: Seq<u8>, rank: u8, i: int, other: u8)
    requires
        held.no_duplicates(),
        last_of(held, rank, i),
        other != rank,
    ensures
        held.update(i, held.last()).drop_last().contains(other) == held.contains(other),
        !held.update(i, held.last()).drop_last().contains(rank),
{
    let t = held.update(i, held.last()).drop_last();
    if held.contains(other) {
        let k = held.index_of(other);
        if k == held.len() - 1 {
            assert(t[i] == other);
        } else {
            assert(t[k] == other);
        }
    }
    if t.contains(other) {
        let k = t.index_of(other);
        if k == i {
            assert(held[held.len() - 1] == other);
        } else {
            assert(held[k] == other);
        }
    }
    if t.contains(rank) {
        let k = t.index_of(rank);
        let j = if k == i {
            held.len() - 1
        } else {
            k
        };
        assert(held[j] == rank);
        assert(held[i] == rank);
    }
}

/// The thread after thread `i` in a ring of `n`.
pub open spec fn next_in_ring(i: int, n: int) -> int {
    if i + 1 == n {
        0
    } else {
        i + 1
    }
}

/// Threads that take locks in order never wait for each other in a ring: if each may take the
/// lock that it wants, some thread wants one that the next does not hold.
pub proof fn law_no_ring_of_waiters(held: Seq<Seq<u8>>, wants: Seq<u8>)
    requires
        held.len() == wants.len(),
        0 < wants.len(),
        forall|i: int| #![trigger wants[i]] 0 <= i < wants.len() ==> admits(held[i], wants[i]),
    ensures
        exists|i: int|
            0 <= i < wants.len() && !held[next_in_ring(i, wants.len() as int)].contains(
                #[trigger] wants[i],
            ),
{
    let n = wants.len() as int;
    if forall|i: int|
        #![trigger wants[i]]
        0 <= i < n ==> held[next_in_ring(i, n)].contains(wants[i]) {
        lemma_ring_rises(held, wants, n - 1);
        let k = held[0].index_of(wants[n - 1]);
        assert(held[0].contains(wants[n - 1])) by {
            assert(held[next_in_ring(n - 1, n)].contains(wants[n - 1]));
        }
        assert(held[0][k] == wants[n - 1]);
        assert(admits(held[0], wants[0]));
        assert(wants[n - 1] < wants[0]);
    }
}

/// In a ring of waiters each wants a higher rank than those before it.
proof fn lemma_ring_rises(held: Seq<Seq<u8>>, wants: Seq<u8>, k: int)
    requires
        held.len() == wants.len(),
        0 <= k < wants.len(),
        forall|i: int| #![trigger wants[i]] 0 <= i < wants.len() ==> admits(held[i], wants[i]),
        forall|i: int|
            #![trigger wants[i]]
            0 <= i < wants.len() ==> held[next_in_ring(i, wants.len() as int)].contains(wants[i]),
    ensures
        wants[0] <= wants[k],
    decreases k,
{
    if k > 0 {
        lemma_ring_rises(held, wants, k - 1);
        assert(held[next_in_ring(k - 1, wants.len() as int)].contains(wants[k - 1]));
        let j = held[k].index_of(wants[k - 1]);
        assert(held[k][j] == wants[k - 1]);
        assert(admits(held[k], wants[k]));
    }
}

} // verus!
