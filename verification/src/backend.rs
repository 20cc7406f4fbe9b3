//! Regions of memory, the provider they come from, and the hook the large path consults.
use vstd::prelude::*;
use crate::flags::Hints;
use crate::ids::ArenaId;

verus! {

/// An address range.
#[derive(Clone, Copy, PartialEq, Eq, Debug, Structural)]
pub struct Region {
    /// First address.
    pub base: usize,
    /// Length in bytes.
    pub len: usize,
}

impl Region {
    /// Whether `addr` lies in the range.
    pub open spec fn has(self, addr: int) -> bool {
        self.base <= addr < self.base + self.len
    }
}

/// Whether `addr` lies in `[base, base + len)`. The sum is never formed, so a range that
/// reaches past the top of the address space is answered right too.
pub fn region_contains(base: usize, len: usize, addr: usize) -> (res: bool)
    ensures
        res == (base <= addr < base + len),
{
    addr >= base && addr - base < len
}

/// Why a provider refused.
#[derive(Clone, Copy, PartialEq, Eq, Debug, Structural)]
pub enum BackendError {
    /// No memory.
    OutOfMemory,
    /// A request the provider does not take.
    InvalidRequest,
}

/// Bytes by physical state.
#[derive(Clone, Copy, PartialEq, Eq, Debug, Structural)]
pub struct StateBytes {
    /// Address space that was never backed.
    pub reserved: usize,
    /// Handed out.
    pub active: usize,
    /// Backed and free.
    pub dirty: usize,
    /// Lazily purged.
    pub muzzy: usize,
    /// Returned to the operating system.
    pub released: usize,
}

/// A request to a provider, with its answer.
pub enum Request {
    /// To reserve address space.
    Reserve {
        /// The arena it is for.
        arena: ArenaId,
        /// The bytes.
        size: usize,
        /// The alignment.
        align: usize,
        /// The answer.
        reserved: Result<Region, BackendError>,
    },
    /// To back a part of a reservation.
    Commit {
        /// The reservation.
        region: Region,
        /// Where the part starts in it.
        offset: usize,
        /// The bytes of the part.
        len: usize,
        /// The answer.
        answer: Result<(), BackendError>,
    },
    /// To take the backing of a part of a reservation away.
    Decommit {
        /// The reservation.
        region: Region,
        /// Where the part starts in it.
        offset: usize,
        /// The bytes of the part.
        len: usize,
        /// The answer.
        answer: Result<(), BackendError>,
    },
    /// To revoke what was derived from a range.
    Revoke {
        /// The arena that derived it.
        arena: ArenaId,
        /// The range.
        region: Region,
        /// The answer.
        answer: Result<(), BackendError>,
    },
    /// To take a reservation back.
    Release {
        /// The arena it was for.
        arena: ArenaId,
        /// The reservation.
        region: Region,
        /// The answer.
        answer: Result<(), BackendError>,
    },
    /// To prefer the memory of a node.
    Bind {
        /// The reservation.
        region: Region,
        /// The node.
        os_node: u32,
        /// The answer.
        answer: Result<(), BackendError>,
    },
}

/// How many of some requests were to take a reservation back.
pub open spec fn releases(s: Seq<Request>) -> int
    decreases s.len(),
{
    if s.len() == 0 {
        0
    } else {
        releases(s.drop_last()) + (if s.last() is Release {
            1int
        } else {
            0int
        })
    }
}

/// The provider of address space and of its backing.
///
/// What a provider answers is its own affair: [`answers`](Self::answers) holds every request
/// together with each answer that it may get, and nothing is assumed of it. The history of the
/// requests lets a contract say which were made, in which order, and what follows from each
/// answer.
pub trait TopoBackingProvider: Sized {
    /// The requests, each with an answer that it may get. They stay the same.
    open spec fn answers(&self) -> Set<Request> {
        Set::full()
    }

    /// The requests made so far, with their answers, the first one first. An implementation
    /// keeps them in a ghost field.
    open spec fn requests(&self) -> Seq<Request> {
        Seq::empty()
    }

    /// The answers to [`name`](Self::name).
    open spec fn may_be_named(&self, answer: Seq<char>) -> bool {
        true
    }

    /// Reserve `size` bytes of address space at `align`.
    fn reserve(&mut self, arena: ArenaId, size: usize, align: usize) -> (res: Result<Region, BackendError>)
        ensures
            old(self).answers().contains(Request::Reserve { arena, size, align, reserved: res }),
            final(self).answers() == old(self).answers(),
            final(self).requests() == old(self).requests().push(
                Request::Reserve { arena, size, align, reserved: res },
            ),
    ;

    /// Back `[offset, offset + len)` of `region`.
    fn commit(&mut self, region: Region, offset: usize, len: usize) -> (res: Result<(), BackendError>)
        ensures
            old(self).answers().contains(Request::Commit { region, offset, len, answer: res }),
            final(self).answers() == old(self).answers(),
            final(self).requests() == old(self).requests().push(
                Request::Commit { region, offset, len, answer: res },
            ),
    ;

    /// Take the backing of `[offset, offset + len)` of `region` away.
    fn decommit(&mut self, region: Region, offset: usize, len: usize) -> (res: Result<(), BackendError>)
        ensures
            old(self).answers().contains(Request::Decommit { region, offset, len, answer: res }),
            final(self).answers() == old(self).answers(),
            final(self).requests() == old(self).requests().push(
                Request::Decommit { region, offset, len, answer: res },
            ),
    ;

    /// Revoke what was derived from `region`, before its memory serves anyone else.
    fn revoke_descendants(&mut self, arena: ArenaId, region: Region) -> (res: Result<(), BackendError>)
        ensures
            old(self).answers().contains(Request::Revoke { arena, region, answer: res }),
            final(self).answers() == old(self).answers(),
            final(self).requests() == old(self).requests().push(
                Request::Revoke { arena, region, answer: res },
            ),
    ;

    /// Give a reservation back.
    fn release(&mut self, arena: ArenaId, region: Region) -> (res: Result<(), BackendError>)
        ensures
            old(self).answers().contains(Request::Release { arena, region, answer: res }),
            final(self).answers() == old(self).answers(),
            final(self).requests() == old(self).requests().push(
                Request::Release { arena, region, answer: res },
            ),
    ;

    /// Prefer the memory of one node for `region`.
    fn bind_node(&mut self, region: Region, os_node: u32) -> (res: Result<(), BackendError>)
        ensures
            old(self).answers().contains(Request::Bind { region, os_node, answer: res }),
            final(self).answers() == old(self).answers(),
            final(self).requests() == old(self).requests().push(
                Request::Bind { region, os_node, answer: res },
            ),
    ;

    /// The provider's name.
    fn name(&self) -> (res: &'static str)
        ensures
            self.may_be_named(res@),
    ;
}

/// A provider was asked for some requests, one after the other, and for nothing else.
pub open spec fn requested<P: TopoBackingProvider>(
    before: P,
    after: P,
    asked: Seq<Request>,
) -> bool {
    &&& forall|k: int|
        #![trigger asked[k]]
        0 <= k < asked.len() ==> before.answers().contains(asked[k])
    &&& after.answers() == before.answers()
    &&& after.requests() == before.requests() + asked
}

/// A cache of regions that the large path asks before it reserves one of its own.
///
/// What a cache answers is its own affair: each `may_` relation says which answers it may give
/// to a request, and what it then holds.
pub trait RegionCacheHook: Sized {
    /// What the cache keeps.
    open spec fn hook_wf(&self) -> bool {
        true
    }

    /// The outcomes of [`try_alloc`](Self::try_alloc).
    open spec fn may_serve(
        &self,
        after: &Self,
        bytes: usize,
        align: usize,
        hints: Hints,
        res: Option<Region>,
    ) -> bool {
        true
    }

    /// The outcomes of [`try_cache`](Self::try_cache).
    open spec fn may_take(&self, after: &Self, region: Region, res: bool) -> bool {
        true
    }

    /// The outcomes of [`try_cache_revoking`](Self::try_cache_revoking).
    open spec fn may_take_revoking(
        &self,
        after: &Self,
        region: Region,
        arena: ArenaId,
        res: bool,
    ) -> bool {
        true
    }

    /// The outcomes of [`try_trim`](Self::try_trim).
    open spec fn may_cut(
        &self,
        after: &Self,
        region: Region,
        new_len: usize,
        res: Option<usize>,
    ) -> bool {
        true
    }

    /// The bytes of the cache by state.
    fn state_bytes(&self) -> StateBytes
        requires
            self.hook_wf(),
    ;

    /// A region for the request, or `None` when the cache declines.
    fn try_alloc(&mut self, bytes: usize, align: usize, hints: Hints) -> (res: Option<Region>)
        requires
            old(self).hook_wf(),
        ensures
            final(self).hook_wf(),
            old(self).may_serve(final(self), bytes, align, hints, res),
    ;

    /// Take a freed region back; `false` when it is not the cache's.
    fn try_cache(&mut self, region: Region) -> (res: bool)
        requires
            old(self).hook_wf(),
        ensures
            final(self).hook_wf(),
            old(self).may_take(final(self), region, res),
    ;

    /// Take a freed region back after revoking what `arena` derived from it.
    fn try_cache_revoking(&mut self, region: Region, arena: ArenaId) -> (res: bool)
        requires
            old(self).hook_wf(),
        ensures
            final(self).hook_wf(),
            old(self).may_take_revoking(final(self), region, arena, res),
    ;

    /// Cut a region in place; the bytes given back, or `None` when it was not cut.
    fn try_trim(&mut self, region: Region, new_len: usize) -> (res: Option<usize>)
        requires
            old(self).hook_wf(),
        ensures
            final(self).hook_wf(),
            old(self).may_cut(final(self), region, new_len, res),
    ;
}

} // verus!
