//! Extents of pages, and what the large path asks for them.
use vstd::prelude::*;
use crate::backend::{BackendError, Region, RegionCacheHook, StateBytes};
use crate::flags::Hints;
use crate::ids::ArenaId;

verus! {

/// The number of an extent.
#[derive(Clone, Copy, PartialEq, Eq, PartialOrd, Ord, Hash, Debug, Structural)]
pub struct ExtentId(pub u32);

/// An extent that was handed out: its number, and how often that number has been used again.
#[derive(Clone, Copy, PartialEq, Eq, Debug, Structural)]
pub struct ExtentRef {
    /// The number.
    pub id: ExtentId,
    /// The generation of the number.
    pub generation: u32,
}

/// Why an extent could not be had or freed.
#[derive(Clone, Copy, PartialEq, Eq, Debug, Structural)]
pub enum ExtentError {
    /// No room, or no metadata.
    Exhausted,
    /// A request that is not taken, or an extent that is not live.
    Invalid,
    /// The provider refused.
    Backend(BackendError),
}

/// The manager of the extents of a reservation.
///
/// What a manager answers is its own affair: each `may_` relation says which answers it may give
/// to a request, and what it then holds.
pub trait ExtentSource: Sized {
    /// What the manager keeps.
    open spec fn extents_wf(&self) -> bool {
        true
    }

    /// The outcomes of [`allocate`](Self::allocate).
    open spec fn may_allocate(
        &self,
        after: &Self,
        bytes: usize,
        align: usize,
        res: Result<(Region, ExtentRef), ExtentError>,
    ) -> bool {
        true
    }

    /// The outcomes of [`free`](Self::free).
    open spec fn may_free(&self, after: &Self, extent: ExtentRef, res: Result<(), ExtentError>) -> bool {
        true
    }

    /// The outcomes of [`free_revoking`](Self::free_revoking).
    open spec fn may_free_revoking(
        &self,
        after: &Self,
        extent: ExtentRef,
        arena: ArenaId,
        res: Result<(), ExtentError>,
    ) -> bool {
        true
    }

    /// The answers to [`check_invariants`](Self::check_invariants).
    open spec fn may_be_good(&self, res: bool) -> bool {
        true
    }

    /// The answers to [`state_bytes`](Self::state_bytes).
    open spec fn may_hold(&self, res: StateBytes) -> bool {
        true
    }

    /// The answers to [`backend_name`](Self::backend_name).
    open spec fn may_be_named(&self, res: Seq<char>) -> bool {
        true
    }

    /// A backed extent of at least `bytes` bytes at `align`.
    fn allocate(&mut self, bytes: usize, align: usize) -> (res: Result<
        (Region, ExtentRef),
        ExtentError,
    >)
        requires
            old(self).extents_wf(),
        ensures
            final(self).extents_wf(),
            old(self).may_allocate(final(self), bytes, align, res),
    ;

    /// Free an extent.
    fn free(&mut self, extent: ExtentRef) -> (res: Result<(), ExtentError>)
        requires
            old(self).extents_wf(),
        ensures
            final(self).extents_wf(),
            old(self).may_free(final(self), extent, res),
    ;

    /// Free an extent after revoking what `arena` derived from it; when that is refused, the
    /// extent stays allocated.
    fn free_revoking(&mut self, extent: ExtentRef, arena: ArenaId) -> (res: Result<
        (),
        ExtentError,
    >)
        requires
            old(self).extents_wf(),
        ensures
            final(self).extents_wf(),
            old(self).may_free_revoking(final(self), extent, arena, res),
    ;

    /// Whether the manager is as it should be.
    fn check_invariants(&self) -> (res: bool)
        requires
            self.extents_wf(),
        ensures
            self.may_be_good(res),
    ;

    /// The bytes of the reservation by state.
    fn state_bytes(&self) -> (res: StateBytes)
        requires
            self.extents_wf(),
        ensures
            self.may_hold(res),
    ;

    /// The provider's name.
    fn backend_name(&self) -> (res: &'static str)
        ensures
            self.may_be_named(res@),
    ;
}

/// A cache that holds nothing: it declines every request.
#[derive(Clone, Copy, PartialEq, Eq, Debug, Structural)]
pub struct NoRegionCache;

impl RegionCacheHook for NoRegionCache {
    open spec fn hook_wf(&self) -> bool {
        true
    }

    open spec fn may_serve(
        &self,
        after: &Self,
        bytes: usize,
        align: usize,
        hints: Hints,
        res: Option<Region>,
    ) -> bool {
        res is None
    }

    open spec fn may_take(&self, after: &Self, region: Region, res: bool) -> bool {
        !res
    }

    open spec fn may_take_revoking(
        &self,
        after: &Self,
        region: Region,
        arena: ArenaId,
        res: bool,
    ) -> bool {
        !res
    }

    open spec fn may_cut(
        &self,
        after: &Self,
        region: Region,
        new_len: usize,
        res: Option<usize>,
    ) -> bool {
        res is None
    }

    fn state_bytes(&self) -> (res: StateBytes)
        ensures
            res == (StateBytes { reserved: 0, active: 0, dirty: 0, muzzy: 0, released: 0 }),
    {
        StateBytes { reserved: 0, active: 0, dirty: 0, muzzy: 0, released: 0 }
    }

    fn try_alloc(&mut self, bytes: usize, align: usize, hints: Hints) -> (res: Option<Region>) {
        None
    }

    fn try_cache(&mut self, region: Region) -> (res: bool) {
        false
    }

    fn try_cache_revoking(&mut self, region: Region, arena: ArenaId) -> (res: bool) {
        false
    }

    fn try_trim(&mut self, region: Region, new_len: usize) -> (res: Option<usize>) {
        None
    }
}

/// What was had for a large allocation: from the cache, which is asked first, or else an extent.
pub open spec fn obtains<X: ExtentSource, H: RegionCacheHook>(
    extents: X,
    extents_after: X,
    hook: H,
    hook_after: H,
    bytes: usize,
    align: usize,
    res: Result<(Region, Option<ExtentRef>), ExtentError>,
) -> bool {
    let hints = Hints {
        hotness: 0,
        lifetime: crate::flags::Lifetime::Unspecified,
        hugepage: crate::flags::HugepagePolicy::Default,
        numa: crate::flags::NumaPolicy::OsDefault,
    };
    match res {
        Ok((region, None)) => {
            &&& hook.may_serve(&hook_after, bytes, align, hints, Some(region))
            &&& extents_after == extents
        },
        Ok((region, Some(extent))) => {
            &&& hook.may_serve(&hook_after, bytes, align, hints, None)
            &&& extents.may_allocate(&extents_after, bytes, align, Ok((region, extent)))
        },
        Err(e) => {
            &&& hook.may_serve(&hook_after, bytes, align, hints, None)
            &&& extents.may_allocate(&extents_after, bytes, align, Err(e))
        },
    }
}

/// A region for a large allocation, from the cache, which is asked first, or else an extent.
pub fn alloc_large<X: ExtentSource, H: RegionCacheHook>(
    extents: &mut X,
    bytes: usize,
    align: usize,
    hook: &mut H,
) -> (res: Result<(Region, Option<ExtentRef>), ExtentError>)
    requires
        old(extents).extents_wf(),
        old(hook).hook_wf(),
    ensures
        final(extents).extents_wf(),
        final(hook).hook_wf(),
        obtains(*old(extents), *final(extents), *old(hook), *final(hook), bytes, align, res),
{
    match hook.try_alloc(bytes, align, Hints::default()) {
        Some(region) => Ok((region, None)),
        None => match extents.allocate(bytes, align) {
            Ok((region, extent)) => Ok((region, Some(extent))),
            Err(e) => Err(e),
        },
    }
}

} // verus!
