//! Which core a thread runs on.
use vstd::prelude::*;
use crate::ids::CoreId;

verus! {

/// Says which core the calling thread runs on.
pub trait CoreProvider {
    /// The cores that may be answered.
    open spec fn may_run_on(&self, core: CoreId) -> bool {
        true
    }

    /// The core that the calling thread runs on now.
    fn current_core(&self) -> (res: CoreId)
        ensures
            self.may_run_on(res),
    ;
}

/// A thread that never leaves its core.
#[derive(Clone, Copy, PartialEq, Eq, Debug, Structural)]
pub struct FixedCore(pub CoreId);

impl CoreProvider for FixedCore {
    open spec fn may_run_on(&self, core: CoreId) -> bool {
        core == self.0
    }

    fn current_core(&self) -> (res: CoreId) {
        self.0
    }
}

} // verus!
