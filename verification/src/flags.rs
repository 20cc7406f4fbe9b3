//! Advisory request hints.
use vstd::prelude::*;
use crate::ids::NodeId;

verus! {

/// How long a request is expected to live.
#[derive(Clone, Copy, PartialEq, Eq, Debug, Structural)]
pub enum Lifetime {
    /// No signal.
    Unspecified,
    /// Short-lived.
    Short,
    /// Medium-lived.
    Medium,
    /// Long-lived.
    Long,
}

impl Lifetime {
    /// The place on the scale `Unspecified < Short < Medium < Long`.
    pub open spec fn rank(self) -> int {
        match self {
            Lifetime::Unspecified => 0,
            Lifetime::Short => 1,
            Lifetime::Medium => 2,
            Lifetime::Long => 3,
        }
    }

    /// The longer of two lifetimes.
    pub open spec fn longer(self, other: Lifetime) -> Lifetime {
        if self.rank() >= other.rank() {
            self
        } else {
            other
        }
    }

    /// The place on the scale `Unspecified < Short < Medium < Long`.
    pub fn to_u8(self) -> (res: u8)
        ensures
            res == self.rank(),
    {
        match self {
            Lifetime::Unspecified => 0,
            Lifetime::Short => 1,
            Lifetime::Medium => 2,
            Lifetime::Long => 3,
        }
    }

    /// The longer of two lifetimes: a hugepage lives as long as its longest-lived resident.
    pub fn join(self, other: Lifetime) -> (res: Lifetime)
        ensures
            res == self.longer(other),
    {
        if self.to_u8() >= other.to_u8() {
            self
        } else {
            other
        }
    }
}

impl Default for Lifetime {
    fn default() -> (res: Lifetime)
        ensures
            res == Lifetime::Unspecified,
    {
        Lifetime::Unspecified
    }
}

/// What a request wants of hugepages.
#[derive(Clone, Copy, PartialEq, Eq, Debug, Structural)]
pub enum HugepagePolicy {
    /// No preference.
    Default,
    /// Prefer hugepage backing.
    Prefer,
    /// Never serve from the hugepage backend.
    Avoid,
}

/// Where a request wants its memory.
#[derive(Clone, Copy, PartialEq, Eq, Debug, Structural)]
pub enum NumaPolicy {
    /// Wherever the operating system places a page on first touch.
    OsDefault,
    /// The arena's policy, which is first-touch too.
    ArenaPolicy,
    /// The node of the running core.
    Local,
    /// One given node.
    Bind(NodeId),
    /// Round-robin over the nodes.
    Interleave,
}

/// The advisory hints of one request.
#[derive(Clone, Copy, PartialEq, Eq, Debug, Structural)]
pub struct Hints {
    /// `0` is cold, 128 and above hot, the rest neutral.
    pub hotness: u8,
    /// Expected lifetime.
    pub lifetime: Lifetime,
    /// Hugepage preference.
    pub hugepage: HugepagePolicy,
    /// NUMA placement.
    pub numa: NumaPolicy,
}

impl Default for Hints {
    fn default() -> (res: Hints)
        ensures
            res == (Hints {
                hotness: 0,
                lifetime: Lifetime::Unspecified,
                hugepage: HugepagePolicy::Default,
                numa: NumaPolicy::OsDefault,
            }),
    {
        Hints {
            hotness: 0,
            lifetime: Lifetime::Unspecified,
            hugepage: HugepagePolicy::Default,
            numa: NumaPolicy::OsDefault,
        }
    }
}

} // verus!
