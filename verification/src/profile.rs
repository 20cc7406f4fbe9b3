//! The build profiles.
use vstd::prelude::*;

verus! {

/// The features that a build can have.
#[derive(Clone, Copy, PartialEq, Eq, Debug, Default, Structural)]
pub struct ProfileFeatures {
    /// Hardened.
    pub hardened: bool,
    /// Debug.
    pub debug: bool,
    /// Deterministic, for tests.
    pub deterministic_test: bool,
    /// A small resident set.
    pub low_rss: bool,
    /// Made for hugepages.
    pub hugepage_optimized: bool,
    /// With invariant checks.
    pub debug_checks: bool,
}

impl ProfileFeatures {
    /// The name of the profile: that of the most specific feature.
    pub open spec fn name(self) -> Seq<char> {
        if self.hardened {
            "hardened"@
        } else if self.debug {
            "debug"@
        } else if self.deterministic_test {
            "deterministic_test"@
        } else if self.low_rss {
            "low_rss"@
        } else if self.hugepage_optimized {
            "hugepage_optimized"@
        } else {
            "performance"@
        }
    }

    /// The name of the profile: that of the most specific feature.
    pub fn profile(self) -> (res: &'static str)
        ensures
            res@ == self.name(),
    {
        if self.hardened {
            "hardened"
        } else if self.debug {
            "debug"
        } else if self.deterministic_test {
            "deterministic_test"
        } else if self.low_rss {
            "low_rss"
        } else if self.hugepage_optimized {
            "hugepage_optimized"
        } else {
            "performance"
        }
    }

    /// Whether the build has invariant checks: it asks for them, or it is hardened or a debug
    /// build.
    pub fn checks(self) -> (res: bool)
        ensures
            res == (self.debug_checks || self.debug || self.hardened),
    {
        self.debug_checks || self.debug || self.hardened
    }

    /// A build with no feature.
    pub fn none() -> (res: ProfileFeatures)
        ensures
            res == (ProfileFeatures {
                hardened: false,
                debug: false,
                deterministic_test: false,
                low_rss: false,
                hugepage_optimized: false,
                debug_checks: false,
            }),
    {
        ProfileFeatures {
            hardened: false,
            debug: false,
            deterministic_test: false,
            low_rss: false,
            hugepage_optimized: false,
            debug_checks: false,
        }
    }
}

/// The profile of this build, which has no feature.
pub fn active_profile() -> (res: &'static str)
    ensures
        res@ == "performance"@,
{
    ProfileFeatures::none().profile()
}

/// Whether this build has invariant checks.
pub fn debug_checks_enabled() -> (res: bool)
    ensures
        !res,
{
    ProfileFeatures::none().checks()
}

} // verus!
