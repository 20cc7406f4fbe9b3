//! The core of a topology-aware memory allocator, as a verified library.
#![allow(unused_imports)]

pub mod arena;
pub mod backend;
pub mod backend_laws;
pub mod bitmap;
pub mod bloom;
pub mod bootstrap;
pub mod extent;
pub mod filler;
pub mod filler_laws;
pub mod filler_model;
pub mod flags;
pub mod huge_backend;
pub mod huge_bin;
pub mod huge_laws;
pub mod ids;
pub mod init;
pub mod large;
pub mod large_laws;
pub mod lock;
pub mod node_router;
pub mod overflow;
pub mod packing_laws;
pub mod pagemap;
pub mod pinned;
pub mod placement;
pub mod placement_laws;
pub mod placement_table;
pub mod profile;
pub mod ptr_class;
pub mod region_cache;
pub mod release;
pub mod release_laws;
pub mod router_laws;
pub mod sampled_set;
pub mod sampling;
pub mod span;
pub mod topology;

pub use arena::{ArenaPolicy, DecayConfig};
pub use backend::{BackendError, Region, RegionCacheHook, StateBytes, TopoBackingProvider};
pub use bitmap::{HUGEPAGE_SIZE, PAGES_PER_HUGEPAGE};
pub use bloom::{SampleBloom, BLOOM_WORDS};
pub use bootstrap::BumpArena;
pub use extent::{ExtentError, ExtentId, ExtentRef, NoRegionCache};
pub use filler::{FreeReport, HugePageFiller, HugeRun, Placement, Subrelease};
pub use flags::{Hints, HugepagePolicy, Lifetime, NumaPolicy};
pub use huge_backend::{HugeConfig, HugeError, HugePageBackend};
pub use huge_bin::{classify_bin, Hotness, HugeBin, HugeStats, PlaceHints};
pub use ids::{ArenaId, Generation, Label, LargeId, NodeId, SizeClassId, SpanId};
pub use init::{CrashSummary, InitPhase, PhaseTracker};
pub use large::{LargeAllocator, LargeBacking, LargeConfig};
pub use lock::{held_lock_count, reset_lock_checker, LockRank, RankedGuard, RankedLock};
pub use node_router::{NodeRouter, NodeRouterStats, RouterControl};
pub use pagemap::{PageEntry, PageMap, PagemapError};
pub use pinned::{CoreProvider, FixedCore};
pub use placement::{
    AllocationSiteProfile, LifetimeClass, LifetimeHistogram, SizeClassDist, StackId,
    CONFIDENT_SAMPLES, DEFAULT_MIN_CONFIDENCE_BP, SIZE_DIST_K,
};
pub use placement_table::{PlacementStats, SiteProfileTable};
pub use profile::{active_profile, debug_checks_enabled};
pub use ptr_class::{
    classify_ptr, validate_free, AnyMetadataRegion, FreeTarget, InvalidFree, MetadataRegion,
    NoMetadata, PointerClass,
};
pub use release::{
    demand_reserve, LatencyClass, PressureMode, PressureThresholds, ReleaseController,
    ReleaseInputs, ReleasePlan, ReleaseStats,
};
pub use sampled_set::{SampledObjects, SampledRecord};
pub use sampling::{Rng, SampleConfig, Sampler, StackBuf, MAX_STACK_FRAMES};
pub use span::{ClassifyGeometry, LargeDescriptor, LargeState, SpanDescriptor, SpanState};
pub use topology::{
    NodePressure, RebalanceMove, Topology, TopologyBuilder, DISTANCE_LOCAL, DISTANCE_REMOTE,
    MAX_NODES,
};

use vstd::prelude::*;

verus! {

/// The version of the library.
pub const VERSION: &'static str = "0.1.0";

} // verus!
