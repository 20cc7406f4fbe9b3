//! Per-arena policy.
use vstd::prelude::*;
use crate::release::LatencyClass;

verus! {

/// How fast free memory decays back to the operating system.
#[derive(Clone, Copy, PartialEq, Eq, Debug, Structural)]
pub struct DecayConfig {
    /// How long dirty memory is kept for reuse, in milliseconds.
    pub dirty_decay_ms: u64,
    /// How long muzzy memory is kept, in milliseconds.
    pub muzzy_decay_ms: u64,
    /// Whether memory is purged in the background at all.
    pub background_purge_enabled: bool,
    /// The most bytes released per second; 0 for no limit.
    pub release_rate_bytes_per_sec: u64,
}

impl DecayConfig {
    /// Ten seconds on each stage, background purging, no rate limit.
    pub open spec fn server_preset() -> DecayConfig {
        DecayConfig {
            dirty_decay_ms: 10_000,
            muzzy_decay_ms: 10_000,
            background_purge_enabled: true,
            release_rate_bytes_per_sec: 0,
        }
    }

    /// The preset for servers.
    pub fn server() -> (res: DecayConfig)
        ensures
            res == DecayConfig::server_preset(),
    {
        DecayConfig {
            dirty_decay_ms: 10_000,
            muzzy_decay_ms: 10_000,
            background_purge_enabled: true,
            release_rate_bytes_per_sec: 0,
        }
    }

    /// The preset for a small footprint: nothing is kept.
    pub fn low_rss() -> (res: DecayConfig)
        ensures
            res == (DecayConfig {
                dirty_decay_ms: 0,
                muzzy_decay_ms: 0,
                background_purge_enabled: true,
                release_rate_bytes_per_sec: 0,
            }),
    {
        DecayConfig {
            dirty_decay_ms: 0,
            muzzy_decay_ms: 0,
            background_purge_enabled: true,
            release_rate_bytes_per_sec: 0,
        }
    }
}

impl Default for DecayConfig {
    fn default() -> (res: DecayConfig)
        ensures
            res == DecayConfig::server_preset(),
    {
        DecayConfig::server()
    }
}

/// What an arena asks of the release controller.
#[derive(Clone, Copy, PartialEq, Eq, Debug, Structural)]
pub struct ArenaPolicy {
    /// Decay of its free memory.
    pub decay: DecayConfig,
    /// The slowest work it tolerates.
    pub latency: LatencyClass,
}

impl ArenaPolicy {
    /// The policy of an explicit arena: the server preset, any latency.
    pub fn explicit() -> (res: ArenaPolicy)
        ensures
            res.decay == DecayConfig::server_preset(),
            res.latency == LatencyClass::MayBlock,
    {
        ArenaPolicy { decay: DecayConfig::server(), latency: LatencyClass::MayBlock }
    }

    /// The policy with another latency ceiling.
    pub fn with_latency(self, latency: LatencyClass) -> (res: ArenaPolicy)
        ensures
            res == (ArenaPolicy { latency, ..self }),
    {
        ArenaPolicy { latency, ..self }
    }

    /// The policy with another decay.
    pub fn with_decay(self, decay: DecayConfig) -> (res: ArenaPolicy)
        ensures
            res == (ArenaPolicy { decay, ..self }),
    {
        ArenaPolicy { decay, ..self }
    }
}

} // verus!
