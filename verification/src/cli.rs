//! The command-line options of the simulator and the configuration they select.
use vstd::prelude::*;

use crate::node::GetaddrCacheAlgorithm;
use crate::{SimulationConfig, StartMode};

verus! {

#[derive(Clone, Copy, PartialEq, Eq, Debug, Structural)]
pub enum LogLevel {
    Info,
    Debug,
    Trace,
}

#[derive(Clone, Copy, PartialEq, Eq, Debug, Structural)]
pub enum CliStartMode {
    /// Pre-populate every node's addrman with all network addresses.
    Warm,
    /// Start with empty addrmans; 30-day burn-in applied by default.
    Cold,
    /// Start with only directly connected peers' addresses in each addrman.
    Peers,
    /// Start with a random sample of network addresses, timestamps 3–7 days old (DNS seed model).
    Dns,
}

#[derive(Clone, Copy, PartialEq, Eq, Debug, Structural)]
pub enum CacheAlgo {
    Current,
    FixedOffset,
    NetworkBased,
}

pub open spec fn algorithm_of(a: CacheAlgo) -> GetaddrCacheAlgorithm {
    match a {
        CacheAlgo::Current => GetaddrCacheAlgorithm::Current,
        CacheAlgo::FixedOffset => GetaddrCacheAlgorithm::FixedOffset,
        CacheAlgo::NetworkBased => GetaddrCacheAlgorithm::NetworkBased,
    }
}

pub open spec fn start_mode_of(s: CliStartMode) -> StartMode {
    match s {
        CliStartMode::Warm => StartMode::Warm,
        CliStartMode::Cold => StartMode::Cold,
        CliStartMode::Peers => StartMode::Peers,
        CliStartMode::Dns => StartMode::Dns,
    }
}

impl From<CacheAlgo> for GetaddrCacheAlgorithm {
    fn from(a: CacheAlgo) -> (r: Self) {
        match a {
            CacheAlgo::Current => GetaddrCacheAlgorithm::Current,
            CacheAlgo::FixedOffset => GetaddrCacheAlgorithm::FixedOffset,
            CacheAlgo::NetworkBased => GetaddrCacheAlgorithm::NetworkBased,
        }
    }
}

impl vstd::std_specs::convert::FromSpecImpl<CacheAlgo> for GetaddrCacheAlgorithm {
    open spec fn obeys_from_spec() -> bool {
        true
    }

    open spec fn from_spec(a: CacheAlgo) -> Self {
        algorithm_of(a)
    }
}

/// The simulator's options.
pub struct Cli {
    /// Onion-only nodes
    pub onion: usize,
    /// Clearnet-only nodes
    pub clearnet: usize,
    /// Dual-stack nodes (one address per network)
    pub dual_stack: usize,
    /// Percentage of clearnet addresses accepting inbound connections
    pub reachable_clearnet_pct: u8,
    /// Percentage of onion addresses accepting inbound connections
    pub reachable_onion_pct: u8,
    /// Outbound connections per node
    pub outbounds: usize,
    /// Days to simulate
    pub days: u64,
    /// Nodes joining per day
    pub joins_per_day: usize,
    /// Nodes leaving per day
    pub leaves_per_day: usize,
    /// Addrman initialisation
    pub start: CliStartMode,
    /// Days to skip before recording statistics (default: 30 for cold, 0 otherwise)
    pub burn_in: Option<u64>,
    /// Percentage of network addresses seeded into each addrman for the DNS start
    pub seed_sample_pct: u8,
    /// GETADDR cache timestamp algorithm
    pub cache_algo: CacheAlgo,
    /// CSV output file
    pub output_file: Option<String>,
    /// Log level
    pub log_level: LogLevel,
    /// RNG seed for reproducibility
    pub seed: Option<u64>,
    /// Launch interactive view instead of running the full simulation
    pub interactive: bool,
}

impl Cli {
    /// The configuration the options select. Without an explicit burn-in, a cold start
    /// skips 30 days and every other start none.
    pub fn into_config(self) -> (r: SimulationConfig)
        ensures
            r.onion == self.onion,
            r.clearnet == self.clearnet,
            r.dual_stack == self.dual_stack,
            r.reachable_clearnet_pct == self.reachable_clearnet_pct,
            r.reachable_onion_pct == self.reachable_onion_pct,
            r.outbounds == self.outbounds,
            r.days == self.days,
            r.joins_per_day == self.joins_per_day,
            r.leaves_per_day == self.leaves_per_day,
            r.start_mode == start_mode_of(self.start),
            r.dns_sample_pct == self.seed_sample_pct,
            r.burn_in_days == match self.burn_in {
                Some(b) => b,
                None => if self.start == CliStartMode::Cold {
                    30u64
                } else {
                    0u64
                },
            },
            r.cache_algo == algorithm_of(self.cache_algo),
    {
        let start_mode = match self.start {
            CliStartMode::Warm => StartMode::Warm,
            CliStartMode::Cold => StartMode::Cold,
            CliStartMode::Peers => StartMode::Peers,
            CliStartMode::Dns => StartMode::Dns,
        };
        let default_burn_in: u64 = match self.start {
            CliStartMode::Cold => 30,
            _ => 0,
        };
        let burn_in_days = match self.burn_in {
            Some(b) => b,
            None => default_burn_in,
        };
        SimulationConfig {
            onion: self.onion,
            clearnet: self.clearnet,
            dual_stack: self.dual_stack,
            reachable_clearnet_pct: self.reachable_clearnet_pct,
            reachable_onion_pct: self.reachable_onion_pct,
            outbounds: self.outbounds,
            days: self.days,
            joins_per_day: self.joins_per_day,
            leaves_per_day: self.leaves_per_day,
            start_mode,
            dns_sample_pct: self.seed_sample_pct,
            burn_in_days,
            cache_algo: GetaddrCacheAlgorithm::from(self.cache_algo),
        }
    }
}

} // verus!
