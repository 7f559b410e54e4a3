//! Settings read from a configuration file: a [`NetworkPreset`] and overrides of the integer
//! [`SimulationConfig`] fields (the fractional rates are merged by the caller).
use crate::config::{
    bandwidths, latency_rows, preset_region_names, preset_tables, region_names, NetworkConfig, NetworkPreset,
    SimulationConfig,
};
use vstd::prelude::*;

verus! {

/// `Some` replaces the base value, `None` keeps it.
pub open spec fn pick<T>(o: Option<T>, base: T) -> T {
    match o {
        Some(v) => v,
        None => base,
    }
}

/// All fields optional; omitted keys keep the passed-in [`SimulationConfig`] values.
#[derive(Debug, Clone, Copy, PartialEq, Eq, Structural)]
pub struct SimulationPartial {
    pub num_nodes: Option<u32>,
    pub target_block_interval_ms: Option<u64>,
    pub average_mining_power: Option<u64>,
    pub stdev_mining_power: Option<u64>,
    pub end_block_height: Option<u32>,
    pub block_size_bytes: Option<u64>,
    pub compact_block_size_bytes: Option<u64>,
    pub rng_seed: Option<u64>,
    pub message_overhead_ms: Option<u64>,
    pub processing_time_ms: Option<u64>,
}

impl Default for SimulationPartial {
    fn default() -> (p: Self)
        ensures
            p == (SimulationPartial {
                num_nodes: None,
                target_block_interval_ms: None,
                average_mining_power: None,
                stdev_mining_power: None,
                end_block_height: None,
                block_size_bytes: None,
                compact_block_size_bytes: None,
                rng_seed: None,
                message_overhead_ms: None,
                processing_time_ms: None,
            }),
    {
        SimulationPartial {
            num_nodes: None,
            target_block_interval_ms: None,
            average_mining_power: None,
            stdev_mining_power: None,
            end_block_height: None,
            block_size_bytes: None,
            compact_block_size_bytes: None,
            rng_seed: None,
            message_overhead_ms: None,
            processing_time_ms: None,
        }
    }
}

impl SimulationPartial {
    /// `base` with every field that `self` sets replaced.
    pub open spec fn merged(self, base: SimulationConfig) -> SimulationConfig {
        SimulationConfig {
            num_nodes: pick(self.num_nodes, base.num_nodes),
            target_block_interval_ms: pick(self.target_block_interval_ms, base.target_block_interval_ms),
            average_mining_power: pick(self.average_mining_power, base.average_mining_power),
            stdev_mining_power: pick(self.stdev_mining_power, base.stdev_mining_power),
            end_block_height: pick(self.end_block_height, base.end_block_height),
            block_size_bytes: pick(self.block_size_bytes, base.block_size_bytes),
            compact_block_size_bytes: pick(self.compact_block_size_bytes, base.compact_block_size_bytes),
            rng_seed: pick(self.rng_seed, base.rng_seed),
            message_overhead_ms: pick(self.message_overhead_ms, base.message_overhead_ms),
            processing_time_ms: pick(self.processing_time_ms, base.processing_time_ms),
        }
    }

    /// Applies the overrides to `base`.
    pub fn merge(self, base: SimulationConfig) -> (c: SimulationConfig)
        ensures
            c == self.merged(base),
    {
        let mut base = base;
        if let Some(v) = self.num_nodes {
            base.num_nodes = v;
        }
        if let Some(v) = self.target_block_interval_ms {
            base.target_block_interval_ms = v;
        }
        if let Some(v) = self.average_mining_power {
            base.average_mining_power = v;
        }
        if let Some(v) = self.stdev_mining_power {
            base.stdev_mining_power = v;
        }
        if let Some(v) = self.end_block_height {
            base.end_block_height = v;
        }
        if let Some(v) = self.block_size_bytes {
            base.block_size_bytes = v;
        }
        if let Some(v) = self.compact_block_size_bytes {
            base.compact_block_size_bytes = v;
        }
        if let Some(v) = self.rng_seed {
            base.rng_seed = v;
        }
        if let Some(v) = self.message_overhead_ms {
            base.message_overhead_ms = v;
        }
        if let Some(v) = self.processing_time_ms {
            base.processing_time_ms = v;
        }
        base
    }
}

/// Merging overrides onto a base: every field that the overrides set to `Some(v)` holds `v`
/// afterwards, and every field they leave `None` keeps the base value.
pub proof fn law_merge_overrides(p: SimulationPartial, base: SimulationConfig, c: SimulationConfig)
    requires
        c == p.merged(base),
    ensures
        p.num_nodes is Some ==> c.num_nodes == p.num_nodes->0,
        p.num_nodes is None ==> c.num_nodes == base.num_nodes,
        p.target_block_interval_ms is Some ==> c.target_block_interval_ms == p.target_block_interval_ms->0,
        p.target_block_interval_ms is None ==> c.target_block_interval_ms == base.target_block_interval_ms,
        p.average_mining_power is Some ==> c.average_mining_power == p.average_mining_power->0,
        p.average_mining_power is None ==> c.average_mining_power == base.average_mining_power,
        p.stdev_mining_power is Some ==> c.stdev_mining_power == p.stdev_mining_power->0,
        p.stdev_mining_power is None ==> c.stdev_mining_power == base.stdev_mining_power,
        p.end_block_height is Some ==> c.end_block_height == p.end_block_height->0,
        p.end_block_height is None ==> c.end_block_height == base.end_block_height,
        p.block_size_bytes is Some ==> c.block_size_bytes == p.block_size_bytes->0,
        p.block_size_bytes is None ==> c.block_size_bytes == base.block_size_bytes,
        p.compact_block_size_bytes is Some ==> c.compact_block_size_bytes == p.compact_block_size_bytes->0,
        p.compact_block_size_bytes is None ==> c.compact_block_size_bytes == base.compact_block_size_bytes,
        p.rng_seed is Some ==> c.rng_seed == p.rng_seed->0,
        p.rng_seed is None ==> c.rng_seed == base.rng_seed,
        p.message_overhead_ms is Some ==> c.message_overhead_ms == p.message_overhead_ms->0,
        p.message_overhead_ms is None ==> c.message_overhead_ms == base.message_overhead_ms,
        p.processing_time_ms is Some ==> c.processing_time_ms == p.processing_time_ms->0,
        p.processing_time_ms is None ==> c.processing_time_ms == base.processing_time_ms,
{
}

/// Parsed configuration file: the network preset and the simulation overrides.
#[derive(Debug, Clone, Copy, PartialEq, Eq, Structural)]
pub struct FileConfig {
    pub network: NetworkPreset,
    pub simulation: SimulationPartial,
}

impl FileConfig {
    /// The merged simulation parameters and the preset's network.
    pub fn build(self, base_sim: SimulationConfig) -> (r: (SimulationConfig, NetworkConfig))
        ensures
            r.0 == self.simulation.merged(base_sim),
            r.1.wf(),
            region_names(r.1.topology.regions@) == preset_region_names(),
            bandwidths(r.1.topology.regions@) == preset_tables(self.network).0,
            latency_rows(r.1.topology.latency_ms@) == preset_tables(self.network).1,
    {
        let net = self.network.to_network_config();
        let sim = self.simulation.merge(base_sim);
        (sim, net)
    }
}

/// The partial configuration that overrides nothing.
pub open spec fn no_overrides() -> SimulationPartial {
    SimulationPartial {
        num_nodes: None,
        target_block_interval_ms: None,
        average_mining_power: None,
        stdev_mining_power: None,
        end_block_height: None,
        block_size_bytes: None,
        compact_block_size_bytes: None,
        rng_seed: None,
        message_overhead_ms: None,
        processing_time_ms: None,
    }
}

/// Merging no overrides changes nothing.
pub proof fn lemma_merge_empty(base: SimulationConfig)
    ensures
        no_overrides().merged(base) == base,
{
}

/// Merging the same overrides twice is the same as merging them once.
pub proof fn lemma_merge_idempotent(p: SimulationPartial, base: SimulationConfig)
    ensures
        p.merged(p.merged(base)) == p.merged(base),
{
}

} // verus!
