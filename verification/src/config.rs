//! Simulation and network parameters passed into [`crate::simulation::Simulation::new`].
//!
//! The fractional parameters of a run (regional node shares, outbound-degree distributions and
//! relay rates) are real numbers; they are turned into the integer counts that the library
//! reads before they reach it.
use vstd::prelude::*;

verus! {

/// Static parameters for one geographic region (bandwidth).
#[derive(Debug, Clone, Copy)]
pub struct RegionSpec {
    pub name: &'static str,
    pub download_bps: u64,
    pub upload_bps: u64,
}

/// Regional link parameters and the symmetric mean latency matrix (one axis per region).
pub struct RegionTopology {
    pub regions: Vec<RegionSpec>,
    /// Mean RTT-style latency between regions `i` and `j` in milliseconds.
    /// Must be square with side length equal to [`Self::regions`].len().
    pub latency_ms: Vec<Vec<u64>>,
}

/// Network model: geography and latency.
pub struct NetworkConfig {
    pub topology: RegionTopology,
}

/// Upload and download rate of each region, in region order.
pub open spec fn bandwidths(regions: Seq<RegionSpec>) -> Seq<(u64, u64)> {
    regions.map_values(|r: RegionSpec| (r.download_bps, r.upload_bps))
}

/// Names of the regions, in region order.
pub open spec fn region_names(regions: Seq<RegionSpec>) -> Seq<Seq<char>> {
    regions.map_values(|r: RegionSpec| r.name@)
}

/// Region names of every preset, in region order (region `i` has identifier `i`).
pub open spec fn preset_region_names() -> Seq<Seq<char>> {
    seq![
        "NORTH_AMERICA"@,
        "EUROPE"@,
        "SOUTH_AMERICA"@,
        "ASIA_PACIFIC"@,
        "JAPAN"@,
        "AUSTRALIA"@,
    ]
}

/// The latency matrix as rows of plain values.
pub open spec fn latency_rows(m: Seq<Vec<u64>>) -> Seq<Seq<u64>> {
    m.map_values(|row: Vec<u64>| row@)
}

impl NetworkConfig {
    /// At least one region, and a square latency matrix with one row and column per region.
    pub open spec fn wf(&self) -> bool {
        let n = self.topology.regions@.len();
        &&& n >= 1
        &&& self.topology.latency_ms@.len() == n
        &&& forall|i: int| #![trigger self.topology.latency_ms@[i]]
            0 <= i < n ==> self.topology.latency_ms@[i]@.len() == n
    }

    /// Number of regions.
    pub open spec fn num_regions(&self) -> nat {
        self.topology.regions@.len()
    }
}

/// Download and upload rate (bps) of the 2019 regions.
pub open spec fn bitcoin_2019_bandwidths() -> Seq<(u64, u64)> {
    seq![
        (52_000_000, 19_200_000),
        (40_000_000, 20_700_000),
        (18_000_000, 5_800_000),
        (22_800_000, 15_700_000),
        (22_800_000, 10_200_000),
        (29_900_000, 11_300_000),
    ]
}

/// Download and upload rate (bps) of the 2015 regions.
pub open spec fn bitcoin_2015_bandwidths() -> Seq<(u64, u64)> {
    seq![
        (25_000_000, 4_700_000),
        (24_000_000, 8_100_000),
        (6_500_000, 1_800_000),
        (10_000_000, 5_300_000),
        (17_500_000, 3_400_000),
        (14_000_000, 5_200_000),
    ]
}

/// Mean latency matrix (ms) measured in 2019.
pub open spec fn bitcoin_2019_latency() -> Seq<Seq<u64>> {
    seq![
        seq![32, 124, 184, 198, 151, 189],
        seq![124, 11, 227, 237, 252, 294],
        seq![184, 227, 88, 325, 301, 322],
        seq![198, 237, 325, 85, 58, 198],
        seq![151, 252, 301, 58, 12, 126],
        seq![189, 294, 322, 198, 126, 16],
    ]
}

/// Mean latency matrix (ms) measured in 2015.
pub open spec fn bitcoin_2015_latency() -> Seq<Seq<u64>> {
    seq![
        seq![36, 119, 255, 310, 154, 208],
        seq![119, 12, 221, 242, 266, 350],
        seq![255, 221, 137, 347, 256, 269],
        seq![310, 242, 347, 99, 172, 278],
        seq![154, 266, 256, 172, 9, 163],
        seq![208, 350, 269, 278, 163, 22],
    ]
}

fn region(name: &'static str, download_bps: u64, upload_bps: u64) -> (r: RegionSpec)
    ensures
        r.name == name,
        r.download_bps == download_bps,
        r.upload_bps == upload_bps,
{
    RegionSpec { name, download_bps, upload_bps }
}

fn regions_2019() -> (v: Vec<RegionSpec>)
    ensures
        bandwidths(v@) == bitcoin_2019_bandwidths(),
        region_names(v@) == preset_region_names(),
{
    let v = vec![
        region("NORTH_AMERICA", 52_000_000, 19_200_000),
        region("EUROPE", 40_000_000, 20_700_000),
        region("SOUTH_AMERICA", 18_000_000, 5_800_000),
        region("ASIA_PACIFIC", 22_800_000, 15_700_000),
        region("JAPAN", 22_800_000, 10_200_000),
        region("AUSTRALIA", 29_900_000, 11_300_000),
    ];
    assert(bandwidths(v@) =~= bitcoin_2019_bandwidths());
    assert(region_names(v@) =~= preset_region_names());
    v
}

fn regions_2015() -> (v: Vec<RegionSpec>)
    ensures
        bandwidths(v@) == bitcoin_2015_bandwidths(),
        region_names(v@) == preset_region_names(),
{
    let v = vec![
        region("NORTH_AMERICA", 25_000_000, 4_700_000),
        region("EUROPE", 24_000_000, 8_100_000),
        region("SOUTH_AMERICA", 6_500_000, 1_800_000),
        region("ASIA_PACIFIC", 10_000_000, 5_300_000),
        region("JAPAN", 17_500_000, 3_400_000),
        region("AUSTRALIA", 14_000_000, 5_200_000),
    ];
    assert(bandwidths(v@) =~= bitcoin_2015_bandwidths());
    assert(region_names(v@) =~= preset_region_names());
    v
}

fn latency_2019() -> (m: Vec<Vec<u64>>)
    ensures
        latency_rows(m@) == bitcoin_2019_latency(),
{
    let m = vec![
        vec![32, 124, 184, 198, 151, 189],
        vec![124, 11, 227, 237, 252, 294],
        vec![184, 227, 88, 325, 301, 322],
        vec![198, 237, 325, 85, 58, 198],
        vec![151, 252, 301, 58, 12, 126],
        vec![189, 294, 322, 198, 126, 16],
    ];
    assert(latency_rows(m@) =~= bitcoin_2019_latency());
    m
}

fn latency_2015() -> (m: Vec<Vec<u64>>)
    ensures
        latency_rows(m@) == bitcoin_2015_latency(),
{
    let m = vec![
        vec![36, 119, 255, 310, 154, 208],
        vec![119, 12, 221, 242, 266, 350],
        vec![255, 221, 137, 347, 256, 269],
        vec![310, 242, 347, 99, 172, 278],
        vec![154, 266, 256, 172, 9, 163],
        vec![208, 350, 269, 278, 163, 22],
    ];
    assert(latency_rows(m@) =~= bitcoin_2015_latency());
    m
}

/// Named geography presets.
#[derive(Debug, Clone, Copy, PartialEq, Eq, Structural)]
pub enum NetworkPreset {
    /// 2019 mean latency, bandwidth and region mix (the default).
    Bitcoin2019,
    /// 2015 latency, bandwidth and region mix.
    Bitcoin2015,
    Litecoin,
    Dogecoin,
}

impl Default for NetworkPreset {
    fn default() -> (p: Self)
        ensures
            p == NetworkPreset::Bitcoin2019,
    {
        NetworkPreset::Bitcoin2019
    }
}

/// Bandwidth and latency tables a preset stands for.
pub open spec fn preset_tables(p: NetworkPreset) -> (Seq<(u64, u64)>, Seq<Seq<u64>>) {
    match p {
        NetworkPreset::Bitcoin2015 => (bitcoin_2015_bandwidths(), bitcoin_2015_latency()),
        // Litecoin and Dogecoin share the 2019 regional bandwidth and latency tables.
        _ => (bitcoin_2019_bandwidths(), bitcoin_2019_latency()),
    }
}

impl NetworkPreset {
    pub fn to_network_config(self) -> (c: NetworkConfig)
        ensures
            c.wf(),
            region_names(c.topology.regions@) == preset_region_names(),
            bandwidths(c.topology.regions@) == preset_tables(self).0,
            latency_rows(c.topology.latency_ms@) == preset_tables(self).1,
    {
        match self {
            NetworkPreset::Bitcoin2019 => NetworkConfig::bitcoin_2019(),
            NetworkPreset::Bitcoin2015 => NetworkConfig::bitcoin_2015(),
            NetworkPreset::Litecoin => NetworkConfig::litecoin(),
            NetworkPreset::Dogecoin => NetworkConfig::dogecoin(),
        }
    }
}

impl Default for NetworkConfig {
    fn default() -> (c: Self)
        ensures
            c.wf(),
            region_names(c.topology.regions@) == preset_region_names(),
            bandwidths(c.topology.regions@) == bitcoin_2019_bandwidths(),
            latency_rows(c.topology.latency_ms@) == bitcoin_2019_latency(),
    {
        Self::bitcoin_2019()
    }
}

proof fn lemma_tables_wf(c: &NetworkConfig, bw: Seq<(u64, u64)>, lat: Seq<Seq<u64>>)
    requires
        bandwidths(c.topology.regions@) == bw,
        latency_rows(c.topology.latency_ms@) == lat,
        bw.len() == 6,
        lat.len() == 6,
        forall|i: int| 0 <= i < 6 ==> #[trigger] lat[i].len() == 6,
    ensures
        c.wf(),
{
    assert forall|i: int| 0 <= i < c.topology.regions@.len() implies
        #[trigger] c.topology.latency_ms@[i]@.len() == c.topology.regions@.len() by {
        assert(latency_rows(c.topology.latency_ms@)[i] == c.topology.latency_ms@[i]@);
    }
}

impl NetworkConfig {
    fn from_tables(regions: Vec<RegionSpec>, latency_ms: Vec<Vec<u64>>) -> (c: Self)
        ensures
            c.topology.regions == regions,
            c.topology.latency_ms == latency_ms,
    {
        NetworkConfig { topology: RegionTopology { regions, latency_ms } }
    }

    pub fn bitcoin_2019() -> (c: Self)
        ensures
            c.wf(),
            region_names(c.topology.regions@) == preset_region_names(),
            bandwidths(c.topology.regions@) == bitcoin_2019_bandwidths(),
            latency_rows(c.topology.latency_ms@) == bitcoin_2019_latency(),
    {
        let c = Self::from_tables(regions_2019(), latency_2019());
        proof {
            lemma_tables_wf(&c, bitcoin_2019_bandwidths(), bitcoin_2019_latency());
        }
        c
    }

    pub fn bitcoin_2015() -> (c: Self)
        ensures
            c.wf(),
            region_names(c.topology.regions@) == preset_region_names(),
            bandwidths(c.topology.regions@) == bitcoin_2015_bandwidths(),
            latency_rows(c.topology.latency_ms@) == bitcoin_2015_latency(),
    {
        let c = Self::from_tables(regions_2015(), latency_2015());
        proof {
            lemma_tables_wf(&c, bitcoin_2015_bandwidths(), bitcoin_2015_latency());
        }
        c
    }

    /// Litecoin regions use the 2019 bandwidth and latency tables.
    pub fn litecoin() -> (c: Self)
        ensures
            c.wf(),
            region_names(c.topology.regions@) == preset_region_names(),
            bandwidths(c.topology.regions@) == bitcoin_2019_bandwidths(),
            latency_rows(c.topology.latency_ms@) == bitcoin_2019_latency(),
    {
        Self::bitcoin_2019()
    }

    /// Dogecoin regions use the 2019 bandwidth and latency tables.
    pub fn dogecoin() -> (c: Self)
        ensures
            c.wf(),
            region_names(c.topology.regions@) == preset_region_names(),
            bandwidths(c.topology.regions@) == bitcoin_2019_bandwidths(),
            latency_rows(c.topology.latency_ms@) == bitcoin_2019_latency(),
    {
        Self::bitcoin_2019()
    }
}

/// Integer parameters of one run.
#[derive(Debug, Clone, Copy, PartialEq, Eq, Structural)]
pub struct SimulationConfig {
    pub num_nodes: u32,
    /// Target mean block interval; work target scales as total mining power times this value (ms).
    pub target_block_interval_ms: u64,
    pub average_mining_power: u64,
    pub stdev_mining_power: u64,
    pub end_block_height: u32,
    pub block_size_bytes: u64,
    pub compact_block_size_bytes: u64,
    pub rng_seed: u64,
    /// Fixed overhead added to each small message (ms).
    pub message_overhead_ms: u64,
    /// Per-hop processing time when sending a block (ms).
    pub processing_time_ms: u64,
}

impl Default for SimulationConfig {
    fn default() -> (c: Self)
        ensures
            c == (SimulationConfig {
                num_nodes: 300,
                target_block_interval_ms: 600_000,
                average_mining_power: 400_000,
                stdev_mining_power: 100_000,
                end_block_height: 10,
                block_size_bytes: 535_000,
                compact_block_size_bytes: 18_000,
                rng_seed: 10,
                message_overhead_ms: 10,
                processing_time_ms: 2,
            }),
    {
        Self {
            num_nodes: 300,
            target_block_interval_ms: 1000 * 60 * 10,
            average_mining_power: 400_000,
            stdev_mining_power: 100_000,
            end_block_height: 10,
            block_size_bytes: 535_000,
            compact_block_size_bytes: 18_000,
            rng_seed: 10,
            message_overhead_ms: 10,
            processing_time_ms: 2,
        }
    }
}

impl SimulationConfig {
    /// Small network for fast unit tests.
    pub fn tiny() -> (c: Self)
        ensures
            c == (SimulationConfig {
                num_nodes: 8,
                target_block_interval_ms: 50_000,
                average_mining_power: 10_000,
                stdev_mining_power: 1000,
                end_block_height: 4,
                block_size_bytes: 50_000,
                compact_block_size_bytes: 2000,
                rng_seed: 42,
                message_overhead_ms: 10,
                processing_time_ms: 2,
            }),
    {
        Self {
            num_nodes: 8,
            target_block_interval_ms: 50_000,
            average_mining_power: 10_000,
            stdev_mining_power: 1000,
            end_block_height: 4,
            block_size_bytes: 50_000,
            compact_block_size_bytes: 2000,
            rng_seed: 42,
            message_overhead_ms: 10,
            processing_time_ms: 2,
        }
    }
}

} // verus!
