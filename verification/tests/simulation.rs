use num_bigint::BigUint;
use rand::{Rng, SeedableRng};
use rand_chacha::ChaCha8Rng;
use rand_distr::{Distribution, Normal};
use simblock::output::LogEvent;
use simblock::simulation::init::{sample_node_inits, DegreePlan};
use simblock::simulation::{report_due, PayloadSize, SampleRequest};
use simblock::{NetworkConfig, NetworkPreset, RunStats, Simulation, SimulationConfig};
use std::collections::{HashSet, VecDeque};

// Run harness: the floating-point draws of a run, made in the order the library requests them.

/// Fractional shape of a preset: node share per region (in region order) and how outbound caps
/// are distributed.
struct PresetShape {
    node_fractions: &'static [f64],
    /// Cumulative buckets `(max_outbound, cumulative fraction)`; used when there is no CDF.
    degree_buckets: &'static [(usize, f64)],
    /// Cumulative outdegree distribution: index `k` maps to cap `k + 1`.
    outdegree_cdf: Option<&'static [f64]>,
}

const BITCOIN_2019_FRACTIONS: &[f64] = &[0.3316, 0.4998, 0.0090, 0.1177, 0.0224, 0.0195];
const BITCOIN_2015_FRACTIONS: &[f64] = &[0.3869, 0.5159, 0.0113, 0.0574, 0.0119, 0.0166];
const LITECOIN_FRACTIONS: &[f64] = &[0.3661, 0.4791, 0.0149, 0.1022, 0.0238, 0.0139];
const DOGECOIN_FRACTIONS: &[f64] = &[0.3924, 0.4879, 0.0212, 0.0697, 0.0106, 0.0182];

/// Cumulative outbound-degree buckets of the default 2019 preset.
const BITCOIN_2019_DEGREE_BUCKETS: &[(usize, f64)] = &[
    (1, 0.025),
    (2, 0.050),
    (3, 0.075),
    (4, 0.10),
    (5, 0.20),
    (6, 0.30),
    (7, 0.40),
    (8, 0.50),
    (9, 0.60),
    (10, 0.70),
    (11, 0.80),
    (12, 0.85),
    (13, 0.90),
    (14, 0.95),
    (15, 0.97),
    (16, 0.97),
    (17, 0.98),
    (18, 0.99),
    (19, 0.995),
    (20, 1.0),
];

const DEGREE_CDF_BITCOIN_2015: &[f64] = &[
    0.025, 0.050, 0.075, 0.10, 0.20, 0.30, 0.40, 0.50, 0.60, 0.70, 0.80, 0.85, 0.90, 0.95, 0.97,
    0.97, 0.98, 0.99, 0.995, 1.0,
];

const DEGREE_CDF_LITECOIN: &[f64] = &[
    0.01, 0.02, 0.04, 0.07, 0.09, 0.14, 0.20, 0.28, 0.39, 0.5, 0.6, 0.69, 0.76, 0.81, 0.85, 0.87,
    0.89, 0.92, 0.93, 1.0,
];

const DEGREE_CDF_DOGECOIN: &[f64] = &[
    0.00, 0.00, 0.00, 0.00, 0.00, 0.00, 0.00, 1.0, 1.00, 1.00, 1.00, 1.00, 1.00, 1.00, 1.00, 1.00,
    1.00, 1.00, 1.00, 1.0,
];

fn shape(preset: NetworkPreset) -> PresetShape {
    match preset {
        NetworkPreset::Bitcoin2019 => PresetShape {
            node_fractions: BITCOIN_2019_FRACTIONS,
            degree_buckets: BITCOIN_2019_DEGREE_BUCKETS,
            outdegree_cdf: None,
        },
        NetworkPreset::Bitcoin2015 => PresetShape {
            node_fractions: BITCOIN_2015_FRACTIONS,
            degree_buckets: &[],
            outdegree_cdf: Some(DEGREE_CDF_BITCOIN_2015),
        },
        NetworkPreset::Litecoin => PresetShape {
            node_fractions: LITECOIN_FRACTIONS,
            degree_buckets: &[],
            outdegree_cdf: Some(DEGREE_CDF_LITECOIN),
        },
        NetworkPreset::Dogecoin => PresetShape {
            node_fractions: DOGECOIN_FRACTIONS,
            degree_buckets: &[],
            outdegree_cdf: Some(DEGREE_CDF_DOGECOIN),
        },
    }
}

/// Relay rates of a run.
#[derive(Debug, Clone, Copy, PartialEq)]
struct Rates {
    cbr_usage_rate: f64,
    churn_node_rate: f64,
    cbr_failure_rate_control: f64,
    cbr_failure_rate_churn: f64,
}

impl Default for Rates {
    fn default() -> Self {
        Rates {
            cbr_usage_rate: 0.964,
            churn_node_rate: 0.976,
            cbr_failure_rate_control: 0.13,
            cbr_failure_rate_churn: 0.27,
        }
    }
}

impl Rates {
    /// Rates of the small test network.
    fn tiny() -> Self {
        Rates {
            cbr_usage_rate: 0.5,
            churn_node_rate: 0.5,
            cbr_failure_rate_control: 0.1,
            cbr_failure_rate_churn: 0.2,
        }
    }
}

/// Cumulative target count of each region: `floor(n * accumulated share)`.
fn region_targets(n: usize, fractions: &[f64]) -> Vec<usize> {
    let mut ac = 0.0f64;
    fractions
        .iter()
        .map(|f| {
            ac += f;
            ((n as f64) * ac).floor() as usize
        })
        .collect()
}

/// Outbound-cap plan: cumulative bucket targets `floor(n * cumulative)`, or the CDF thresholds
/// `floor(n * cdf[k])` (none where the threshold is negative or not a number).
fn degree_plan(n: usize, shape: &PresetShape) -> DegreePlan {
    match shape.outdegree_cdf {
        Some(cdf) => DegreePlan::Cdf(
            cdf.iter()
                .map(|c| {
                    let thresh = n as f64 * c;
                    if thresh >= 0.0 {
                        Some(thresh.floor() as usize)
                    } else {
                        None
                    }
                })
                .collect(),
        ),
        None => DegreePlan::Buckets(
            shape
                .degree_buckets
                .iter()
                .map(|&(cap, cumulative)| (cap, ((n as f64) * cumulative).floor() as usize))
                .collect(),
        ),
    }
}

/// Number of the `n` nodes that get a flag set at `rate`: those `i < n` with `i < n * rate`.
fn rate_count(n: usize, rate: f64) -> usize {
    (0..n).filter(|&i| (i as f64) < (n as f64) * rate).count()
}

/// Multiplier `k` in `shape = k * mean` for the tail sampler.
const LATENCY_SHAPE_FACTOR: f64 = 0.2;
/// Subtracted from the regional mean to form the `scale` term (`mean - scale_offset`).
const LATENCY_SCALE_OFFSET_MS: f64 = 5.0;

/// Random latency sample: `round(scale / u^(1/shape))` with `shape = 0.2 * mean`,
/// `scale = mean - 5`, `u ~ Uniform(0,1)`. Non-finite positive results map to a large finite value.
fn sample_latency_ms(rng: &mut ChaCha8Rng, net: &NetworkConfig, from: usize, to: usize) -> u64 {
    let mean = net.topology.latency_ms[from][to] as f64;
    if mean <= 0.0 {
        return 0;
    }
    let shape = LATENCY_SHAPE_FACTOR * mean;
    let scale = mean - LATENCY_SCALE_OFFSET_MS;
    if scale <= 0.0 {
        return mean.round().max(0.0) as u64;
    }
    let u = rng.gen::<f64>();
    let v = scale / u.powf(1.0 / shape);
    let rounded = v.round();
    if !rounded.is_finite() || rounded <= 0.0 {
        return u64::MAX / 4;
    }
    rounded.min(u64::MAX as f64) as u64
}

fn difficulty_as_f64(d: &BigUint) -> f64 {
    d.to_string().parse().unwrap_or(f64::MAX)
}

/// Mining delay in milliseconds from the exponential work model:
/// `-ln(1-u) * difficulty / mining_power`, truncated toward zero (`u ~ Uniform(0,1)`).
fn sample_mining_delay_ms(rng: &mut ChaCha8Rng, difficulty: &BigUint, mining_power: u64) -> u64 {
    let mut u = rng.gen::<f64>();
    if u >= 1.0 {
        u = 1.0 - f64::EPSILON;
    }
    let d = difficulty_as_f64(difficulty);
    let p = mining_power as f64;
    if p <= 0.0 {
        return 0;
    }
    let ms = -(1.0 - u).ln() * d / p;
    if !ms.is_finite() || ms <= 0.0 {
        return 0;
    }
    ms.trunc() as u64
}

/// Mining power of one node: a normal draw, rounded, at least 1.
fn sample_mining_power(rng: &mut ChaCha8Rng, mean: u64, stdev: u64) -> u64 {
    let n = Normal::new(mean as f64, stdev as f64).expect("mining power mean/stdev");
    let v = n.sample(rng).round() as i64;
    v.max(1) as u64
}

/// Failure fractions of control (non-churn) senders: 210 times `0.01`.
const CBR_FAILURE_FRACTIONS_CONTROL_LEN: usize = 210;

/// `(fraction, repeat count)` runs of the churn failure table (945 entries in all).
const CBR_FAILURE_FRACTIONS_CHURN_RUNS: &[(f32, usize)] = &[
    (0.01, 546),
    (0.02, 66),
    (0.03, 39),
    (0.04, 27),
    (0.05, 21),
    (0.06, 17),
    (0.07, 14),
    (0.08, 12),
    (0.09, 11),
    (0.1, 10),
    (0.11, 9),
    (0.12, 8),
    (0.13, 7),
    (0.14, 7),
    (0.15, 6),
    (0.16, 6),
    (0.17, 5),
    (0.18, 5),
    (0.19, 5),
    (0.2, 4),
    (0.21, 4),
    (0.22, 4),
    (0.23, 4),
    (0.24, 4),
    (0.25, 3),
    (0.26, 3),
    (0.27, 3),
    (0.28, 3),
    (0.29, 3),
    (0.3, 3),
    (0.31, 3),
    (0.32, 3),
    (0.33, 2),
    (0.34, 2),
    (0.35, 2),
    (0.36, 2),
    (0.37, 2),
    (0.38, 2),
    (0.39, 2),
    (0.4, 2),
    (0.41, 2),
    (0.42, 2),
    (0.43, 2),
    (0.44, 2),
    (0.45, 2),
    (0.46, 2),
    (0.47, 2),
    (0.48, 2),
    (0.49, 1),
    (0.5, 1),
    (0.51, 1),
    (0.52, 1),
    (0.53, 1),
    (0.54, 1),
    (0.55, 1),
    (0.56, 1),
    (0.57, 1),
    (0.58, 1),
    (0.59, 1),
    (0.6, 1),
    (0.61, 1),
    (0.62, 1),
    (0.63, 1),
    (0.64, 1),
    (0.65, 1),
    (0.66, 1),
    (0.67, 1),
    (0.68, 1),
    (0.69, 1),
    (0.7, 1),
    (0.71, 1),
    (0.72, 1),
    (0.73, 1),
    (0.74, 1),
    (0.75, 1),
    (0.76, 1),
    (0.77, 1),
    (0.78, 1),
    (0.79, 1),
    (0.8, 1),
    (0.81, 1),
    (0.82, 1),
    (0.83, 1),
    (0.84, 1),
    (0.85, 1),
    (0.86, 1),
    (0.87, 1),
    (0.88, 1),
    (0.89, 1),
    (0.9, 1),
    (0.91, 1),
    (0.92, 1),
    (0.93, 1),
    (0.94, 1),
    (0.95, 1),
    (0.96, 1),
];

/// Entry `idx` of the churn failure table.
fn churn_fraction(idx: usize) -> f32 {
    let mut rest = idx;
    for &(v, count) in CBR_FAILURE_FRACTIONS_CHURN_RUNS {
        if rest < count {
            return v;
        }
        rest -= count;
    }
    CBR_FAILURE_FRACTIONS_CHURN_RUNS[CBR_FAILURE_FRACTIONS_CHURN_RUNS.len() - 1].0
}

fn churn_table_len() -> usize {
    CBR_FAILURE_FRACTIONS_CHURN_RUNS.iter().map(|r| r.1).sum()
}

/// Full-block byte size after a compact decode failure: `block_size_bytes` times an entry drawn
/// uniformly from the sender's failure table (churn or control).
fn sample_failed_block_bytes(rng: &mut ChaCha8Rng, block_size_bytes: u64, sender_is_churn: bool) -> u64 {
    let fraction = if sender_is_churn {
        let idx = rng.gen_range(0..churn_table_len());
        churn_fraction(idx)
    } else {
        let _idx = rng.gen_range(0..CBR_FAILURE_FRACTIONS_CONTROL_LEN);
        0.01_f32
    };
    ((block_size_bytes as f64) * f64::from(fraction)).round() as u64
}

/// Whether a compact payload fails to decode, with probability `p`.
fn draw_decode_failure(rng: &mut ChaCha8Rng, p: f64) -> bool {
    rng.gen_bool(p)
}

/// A simulation together with its random number generator and relay rates.
struct Run {
    sim: Simulation,
    rng: ChaCha8Rng,
    rates: Rates,
}

fn plan_fits(plan: &DegreePlan, n: usize) -> bool {
    match plan {
        DegreePlan::Buckets(b) => b.iter().all(|&(_, t)| t <= n),
        DegreePlan::Cdf(c) => c.len() < usize::MAX && c.iter().all(|b| b.map_or(true, |b| b < usize::MAX)),
    }
}

impl Run {
    /// Draws the nodes, wires the network and creates the genesis block.
    fn new(sim: SimulationConfig, net: NetworkConfig, shape: &PresetShape, rates: Rates) -> Run {
        let mut rng = ChaCha8Rng::seed_from_u64(sim.rng_seed);
        let n = sim.num_nodes as usize;
        let targets = region_targets(n, shape.node_fractions);
        assert!(targets.iter().all(|&t| t <= n), "regional node shares exceed the node count");
        let plan = degree_plan(n, shape);
        assert!(plan_fits(&plan, n), "outbound degree distribution exceeds the node count");
        let inits = sample_node_inits(
            &mut rng,
            n,
            &targets,
            &plan,
            rate_count(n, rates.cbr_usage_rate),
            rate_count(n, rates.churn_node_rate),
        );
        let powers: Vec<u64> =
            (0..n).map(|_| sample_mining_power(&mut rng, sim.average_mining_power, sim.stdev_mining_power)).collect();
        assert!(n >= 1, "a simulation needs at least one node");
        assert!(sim.end_block_height < u32::MAX, "end block height out of range");
        assert!(
            inits.iter().all(|i| i.region < net.topology.regions.len()),
            "node region outside the network"
        );
        let (sim, reqs) = Simulation::new(sim, net, inits, powers, &mut rng);
        let mut run = Run { sim, rng, rates };
        run.fulfil(reqs);
        run
    }

    /// Makes each requested draw in order and hands it to the simulation; draws requested in
    /// answer to a draw are made right after it.
    fn fulfil(&mut self, reqs: Vec<SampleRequest>) {
        let mut pending: VecDeque<SampleRequest> = reqs.into();
        while let Some(r) = pending.pop_front() {
            match r {
                SampleRequest::MiningDelay { node, parent, mining_power } => {
                    let rec = self.sim.store.get(parent).expect("mining parent is stored");
                    let difficulty = BigUint::from_slice(&rec.next_difficulty.to_digits());
                    let d = sample_mining_delay_ms(&mut self.rng, &difficulty, mining_power);
                    assert!(self.sim.can_schedule(d), "simulated time overflow");
                    self.sim.resolve_mining(node, parent, d);
                }
                SampleRequest::MessageLatency { from_region, to_region, event } => {
                    let lat = sample_latency_ms(&mut self.rng, &self.sim.net, from_region, to_region);
                    assert!(self.sim.message_fits(lat), "simulated time overflow");
                    self.sim.resolve_message(event, lat);
                }
                SampleRequest::BlockPayload { sender, requester, block, kind, from_region, to_region, size } => {
                    let bytes = match size {
                        PayloadSize::Bytes(b) => b,
                        PayloadSize::FailedCompact { sender_is_churn } => sample_failed_block_bytes(
                            &mut self.rng,
                            self.sim.sim.block_size_bytes,
                            sender_is_churn,
                        ),
                    };
                    let lat = sample_latency_ms(&mut self.rng, &self.sim.net, from_region, to_region);
                    assert!(self.sim.payload_fits(from_region, to_region, bytes, lat), "simulated time overflow");
                    self.sim.resolve_block_payload(sender, requester, block, kind, from_region, to_region, bytes, lat);
                }
                SampleRequest::CompactDecode { recipient, sender, block, recipient_is_churn } => {
                    let p = if recipient_is_churn {
                        self.rates.cbr_failure_rate_churn
                    } else {
                        self.rates.cbr_failure_rate_control
                    };
                    let failed = draw_decode_failure(&mut self.rng, p);
                    let more = self.sim.on_compact_decoded(recipient, sender, block, failed);
                    for m in more.into_iter().rev() {
                        pending.push_front(m);
                    }
                }
            }
        }
    }

    /// Runs the discrete-event loop until the queue is empty, calling `on_step` every `every`
    /// processed events (and once at the end) when `every > 0`.
    fn run_observer(&mut self, every: u64, mut on_step: impl FnMut(u64, &Simulation)) -> RunStats {
        let mut i = 0u64;
        loop {
            assert!(self.sim.store_has_room(), "block store full");
            match self.sim.step() {
                Some(reqs) => self.fulfil(reqs),
                None => break,
            }
            i += 1;
            if report_due(every, i) {
                on_step(i, &self.sim);
            }
        }
        if every > 0 {
            on_step(i, &self.sim);
        }
        self.sim.finish()
    }

    /// Runs the discrete-event loop until the queue is empty.
    fn run(&mut self) -> RunStats {
        self.run_observer(0, |_, _| {})
    }
}

fn run_tiny() -> (Run, RunStats) {
    let mut r = Run::new(SimulationConfig::tiny(), NetworkConfig::default(), &shape(NetworkPreset::Bitcoin2019), Rates::tiny());
    let st = r.run();
    (r, st)
}

fn count_event_kind(s: &Simulation, kind: &str) -> usize {
    s.log.events.iter().filter(|e| e.kind() == kind).count()
}

fn reaches_end_height() {
    let (_, st) = run_tiny();
    assert!(st.blocks >= 1);
    assert!(st.final_time_ms > 0);
    assert!(st.events_logged >= 3);
}

fn graph_and_block_list() {
    let (r, _) = run_tiny();
    let s = &r.sim;
    let labels = s.graph_labels();
    assert!(labels.contains(&2));
    let max_h = s.max_tip_height();
    assert!(max_h >= 2, "tiny sim should reach at least height 2");
    assert!(!labels.contains(&0));
    let bl = s.block_list();
    assert!(bl.iter().any(|e| !e.orphan));
}

fn static_and_propagation() {
    let mut r = Run::new(SimulationConfig::tiny(), NetworkConfig::default(), &shape(NetworkPreset::Bitcoin2019), Rates::tiny());
    assert!(!r.sim.net.topology.regions.is_empty());
    r.run();
    let rows = r.sim.propagation_rows();
    assert!(!rows.is_empty());
    assert!(rows.iter().any(|(_, h, _)| *h == 0 || *h == 1));
    assert!(rows.iter().any(|(_, _, obs)| !obs.is_empty()));
}

fn observed_block_cap() {
    let cfg = SimulationConfig { end_block_height: 40, ..Default::default() };
    let mut r = Run::new(cfg, NetworkConfig::default(), &shape(NetworkPreset::Bitcoin2019), Rates::default());
    r.run();
    let block_ids: HashSet<u64> = r.sim.propagation_rows().iter().filter(|row| !row.2.is_empty()).map(|row| row.0 .0).collect();
    assert!(block_ids.len() <= 11, "at most 11 distinct blocks in propagation export; got {}", block_ids.len());
}

fn flow_block_for_payload() {
    let (r, _) = run_tiny();
    let n = count_event_kind(&r.sim, "flow-block");
    assert!(n >= 1, "expected at least one flow-block (compact/full payload), got {n}");
}

fn genesis_fanout() {
    let (r, _) = run_tiny();
    let s = &r.sim;
    let n = count_event_kind(s, "flow-block");
    let minter = s.nodes.iter().find(|n| n.tip.is_some()).map(|n| n.neighbor_count()).unwrap_or(0);
    assert!(n >= minter.max(1), "expected flow-block count >= minter degree {minter}, got {n}");
}

#[test]
fn mod_tiny_sim_reaches_end_height() {
    reaches_end_height();
}

#[test]
fn simulation_tiny_sim_reaches_end_height() {
    reaches_end_height();
}

#[test]
fn mod_tiny_sim_writes_graph_and_block_list() {
    graph_and_block_list();
}

#[test]
fn simulation_tiny_sim_writes_graph_and_block_list() {
    graph_and_block_list();
}

#[test]
fn mod_tiny_sim_writes_static_propagation_csv_and_human() {
    static_and_propagation();
}

#[test]
fn simulation_tiny_sim_writes_static_propagation_csv_and_human() {
    static_and_propagation();
}

#[test]
fn mod_propagation_csv_respects_observed_block_cap() {
    observed_block_cap();
}

#[test]
fn simulation_propagation_csv_respects_observed_block_cap() {
    observed_block_cap();
}

#[test]
fn mod_gossip_emits_flow_block_for_block_payload() {
    flow_block_for_payload();
}

#[test]
fn simulation_gossip_emits_flow_block_for_block_payload() {
    flow_block_for_payload();
}

#[test]
fn mod_gossip_genesis_fanout_multiple_flow_blocks() {
    genesis_fanout();
}

#[test]
fn simulation_gossip_genesis_fanout_multiple_flow_blocks() {
    genesis_fanout();
}

fn event_time(e: &LogEvent) -> u64 {
    match *e {
        LogEvent::AddNode { timestamp, .. } => timestamp,
        LogEvent::AddLink { timestamp, .. } => timestamp,
        LogEvent::AddBlock { timestamp, .. } => timestamp,
        LogEvent::FlowBlock { reception_timestamp, .. } => reception_timestamp,
        LogEvent::SimulationEnd { timestamp } => timestamp,
    }
}

#[test]
fn run_log_is_in_time_order_and_ends_with_simulation_end() {
    let (r, st) = run_tiny();
    let ev = &r.sim.log.events;
    assert!(ev.windows(2).all(|w| event_time(&w[0]) <= event_time(&w[1])));
    assert_eq!(*ev.last().unwrap(), LogEvent::SimulationEnd { timestamp: st.final_time_ms });
    assert_eq!(st.events_logged, ev.len());
    assert_eq!(st.blocks, r.sim.block_store_len());
    assert_eq!(r.sim.pending_events(), 0);
    assert!(r.sim.finished);
}

#[test]
fn run_stops_at_end_height_and_blocks_never_exceed_it() {
    let (r, _) = run_tiny();
    let s = &r.sim;
    let end = s.sim.end_block_height;
    assert!(s.store.iter().iter().all(|(_, b)| b.height <= end));
    assert!(s.mint_stop_layer() > end);
    assert!(s.max_tip_height() <= end);
}

#[test]
fn new_simulation_logs_nodes_links_and_genesis() {
    let r = Run::new(SimulationConfig::tiny(), NetworkConfig::default(), &shape(NetworkPreset::Bitcoin2019), Rates::tiny());
    let s = &r.sim;
    let ev = &s.log.events;
    assert_eq!(s.nodes.len(), 8);
    for (i, e) in ev.iter().take(8).enumerate() {
        match *e {
            LogEvent::AddNode { timestamp, node, .. } => {
                assert_eq!(timestamp, 0);
                assert_eq!(node as usize, i + 1);
            }
            _ => panic!("expected add-node"),
        }
    }
    let links = ev.iter().filter(|e| matches!(e, LogEvent::AddLink { .. })).count();
    let undirected: usize = s.nodes.iter().map(|n| n.outbound.len()).sum();
    assert_eq!(links, undirected);
    assert_eq!(s.block_store_len(), 1);
    let g = s.store.get(simblock::block::BlockId(0)).unwrap();
    assert_eq!(g.height, 0);
    assert!(g.parent.is_none());
    assert!(matches!(ev[8 + links], LogEvent::AddBlock { timestamp: 0, block_id: 0, .. }));
    assert_eq!(s.clock_ms(), 0);
    assert_eq!(s.nodes.iter().filter(|n| n.tip.is_some()).count(), 1);
    // the genesis minter mines and announces to each neighbor
    let minter = s.nodes.iter().find(|n| n.tip.is_some()).unwrap();
    assert_eq!(s.pending_events(), 1 + minter.neighbor_count());
}

#[test]
fn block_list_is_sorted_by_time_then_id() {
    let (r, _) = run_tiny();
    let s = &r.sim;
    let bl = s.block_list();
    let key = |id: simblock::block::BlockId| (s.store.get(id).unwrap().time_ms, id.0);
    assert!(bl.windows(2).all(|w| key(w[0].id) < key(w[1].id)));
    assert!(bl.iter().all(|e| e.id.0 != 0));
}

#[test]
fn graph_adjacency_lists_each_link_both_ways() {
    let (r, _) = run_tiny();
    let adj = r.sim.graph_adjacency();
    assert_eq!(adj.len(), 8);
    for (id, nbrs) in &adj {
        assert!(nbrs.windows(2).all(|w| w[0] < w[1]));
        for nb in nbrs {
            assert!(adj[(*nb - 1) as usize].1.contains(id));
        }
    }
}

fn tip_work(s: &Simulation, i: usize) -> Option<BigUint> {
    s.nodes[i].tip.and_then(|t| s.store.get(t)).map(|r| BigUint::from_slice(&r.total_difficulty.to_digits()))
}

#[test]
fn every_step_keeps_blocks_links_and_never_lowers_a_tip() {
    let mut r = Run::new(SimulationConfig::tiny(), NetworkConfig::default(), &shape(NetworkPreset::Bitcoin2019), Rates::tiny());
    let links: Vec<(Vec<u32>, Vec<u32>)> = r.sim.nodes.iter().map(|n| (n.outbound.clone(), n.inbound.clone())).collect();
    loop {
        let before_blocks = r.sim.block_store_len();
        let before_heights: Vec<u32> = r.sim.store.iter().iter().map(|(_, b)| b.height).collect();
        let before_work: Vec<Option<BigUint>> = (0..r.sim.nodes.len()).map(|i| tip_work(&r.sim, i)).collect();
        let before_clock = r.sim.clock_ms();
        let before_log = r.sim.log.events.len();
        match r.sim.step() {
            Some(reqs) => r.fulfil(reqs),
            None => break,
        }
        assert!(r.sim.clock_ms() >= before_clock);
        assert!(r.sim.block_store_len() >= before_blocks);
        assert!(r.sim.log.events.len() >= before_log);
        let after_heights: Vec<u32> = r.sim.store.iter().iter().map(|(_, b)| b.height).collect();
        assert_eq!(&after_heights[..before_heights.len()], &before_heights[..]);
        for i in 0..r.sim.nodes.len() {
            assert!(tip_work(&r.sim, i) >= before_work[i]);
            assert_eq!(r.sim.nodes[i].outbound, links[i].0);
            assert_eq!(r.sim.nodes[i].inbound, links[i].1);
        }
    }
}

#[test]
fn each_mined_block_is_adopted_by_its_miner_when_minted() {
    let (r, _) = run_tiny();
    let s = &r.sim;
    for (id, b) in s.store.iter() {
        if id.0 == 0 {
            continue;
        }
        assert!(s.log.events.iter().any(|e| *e
            == LogEvent::AddBlock { timestamp: b.time_ms, node: b.minter, block_id: id.0 }));
    }
}

#[test]
fn same_seed_gives_the_same_run() {
    let (a, sa) = run_tiny();
    let (b, sb) = run_tiny();
    assert_eq!(sa, sb);
    assert_eq!(a.sim.log.events, b.sim.log.events);
    assert_eq!(a.sim.block_list(), b.sim.block_list());
    assert_eq!(a.sim.graph_labels(), b.sim.graph_labels());
}

#[test]
fn progress_reports_are_due_every_n_events() {
    assert!(!report_due(0, 0));
    assert!(!report_due(0, 256));
    assert!(report_due(256, 256));
    assert!(report_due(256, 512));
    assert!(!report_due(256, 255));
    assert!(report_due(1, 7));
}

#[test]
fn node_count_matches_configuration() {
    let (r, _) = run_tiny();
    assert_eq!(r.sim.nodes.len(), r.sim.sim.num_nodes as usize);
    for n in &r.sim.nodes {
        assert_eq!(n.neighbors_sorted().len(), n.neighbor_count());
        assert_eq!(n.neighbors_iter().len(), n.neighbor_count());
    }
}
