//! Discrete-event simulation core: clock, event queue, node state and the gossip/mining
//! handlers.
//!
//! The random delays and outcomes of a run are drawn by the caller: every handler returns the
//! draws it needs, in the order in which they are to be made, as [`SampleRequest`]s, and the
//! caller hands each draw back through the matching `resolve_*` method before the next event is
//! processed.
pub mod chain;
pub mod event_queue;
pub mod export;
pub mod handlers;
pub mod init;
pub mod laws;
pub mod node;
pub mod progress;
pub mod propagation;
pub mod sending;

use self::chain::{heights_consistent, parents_precede};
use self::event_queue::EventQueue;
use self::init::{lemma_pick_from_range, pick_from, pick_genesis_minter, power_prefix, total_mining_power, weighted_pick};
use self::node::{links_distinct, neighbor_seq, BlockSendJob, NodeInit, NodeState};
use self::progress::{event_time, log_ordered};
use self::propagation::PropagationTracker;
use self::sending::{carries_payload, in_flight, lemma_draws_none, payload_draw_for, pending_seq, queued_payloads, sends_ok};
use crate::block::{BlockRecord, BlockStore};
use crate::config::{NetworkConfig, SimulationConfig};
use crate::consensus::work_target_for_genesis;
use crate::difficulty::Work;
use crate::event::{BlockPayloadKind, SimEvent};
use crate::output::{ev_add_block, ev_add_link, ev_add_node, EventLog, LogEvent};
use crate::routing::{caps_ok, init_outbound_links, links_wf, nid, no_links, random_wiring, row_ok, rows, saturated};
use crate::rng::ExChaCha8Rng;
use crate::types::{BlockId, NodeId};
use rand_chacha::ChaCha8Rng;
use std::collections::VecDeque;
use vstd::prelude::*;

verus! {

/// Maximum number of blocks kept for propagation export; oldest is evicted when exceeded.
pub const OBSERVED_PROPAGATION_BLOCK_LIMIT: usize = 10;

/// Size of a block payload about to be sent.
#[derive(Debug, Clone, Copy, PartialEq, Eq, Structural)]
pub enum PayloadSize {
    /// Known size in bytes.
    Bytes(u64),
    /// Full block after a failed compact decode: its size is drawn from the failure table of
    /// the sender (churn or control).
    FailedCompact { sender_is_churn: bool },
}

/// A random draw that a handler needs before the event it prepares can be scheduled.
#[derive(Debug, Clone, Copy, PartialEq, Eq, Structural)]
pub enum SampleRequest {
    /// Mining delay of `node` on top of `parent` (exponential in the parent's
    /// `next_difficulty` over `mining_power`); resolved by [`Simulation::resolve_mining`].
    MiningDelay { node: NodeId, parent: BlockId, mining_power: u64 },
    /// Latency of a small message between two regions; resolved by
    /// [`Simulation::resolve_message`], which delivers `event`.
    MessageLatency { from_region: usize, to_region: usize, event: SimEvent },
    /// Latency (and, for a failed compact decode, the size) of a block payload; resolved by
    /// [`Simulation::resolve_block_payload`].
    BlockPayload {
        sender: NodeId,
        requester: NodeId,
        block: BlockId,
        kind: BlockPayloadKind,
        from_region: usize,
        to_region: usize,
        size: PayloadSize,
    },
    /// Whether the compact payload fails to decode at `recipient` (probability by the
    /// recipient's churn flag); resolved by [`Simulation::on_compact_decoded`].
    CompactDecode { recipient: NodeId, sender: NodeId, block: BlockId, recipient_is_churn: bool },
}

#[derive(Debug, Clone, Copy, PartialEq, Eq, Structural)]
pub struct RunStats {
    pub final_time_ms: u64,
    pub blocks: usize,
    pub events_logged: usize,
}

impl Default for RunStats {
    fn default() -> (r: Self)
        ensures
            r == (RunStats { final_time_ms: 0, blocks: 0, events_logged: 0 }),
    {
        RunStats { final_time_ms: 0, blocks: 0, events_logged: 0 }
    }
}

/// Whether a progress report is due once `done` events have been processed, reporting every
/// `every` events (never when `every` is 0).
pub fn report_due(every: u64, done: u64) -> (b: bool)
    ensures
        b == (every > 0 && done % every == 0),
{
    every > 0 && done % every == 0
}

/// Owns clock, event queue, nodes, blocks and the event log.
pub struct Simulation {
    pub sim: SimulationConfig,
    pub net: NetworkConfig,
    pub now_ms: u64,
    pub queue: EventQueue,
    pub store: BlockStore,
    pub nodes: Vec<NodeState>,
    pub propagation: PropagationTracker,
    pub log: EventLog,
    pub finished: bool,
    /// Counter (starts at 1) used with parent block height to decide early stop and graph labels.
    pub mint_stop_layer: u32,
    /// Labels used for `graph/<n>.txt` snapshots.
    pub graph_snapshot_heights: Vec<u32>,
}

/// Outbound lists of all nodes, in node order.
pub open spec fn outs(nodes: Seq<NodeState>) -> Seq<Vec<NodeId>> {
    Seq::new(nodes.len(), |i: int| nodes[i].outbound)
}

/// Inbound lists of all nodes, in node order.
pub open spec fn ins(nodes: Seq<NodeState>) -> Seq<Vec<NodeId>> {
    Seq::new(nodes.len(), |i: int| nodes[i].inbound)
}

/// Outbound caps of all nodes, in node order.
pub open spec fn caps(nodes: Seq<NodeState>) -> Seq<usize> {
    Seq::new(nodes.len(), |i: int| nodes[i].max_outbound)
}

/// The fields of a node fixed at construction agree.
pub open spec fn same_static(a: NodeState, b: NodeState) -> bool {
    &&& a.id == b.id
    &&& a.region == b.region
    &&& a.mining_power == b.mining_power
    &&& a.use_cbr == b.use_cbr
    &&& a.is_churn == b.is_churn
    &&& a.max_outbound == b.max_outbound
    &&& a.outbound == b.outbound
    &&& a.inbound == b.inbound
}

impl Simulation {
    /// Number of nodes.
    pub open spec fn n(&self) -> nat {
        self.nodes@.len()
    }

    /// Number of stored blocks.
    pub open spec fn nb(&self) -> nat {
        self.store@.len()
    }

    /// Whether `id` names a node.
    pub open spec fn has_node(&self, id: NodeId) -> bool {
        1 <= id <= self.n()
    }

    /// Node with identifier `id`.
    pub open spec fn node(&self, id: NodeId) -> NodeState {
        self.nodes@[id - 1]
    }

    /// Node `i` is consistent with its position, the network and the stored blocks.
    pub open spec fn node_ok(&self, i: int) -> bool {
        let nd = self.nodes@[i];
        &&& nd.id == nid(i)
        &&& nd.region < self.net.num_regions()
        &&& forall|k: int| 0 <= k < nd.outbound@.len() ==> self.has_node(#[trigger] nd.outbound@[k])
        &&& forall|k: int| 0 <= k < nd.inbound@.len() ==> self.has_node(#[trigger] nd.inbound@[k])
        &&& match nd.tip {
            Some(t) => self.store.has(t),
            None => true,
        }
        &&& forall|k: int|
            0 <= k < nd.block_send_queue@.len() ==> self.job_ok(#[trigger] nd.block_send_queue@[k])
    }

    /// A queued block send names a node and a stored block.
    pub open spec fn job_ok(&self, j: BlockSendJob) -> bool {
        self.has_node(j.requester) && self.store.has(j.block)
    }

    /// The simulation state is consistent.
    pub open spec fn wf(&self) -> bool {
        &&& self.net.wf()
        &&& 1 <= self.n() <= u32::MAX
        &&& forall|i: int| 0 <= i < self.n() ==> #[trigger] self.node_ok(i)
        &&& parents_precede(self.store@)
        &&& heights_consistent(self.store@)
        &&& forall|b: int|
            0 <= b < self.nb() ==> (#[trigger] self.store@[b]).height <= self.mint_stop_layer
                && self.store@[b].height <= self.sim.end_block_height
        &&& 1 <= self.mint_stop_layer <= self.sim.end_block_height + 1
        &&& self.sim.end_block_height < u32::MAX
        &&& self.queue.wf()
        &&& forall|k: int|
            0 <= k < self.queue.entries().len() ==> (#[trigger] self.queue.entries()[k]).inner.refs_ok(
                self.n(),
                self.nb(),
            ) && self.queue.entries()[k].at_ms >= self.now_ms
        &&& self.propagation.wf()
    }

    /// A pending draw names existing nodes, blocks and regions.
    pub open spec fn request_ok(&self, r: SampleRequest) -> bool {
        match r {
            SampleRequest::MiningDelay { node, parent, .. } => self.has_node(node) && self.store.has(
                parent,
            ),
            SampleRequest::MessageLatency { from_region, to_region, event } => from_region
                < self.net.num_regions() && to_region < self.net.num_regions() && event.refs_ok(
                self.n(),
                self.nb(),
            ),
            SampleRequest::BlockPayload { sender, requester, block, from_region, to_region, .. } =>
                self.has_node(sender) && self.has_node(requester) && self.store.has(block) && from_region
                < self.net.num_regions() && to_region < self.net.num_regions(),
            SampleRequest::CompactDecode { recipient, sender, block, .. } => self.has_node(recipient)
                && self.has_node(sender) && self.store.has(block),
        }
    }

    /// Every pending draw of `reqs` is well-formed.
    pub open spec fn requests_ok(&self, reqs: Seq<SampleRequest>) -> bool {
        forall|k: int| 0 <= k < reqs.len() ==> self.request_ok(#[trigger] reqs[k])
    }

    /// The mining-delay draw for `node` on top of `parent`.
    pub open spec fn mining_request(&self, node: NodeId, parent: BlockId) -> SampleRequest {
        SampleRequest::MiningDelay { node, parent, mining_power: self.node(node).mining_power }
    }

    /// The `inv` latency draws of `from` announcing `block`, one per neighbor (outbound first).
    pub open spec fn inv_requests(&self, from: NodeId, block: BlockId) -> Seq<SampleRequest> {
        let nbrs = neighbor_seq(&self.node(from));
        Seq::new(
            nbrs.len(),
            |k: int|
                SampleRequest::MessageLatency {
                    from_region: self.node(from).region,
                    to_region: self.node(nbrs[k]).region,
                    event: SimEvent::InvArrive { to: nbrs[k], from, block },
                },
        )
    }

    /// Index of node `id` in `nodes`.
    fn idx(&self, id: NodeId) -> (i: usize)
        requires
            1 <= id <= self.nodes@.len(),
        ensures
            i == id - 1,
    {
        (id - 1) as usize
    }
}

/// Moves the links of each node into a fresh node state built from its draws.
fn build_nodes(
    inits: &Vec<NodeInit>,
    mining_powers: &Vec<u64>,
    out: Vec<Vec<NodeId>>,
    inn: Vec<Vec<NodeId>>,
    log: &mut EventLog,
) -> (nodes: Vec<NodeState>)
    requires
        inits@.len() == mining_powers@.len(),
        out@.len() == inits@.len(),
        inn@.len() == inits@.len(),
        inits@.len() <= u32::MAX,
    ensures
        nodes@.len() == inits@.len(),
        forall|i: int|
            0 <= i < nodes@.len() ==> {
                let nd = #[trigger] nodes@[i];
                &&& nd.id == nid(i)
                &&& nd.region == inits@[i].region
                &&& nd.mining_power == mining_powers@[i]
                &&& nd.use_cbr == inits@[i].use_cbr
                &&& nd.is_churn == inits@[i].is_churn
                &&& nd.max_outbound == inits@[i].max_outbound
                &&& nd.outbound == out@[i]
                &&& nd.inbound == inn@[i]
                &&& nd.tip is None
                &&& nd.pending_mining is None
                &&& nd.orphans@.len() == 0
                &&& nd.block_send_queue@.len() == 0
                &&& !nd.sending_block
                &&& nd.downloading@.len() == 0
            },
        final(log).events@ == old(log).events@ + Seq::new(
            inits@.len(),
            |i: int| LogEvent::AddNode { timestamp: 0, node: nid(i), region: inits@[i].region },
        ),
{
    let n = inits.len();
    let mut out = out;
    let mut inn = inn;
    let ghost out0 = out@;
    let ghost inn0 = inn@;
    let ghost log0 = log.events@;
    let mut nodes: Vec<NodeState> = Vec::new();
    let mut i: usize = 0;
    while i < n
        invariant
            n == inits@.len(),
            n == mining_powers@.len(),
            n <= u32::MAX,
            i <= n,
            out@.len() == n,
            inn@.len() == n,
            forall|k: int| i <= k < n ==> #[trigger] out@[k] == out0[k],
            forall|k: int| i <= k < n ==> #[trigger] inn@[k] == inn0[k],
            nodes@.len() == i,
            forall|k: int|
                0 <= k < i ==> {
                    let nd = #[trigger] nodes@[k];
                    &&& nd.id == nid(k)
                    &&& nd.region == inits@[k].region
                    &&& nd.mining_power == mining_powers@[k]
                    &&& nd.use_cbr == inits@[k].use_cbr
                    &&& nd.is_churn == inits@[k].is_churn
                    &&& nd.max_outbound == inits@[k].max_outbound
                    &&& nd.outbound == out0[k]
                    &&& nd.inbound == inn0[k]
                    &&& nd.tip is None
                    &&& nd.pending_mining is None
                    &&& nd.orphans@.len() == 0
                    &&& nd.block_send_queue@.len() == 0
                    &&& !nd.sending_block
                    &&& nd.downloading@.len() == 0
                },
            log.events@ == log0 + Seq::new(
                i as nat,
                |k: int| LogEvent::AddNode { timestamp: 0, node: nid(k), region: inits@[k].region },
            ),
        decreases n - i,
    {
        let init = inits[i];
        let id = (i + 1) as NodeId;
        let mut o: Vec<NodeId> = Vec::new();
        let mut p: Vec<NodeId> = Vec::new();
        std::mem::swap(&mut o, &mut out[i]);
        std::mem::swap(&mut p, &mut inn[i]);
        nodes.push(
            NodeState {
                id,
                region: init.region,
                mining_power: mining_powers[i],
                use_cbr: init.use_cbr,
                is_churn: init.is_churn,
                max_outbound: init.max_outbound,
                outbound: o,
                inbound: p,
                tip: None,
                pending_mining: None,
                orphans: Vec::new(),
                block_send_queue: VecDeque::new(),
                sending_block: false,
                downloading: Vec::new(),
            },
        );
        log.push(ev_add_node(0, id, init.region));
        i += 1;
        proof {
            assert(log.events@ =~= log0 + Seq::new(
                i as nat,
                |k: int| LogEvent::AddNode { timestamp: 0, node: nid(k), region: inits@[k].region },
            ));
        }
    }
    nodes
}


/// `e` is a neighbor of node `b`, and `b < e` (one record per undirected link).
pub open spec fn link_pair(nodes: Seq<NodeState>, b: NodeId, e: NodeId) -> bool {
    &&& 1 <= b <= nodes.len()
    &&& b < e
    &&& neighbor_seq(&nodes[b - 1]).contains(e)
}

/// `recs` are `add-link` records at time `ts`, one for each link (and nothing else).
pub open spec fn link_records(nodes: Seq<NodeState>, ts: u64, recs: Seq<LogEvent>) -> bool {
    &&& forall|k: int|
        0 <= k < recs.len() ==> match #[trigger] recs[k] {
            LogEvent::AddLink { timestamp, begin, end } => timestamp == ts && link_pair(nodes, begin, end),
            _ => false,
        }
    &&& forall|b: NodeId, e: NodeId|
        #[trigger] link_pair(nodes, b, e) ==> recs.contains(LogEvent::AddLink { timestamp: ts, begin: b, end: e })
}

/// `a` comes before `b` among `add-link` records: by first node, then by second node.
pub open spec fn link_before(a: LogEvent, b: LogEvent) -> bool {
    match (a, b) {
        (LogEvent::AddLink { begin: b1, end: e1, .. }, LogEvent::AddLink { begin: b2, end: e2, .. }) => b1
            < b2 || (b1 == b2 && e1 < e2),
        _ => false,
    }
}

/// The `add-link` records `recs` are in strictly increasing link order.
pub open spec fn links_in_order(recs: Seq<LogEvent>) -> bool {
    forall|a: int, b: int| 0 <= a < b < recs.len() ==> link_before(#[trigger] recs[a], #[trigger] recs[b])
}

/// All state but the event log agrees.
pub open spec fn same_but_log(a: &Simulation, b: &Simulation) -> bool {
    &&& a.nodes == b.nodes
    &&& a.sim == b.sim
    &&& a.net == b.net
    &&& a.now_ms == b.now_ms
    &&& a.queue == b.queue
    &&& a.store == b.store
    &&& a.propagation == b.propagation
    &&& a.finished == b.finished
    &&& a.mint_stop_layer == b.mint_stop_layer
    &&& a.graph_snapshot_heights == b.graph_snapshot_heights
}

impl Simulation {
    /// Logs one `add-link` record per undirected link at time `ts` (node by node, each node's
    /// higher-numbered neighbors in increasing order).
    fn log_links_at_time(&mut self, ts: u64)
        requires
            old(self).nodes@.len() <= u32::MAX,
            forall|i: int| 0 <= i < old(self).nodes@.len() ==> (#[trigger] old(self).nodes@[i]).id == nid(i),
        ensures
            final(self).log.events@.len() >= old(self).log.events@.len(),
            final(self).log.events@.subrange(0, old(self).log.events@.len() as int) == old(self).log.events@,
            link_records(
                old(self).nodes@,
                ts,
                final(self).log.events@.subrange(
                    old(self).log.events@.len() as int,
                    final(self).log.events@.len() as int,
                ),
            ),
            links_in_order(
                final(self).log.events@.subrange(
                    old(self).log.events@.len() as int,
                    final(self).log.events@.len() as int,
                ),
            ),
            same_but_log(final(self), old(self)),
    {
        let ghost log0 = self.log.events@;
        let ghost nodes = self.nodes@;
        let n = self.nodes.len();
        let mut i: usize = 0;
        while i < n
            invariant
                n == self.nodes@.len(),
                nodes == self.nodes@,
                same_but_log(self, old(self)),
                n <= u32::MAX,
                forall|q: int| 0 <= q < n ==> (#[trigger] nodes[q]).id == nid(q),
                i <= n,
                self.log.events@.len() >= log0.len(),
                self.log.events@.subrange(0, log0.len() as int) == log0,
                forall|k: int|
                    log0.len() <= k < self.log.events@.len() ==> match #[trigger] self.log.events@[k] {
                        LogEvent::AddLink { timestamp, begin, end } => timestamp == ts && link_pair(
                            nodes,
                            begin,
                            end,
                        ),
                        _ => false,
                    },
                forall|b: NodeId, e: NodeId|
                    #[trigger] link_pair(nodes, b, e) && b <= i ==> self.log.events@.subrange(
                        log0.len() as int,
                        self.log.events@.len() as int,
                    ).contains(LogEvent::AddLink { timestamp: ts, begin: b, end: e }),
                links_in_order(self.log.events@.subrange(log0.len() as int, self.log.events@.len() as int)),
                forall|k: int|
                    log0.len() <= k < self.log.events@.len() ==> match #[trigger] self.log.events@[k] {
                        LogEvent::AddLink { begin, .. } => begin <= i,
                        _ => false,
                    },
            decreases n - i,
        {
            let id = self.nodes[i].id;
            let nbrs = self.nodes[i].neighbors_sorted();
            let mut k: usize = 0;
            while k < nbrs.len()
                invariant
                    n == self.nodes@.len(),
                    nodes == self.nodes@,
                    same_but_log(self, old(self)),
                    n <= u32::MAX,
                    forall|q: int| 0 <= q < n ==> (#[trigger] nodes[q]).id == nid(q),
                    i < n,
                    id == nid(i as int),
                    forall|y: NodeId| #[trigger] nbrs@.contains(y) <==> neighbor_seq(&nodes[i as int]).contains(y),
                    k <= nbrs@.len(),
                    self.log.events@.len() >= log0.len(),
                    self.log.events@.subrange(0, log0.len() as int) == log0,
                    forall|m: int|
                        log0.len() <= m < self.log.events@.len() ==> match #[trigger] self.log.events@[m] {
                            LogEvent::AddLink { timestamp, begin, end } => timestamp == ts && link_pair(
                                nodes,
                                begin,
                                end,
                            ),
                            _ => false,
                        },
                    forall|b: NodeId, e: NodeId|
                        #[trigger] link_pair(nodes, b, e) && (b <= i || (b == i + 1 && exists|w: int|
                            0 <= w < k && nbrs@[w] == e)) ==> self.log.events@.subrange(
                            log0.len() as int,
                            self.log.events@.len() as int,
                        ).contains(LogEvent::AddLink { timestamp: ts, begin: b, end: e }),
                    crate::routing::strictly_increasing(nbrs@),
                    links_in_order(self.log.events@.subrange(log0.len() as int, self.log.events@.len() as int)),
                    forall|m: int|
                        log0.len() <= m < self.log.events@.len() ==> match #[trigger] self.log.events@[m] {
                            LogEvent::AddLink { begin, end, .. } => begin <= i || (begin == i + 1 && (k
                                < nbrs@.len() ==> end < nbrs@[k as int])),
                            _ => false,
                        },
                decreases nbrs@.len() - k,
            {
                let nbr = nbrs[k];
                let ghost before = self.log.events@;
                if id < nbr {
                    self.log.push(ev_add_link(ts, id, nbr));
                    proof {
                        assert(nbrs@.contains(nbr));
                        assert(link_pair(nodes, id, nbr));
                    }
                }
                proof {
                    let after = self.log.events@;
                    assert(after.subrange(0, log0.len() as int) =~= log0);
                    let r0 = before.subrange(log0.len() as int, before.len() as int);
                    let r1 = after.subrange(log0.len() as int, after.len() as int);
                    assert forall|a: int, b: int| 0 <= a < b < r1.len() implies link_before(
                        #[trigger] r1[a],
                        #[trigger] r1[b],
                    ) by {
                        assert(r1[a] == after[log0.len() + a]);
                        if b < r0.len() {
                            assert(r1[a] == r0[a] && r1[b] == r0[b]);
                        } else {
                            assert(before[log0.len() + a] == r0[a]);
                        }
                    }
                    assert forall|m: int|
                        log0.len() <= m < after.len() implies match #[trigger] after[m] {
                            LogEvent::AddLink { begin, end, .. } => begin <= i || (begin == i + 1 && (k + 1
                                < nbrs@.len() ==> end < nbrs@[k + 1])),
                            _ => false,
                        } by {
                        if m < before.len() {
                            assert(after[m] == before[m]);
                        }
                    }
                    assert forall|b: NodeId, e: NodeId|
                        #[trigger] link_pair(nodes, b, e) && (b <= i || (b == i + 1 && exists|w: int|
                            0 <= w < k + 1 && nbrs@[w] == e)) implies after.subrange(
                            log0.len() as int,
                            after.len() as int,
                        ).contains(LogEvent::AddLink { timestamp: ts, begin: b, end: e }) by {
                        let rs0 = before.subrange(log0.len() as int, before.len() as int);
                        let rs1 = after.subrange(log0.len() as int, after.len() as int);
                        let target = LogEvent::AddLink { timestamp: ts, begin: b, end: e };
                        if b <= i || (b == i + 1 && exists|w: int| 0 <= w < k && nbrs@[w] == e) {
                            let w = choose|w: int| 0 <= w < rs0.len() && rs0[w] == target;
                            assert(rs1[w] == target);
                        } else {
                            let w = choose|w: int| 0 <= w < k + 1 && nbrs@[w] == e;
                            if w < k {
                                assert(exists|w: int| 0 <= w < k && nbrs@[w] == e);
                            } else {
                                assert(e == nbr);
                                assert(rs1[rs1.len() - 1] == target);
                            }
                        }
                    }
                }
                k += 1;
            }
            proof {
                assert forall|b: NodeId, e: NodeId|
                    #[trigger] link_pair(nodes, b, e) && b <= i + 1 implies self.log.events@.subrange(
                        log0.len() as int,
                        self.log.events@.len() as int,
                    ).contains(LogEvent::AddLink { timestamp: ts, begin: b, end: e }) by {
                    if b == i + 1 {
                        assert(neighbor_seq(&nodes[i as int]).contains(e));
                        assert(nbrs@.contains(e));
                        let w = choose|w: int| 0 <= w < nbrs@.len() && nbrs@[w] == e;
                        assert(exists|w: int| 0 <= w < nbrs@.len() && nbrs@[w] == e);
                    }
                }
            }
            i += 1;
        }
        proof {
            let recs = self.log.events@.subrange(log0.len() as int, self.log.events@.len() as int);
            assert forall|k: int| 0 <= k < recs.len() implies match #[trigger] recs[k] {
                LogEvent::AddLink { timestamp, begin, end } => timestamp == ts && link_pair(nodes, begin, end),
                _ => false,
            } by {
                assert(recs[k] == self.log.events@[log0.len() + k]);
            }
            assert forall|b: NodeId, e: NodeId| #[trigger] link_pair(nodes, b, e) implies recs.contains(
                LogEvent::AddLink { timestamp: ts, begin: b, end: e },
            ) by {
                assert(b <= n);
            }
        }
    }
}

impl Simulation {
    /// Creates the genesis block, minted by a node drawn by mining power, and requests the
    /// minter's first mining draw and its `inv` draws.
    fn bootstrap_genesis(&mut self, rng: &mut ChaCha8Rng) -> (reqs: Vec<SampleRequest>)
        requires
            old(self).wf(),
            old(self).store@.len() == 0,
            !old(self).finished,
            forall|i: int| 0 <= i < old(self).n() ==> (#[trigger] old(self).nodes@[i]).tip is None,
            old(self).propagation@.len() == 0,
        ensures
            final(self).wf(),
            ({
                let minter = final(self).store@[0].minter;
                let total = power_prefix(old(self).nodes@, old(self).n() as int);
                &&& final(self).store@.len() == 1
                &&& final(self).store@[0].parent is None
                &&& final(self).store@[0].height == 0
                &&& final(self).store@[0].time_ms == 0
                &&& final(self).store@[0].difficulty@ == 0
                &&& final(self).store@[0].total_difficulty@ == 0
                &&& final(self).store@[0].next_difficulty@ == total * old(self).sim.target_block_interval_ms
                &&& (total == 0 ==> minter == old(self).nodes@[0].id)
                &&& (total > 0 ==> exists|r: nat|
                    #![trigger weighted_pick(old(self).nodes@, r)]
                    r < total && minter == old(self).nodes@[weighted_pick(old(self).nodes@, r)].id)
                &&& old(self).has_node(minter)
                &&& only_tip_set(old(self).nodes@, final(self).nodes@, minter - 1, BlockId(0))
                &&& final(self).propagation@ == seq![(BlockId(0), seq![(minter, 0u64)])]
                &&& final(self).log.events@ == old(self).log.events@.push(
                    LogEvent::AddBlock { timestamp: 0, node: minter, block_id: 0 },
                )
                &&& reqs@ == seq![final(self).mining_request(minter, BlockId(0))] + final(self).inv_requests(
                    minter,
                    BlockId(0),
                )
            }),
            final(self).requests_ok(reqs@),
            final(self).sim == old(self).sim,
            final(self).net == old(self).net,
            final(self).now_ms == old(self).now_ms,
            final(self).queue == old(self).queue,
            final(self).finished == old(self).finished,
            final(self).mint_stop_layer == old(self).mint_stop_layer,
            final(self).graph_snapshot_heights == old(self).graph_snapshot_heights,
            final(self).propagation.cap() == old(self).propagation.cap(),
    {
        let ghost pre = *self;
        let minter = pick_genesis_minter(rng, &self.nodes);
        proof {
            let total = power_prefix(pre.nodes@, pre.n() as int);
            if total > 0 {
                let r = choose|r: nat|
                    #![trigger weighted_pick(pre.nodes@, r)]
                    r < total && minter == pre.nodes@[weighted_pick(pre.nodes@, r)].id;
                lemma_pick_from_range(pre.nodes@, r, 0);
                assert(pre.node_ok(weighted_pick(pre.nodes@, r)));
            } else {
                assert(pre.node_ok(0));
            }
        }
        let total_pow = total_mining_power(&self.nodes);
        let next_d = work_target_for_genesis(total_pow, self.sim.target_block_interval_ms);
        let gen = BlockRecord {
            parent: None,
            height: 0,
            time_ms: 0,
            minter,
            difficulty: Work::zero(),
            total_difficulty: Work::zero(),
            next_difficulty: next_d,
        };
        let gid = self.store.insert(gen);
        self.propagation.record(gid, minter, 0);
        let mi = self.idx(minter);
        self.nodes[mi].tip = Some(gid);
        self.log.push(ev_add_block(0, minter, gid.0));
        proof {
            assert(self.propagation@ =~= seq![(BlockId(0), seq![(minter, 0u64)])]);
            assert forall|k: int| 0 <= k < self.n() implies #[trigger] self.node_ok(k) by {
                assert(pre.node_ok(k));
                let nd = self.nodes@[k];
                assert(nd.block_send_queue@ == pre.nodes@[k].block_send_queue@);
                assert forall|q: int| 0 <= q < nd.block_send_queue@.len() implies self.job_ok(
                    #[trigger] nd.block_send_queue@[q],
                ) by {
                    assert(pre.job_ok(nd.block_send_queue@[q]));
                }
            }
            assert forall|k: int| 0 <= k < self.queue.entries().len() implies (#[trigger] self.queue.entries()[k]).inner.refs_ok(
                self.n(),
                self.nb(),
            ) && self.queue.entries()[k].at_ms >= self.now_ms by {
                assert(pre.queue.entries()[k].inner.refs_ok(pre.n(), pre.nb()));
            }
        }
        let mut reqs: Vec<SampleRequest> = Vec::new();
        let mi2 = self.idx(minter);
        reqs.push(SampleRequest::MiningDelay { node: minter, parent: gid, mining_power: self.nodes[mi2].mining_power });
        let mut invs = self.inv_requests_for(minter, gid);
        reqs.append(&mut invs);
        proof {
            assert(reqs@ =~= seq![self.mining_request(minter, BlockId(0))] + self.inv_requests(minter, BlockId(0)));
            assert forall|k: int| 0 <= k < reqs@.len() implies self.request_ok(#[trigger] reqs@[k]) by {
                if k > 0 {
                    let nbrs = neighbor_seq(&self.node(minter));
                    let nd = self.node(minter);
                    assert(self.node_ok(mi as int));
                    if k - 1 < nd.outbound@.len() {
                        assert(nbrs[k - 1] == nd.outbound@[k - 1]);
                    } else {
                        assert(nbrs[k - 1] == nd.inbound@[k - 1 - nd.outbound@.len()]);
                    }
                    assert(self.node_ok(nbrs[k - 1] - 1));
                }
            }
        }
        reqs
    }
}

impl Simulation {
    /// Builds the simulation from the per-node draws (`inits[i]` and `mining_powers[i]` are those
    /// of node `i + 1`): wires the outbound links from `rng`, logs the nodes and the links at time
    /// 0, creates the genesis block, its minter drawn from `rng` by mining power, and returns the
    /// draws that the minter's first mining round and its `inv` messages need.
    pub fn new(
        sim: SimulationConfig,
        net: NetworkConfig,
        inits: Vec<NodeInit>,
        mining_powers: Vec<u64>,
        rng: &mut ChaCha8Rng,
    ) -> (r: (Simulation, Vec<SampleRequest>))
        requires
            net.wf(),
            1 <= inits@.len() <= u32::MAX,
            inits@.len() == sim.num_nodes,
            mining_powers@.len() == inits@.len(),
            forall|i: int| 0 <= i < inits@.len() ==> (#[trigger] inits@[i]).region < net.num_regions(),
            sim.end_block_height < u32::MAX,
        ensures
            r.0.wf(),
            r.0.sim == sim,
            r.0.net == net,
            r.0.now_ms == 0,
            !r.0.finished,
            r.0.mint_stop_layer == 1,
            r.0.graph_snapshot_heights@.len() == 0,
            r.0.queue.entries().len() == 0,
            r.0.queue.tombstones().len() == 0,
            r.0.n() == inits@.len(),
            forall|i: int|
                0 <= i < inits@.len() ==> {
                    let nd = #[trigger] r.0.nodes@[i];
                    &&& nd.id == nid(i)
                    &&& nd.region == inits@[i].region
                    &&& nd.mining_power == mining_powers@[i]
                    &&& nd.use_cbr == inits@[i].use_cbr
                    &&& nd.is_churn == inits@[i].is_churn
                    &&& nd.max_outbound == inits@[i].max_outbound
                    &&& nd.tip == (if nd.id == r.0.store@[0].minter { Some(BlockId(0)) } else { None })
                    &&& nd.pending_mining is None
                    &&& nd.orphans@.len() == 0
                    &&& nd.block_send_queue@.len() == 0
                    &&& !nd.sending_block
                    &&& nd.downloading@.len() == 0
                },
            links_wf(outs(r.0.nodes@), ins(r.0.nodes@)),
            forall|i: int| 0 <= i < r.0.n() ==> links_distinct(#[trigger] &r.0.nodes@[i]),
            caps_ok(outs(r.0.nodes@), caps(r.0.nodes@)),
            forall|i: int|
                0 <= i < r.0.n() ==> #[trigger] saturated(outs(r.0.nodes@), ins(r.0.nodes@), caps(r.0.nodes@), i),
            random_wiring(
                no_links(r.0.n() as nat),
                no_links(r.0.n() as nat),
                caps(r.0.nodes@),
                rows(outs(r.0.nodes@)),
                rows(ins(r.0.nodes@)),
            ),
            ({
                let g = r.0.store@[0];
                let total = power_prefix(r.0.nodes@, r.0.n() as int);
                &&& r.0.store@.len() == 1
                &&& g.parent is None
                &&& g.height == 0
                &&& g.time_ms == 0
                &&& g.difficulty@ == 0
                &&& g.total_difficulty@ == 0
                &&& g.next_difficulty@ == total * sim.target_block_interval_ms
                &&& (total == 0 ==> g.minter == 1)
                &&& (total > 0 ==> exists|w: nat|
                    #![trigger weighted_pick(r.0.nodes@, w)]
                    w < total && g.minter == nid(weighted_pick(r.0.nodes@, w)))
                &&& r.0.has_node(g.minter)
                &&& r.0.propagation@ == seq![(BlockId(0), seq![(g.minter, 0u64)])]
                &&& r.0.propagation.cap() == OBSERVED_PROPAGATION_BLOCK_LIMIT
            }),
            ({
                let ev = r.0.log.events@;
                let n = inits@.len() as int;
                &&& ev.len() >= n + 1
                &&& ev.subrange(0, n) == Seq::new(
                    n as nat,
                    |i: int| LogEvent::AddNode { timestamp: 0, node: nid(i), region: inits@[i].region },
                )
                &&& link_records(r.0.nodes@, 0, ev.subrange(n, ev.len() - 1))
                &&& links_in_order(ev.subrange(n, ev.len() - 1))
                &&& ev.last() == LogEvent::AddBlock { timestamp: 0, node: r.0.store@[0].minter, block_id: 0 }
            }),
            r.1@ == seq![r.0.mining_request(r.0.store@[0].minter, BlockId(0))] + r.0.inv_requests(
                r.0.store@[0].minter,
                BlockId(0),
            ),
            r.0.requests_ok(r.1@),
            log_ordered(&r.0),
            sends_ok(&r.0, r.1@),
    {
        let n = inits.len();
        let mut max_out: Vec<usize> = Vec::new();
        let mut out: Vec<Vec<NodeId>> = Vec::new();
        let mut inn: Vec<Vec<NodeId>> = Vec::new();
        let mut i: usize = 0;
        while i < n
            invariant
                n == inits@.len(),
                i <= n,
                max_out@.len() == i,
                out@.len() == i,
                inn@.len() == i,
                forall|k: int| 0 <= k < i ==> #[trigger] max_out@[k] == inits@[k].max_outbound,
                forall|k: int| 0 <= k < i ==> (#[trigger] out@[k])@.len() == 0,
                forall|k: int| 0 <= k < i ==> (#[trigger] inn@[k])@.len() == 0,
            decreases n - i,
        {
            max_out.push(inits[i].max_outbound);
            out.push(Vec::new());
            inn.push(Vec::new());
            i += 1;
        }
        proof {
            assert forall|k: int| 0 <= k < n implies #[trigger] rows(out@)[k] =~= no_links(n as nat)[k]
                && rows(inn@)[k] =~= no_links(n as nat)[k] by {
                assert(out@[k]@.len() == 0 && inn@[k]@.len() == 0);
            }
            assert(rows(out@) =~= no_links(n as nat));
            assert(rows(inn@) =~= no_links(n as nat));
        }
        init_outbound_links(rng, max_out.as_slice(), &mut out, &mut inn);
        let ghost out1 = out@;
        let ghost inn1 = inn@;
        let mut log = EventLog::new();
        let nodes = build_nodes(&inits, &mining_powers, out, inn, &mut log);
        let ghost log_nodes = log.events@;
        proof {
            assert(outs(nodes@) =~= out1);
            assert(ins(nodes@) =~= inn1);
            assert(caps(nodes@) =~= max_out@);
        }
        let mut s = Simulation {
            sim,
            net,
            now_ms: 0,
            queue: EventQueue::new(),
            store: BlockStore::new(),
            nodes,
            propagation: PropagationTracker::with_capacity(OBSERVED_PROPAGATION_BLOCK_LIMIT),
            log,
            finished: false,
            mint_stop_layer: 1,
            graph_snapshot_heights: Vec::new(),
        };
        s.log_links_at_time(0);
        let ghost pre = s;
        proof {
            assert forall|k: int| 0 <= k < s.n() implies #[trigger] s.node_ok(k) by {
                let nd = s.nodes@[k];
                assert(row_ok(out1[k]@, n as nat, k));
                assert(row_ok(inn1[k]@, n as nat, k));
                assert forall|q: int| 0 <= q < nd.outbound@.len() implies s.has_node(#[trigger] nd.outbound@[q]) by {
                    assert(1 <= out1[k]@[q] <= n);
                }
                assert forall|q: int| 0 <= q < nd.inbound@.len() implies s.has_node(#[trigger] nd.inbound@[q]) by {
                    assert(1 <= inn1[k]@[q] <= n);
                }
            }
            assert(parents_precede(s.store@));
            assert(heights_consistent(s.store@));
        }
        let reqs = s.bootstrap_genesis(rng);
        proof {
            let g = s.store@[0];
            assert(outs(s.nodes@) =~= outs(pre.nodes@));
            assert(ins(s.nodes@) =~= ins(pre.nodes@));
            assert(caps(s.nodes@) =~= caps(pre.nodes@));
            lemma_same_powers(pre.nodes@, s.nodes@);
            assert forall|b: NodeId, e: NodeId| link_pair(s.nodes@, b, e) == link_pair(pre.nodes@, b, e) by {
                if 1 <= b <= s.n() {
                    assert(neighbor_seq(&s.nodes@[b - 1]) == neighbor_seq(&pre.nodes@[b - 1]));
                }
            }
            let ev = s.log.events@;
            let nn = n as int;
            let links = pre.log.events@.subrange(nn, pre.log.events@.len() as int);
            assert(ev.subrange(0, nn) =~= log_nodes);
            assert(ev.subrange(nn, ev.len() - 1) =~= links);
            assert(link_records(s.nodes@, 0, links));
            let total = power_prefix(pre.nodes@, pre.n() as int);
            if total > 0 {
                let w = choose|w: nat|
                    #![trigger weighted_pick(pre.nodes@, w)]
                    w < total && g.minter == pre.nodes@[weighted_pick(pre.nodes@, w)].id;
                lemma_pick_from_range(pre.nodes@, w, 0);
                assert(weighted_pick(s.nodes@, w) == weighted_pick(pre.nodes@, w));
            }
            assert forall|i: int| 0 <= i < inits@.len() implies {
                let nd = #[trigger] s.nodes@[i];
                nd.tip == (if nd.id == g.minter { Some(BlockId(0)) } else { None })
            } by {
                assert(pre.nodes@[i].tip is None);
            }
            assert forall|i: int| 0 <= i < s.n() implies links_distinct(#[trigger] &s.nodes@[i]) by {
                let o = s.nodes@[i].outbound@;
                let p = s.nodes@[i].inbound@;
                assert(outs(s.nodes@)[i] == s.nodes@[i].outbound);
                assert(ins(s.nodes@)[i] == s.nodes@[i].inbound);
                assert(row_ok(o, s.n(), i));
                assert(row_ok(p, s.n(), i));
                assert forall|a: int, b: int| 0 <= a < o.len() && 0 <= b < o.len() && a != b implies o[a] != o[b] by {
                    if a < b {
                        assert(o[a] != o[b]);
                    } else {
                        assert(o[b] != o[a]);
                    }
                }
                assert forall|a: int, b: int| 0 <= a < p.len() && 0 <= b < p.len() && a != b implies p[a] != p[b] by {
                    if a < b {
                        assert(p[a] != p[b]);
                    } else {
                        assert(p[b] != p[a]);
                    }
                }
                assert forall|a: int, b: int| 0 <= a < o.len() && 0 <= b < p.len() implies o[a] != p[b] by {
                    assert(o.contains(o[a]));
                    if o[a] == p[b] {
                        assert(p.contains(p[b]));
                    }
                }
            }
            let rq = reqs@;
            let invs = s.inv_requests(g.minter, BlockId(0));
            assert(rq == seq![s.mining_request(g.minter, BlockId(0))] + invs);
            assert forall|k: int| 0 <= k < rq.len() implies !(#[trigger] rq[k] is BlockPayload) && !carries_payload(
                rq[k],
            ) by {
                if k > 0 {
                    assert(rq[k] == invs[k - 1]);
                }
            }
            assert forall|i: int| #![trigger s.nodes@[i]] 0 <= i < s.nodes@.len() implies in_flight(
                &s,
                rq,
                s.nodes@[i].id,
            ) == (if s.nodes@[i].sending_block {
                1nat
            } else {
                0nat
            }) by {
                assert(pre.nodes@[i].sending_block == s.nodes@[i].sending_block);
                assert forall|k: int| 0 <= k < rq.len() implies !payload_draw_for(#[trigger] rq[k], s.nodes@[i].id) by {
                    assert(!(rq[k] is BlockPayload));
                }
                lemma_draws_none(rq, s.nodes@[i].id);
                assert(queued_payloads(s.queue.entries(), s.nodes@[i].id) == 0);
            }
            assert forall|x: u64| #[trigger] s.queue.is_cancelled(x) implies x <= s.queue.last_seq() by {}
            assert forall|q: int|
                0 <= q < s.nodes@.len() && (#[trigger] s.nodes@[q]).pending_mining is Some implies pending_seq(s.nodes@[q])
                <= s.queue.last_seq() by {
                assert(pre.nodes@[q].pending_mining is None);
            }
            assert forall|q: int| 0 <= q < ev.len() implies event_time(#[trigger] ev[q]) == 0 by {
                if q < nn {
                    assert(ev[q] == ev.subrange(0, nn)[q]);
                } else if q < ev.len() - 1 {
                    assert(ev[q] == links[q - nn]);
                } else {
                    assert(ev[q] == ev.last());
                }
            }
        }
        (s, reqs)
    }
}

impl Simulation {
    /// Height of node `i`'s tip (0 when it has none).
    pub open spec fn tip_height(&self, i: int) -> u32 {
        match self.nodes@[i].tip {
            Some(b) => if self.store.has(b) {
                self.store.rec(b).height
            } else {
                0
            },
            None => 0,
        }
    }

    /// Simulated clock (ms) after the last processed event.
    pub fn clock_ms(&self) -> (t: u64)
        ensures
            t == self.now_ms,
    {
        self.now_ms
    }

    /// Number of pending discrete events (cancelled ones included until they are popped).
    pub fn pending_events(&self) -> (n: usize)
        ensures
            n == self.queue.entries().len(),
    {
        self.queue.len()
    }

    /// Layer milestone used with the configured end height to stop the run.
    pub fn mint_stop_layer(&self) -> (l: u32)
        ensures
            l == self.mint_stop_layer,
    {
        self.mint_stop_layer
    }

    /// Number of blocks in the store (genesis, chain, orphans).
    pub fn block_store_len(&self) -> (n: usize)
        ensures
            n == self.store@.len(),
    {
        self.store.len()
    }

    /// Whether another block can be stored (identifiers are `u64`): the condition for [`Self::step`].
    pub fn store_has_room(&self) -> (b: bool)
        ensures
            b == (self.store@.len() < u64::MAX),
    {
        (self.store.len() as u64) < u64::MAX
    }

    /// Maximum block height among all node tips (genesis is height 0).
    pub fn max_tip_height(&self) -> (h: u32)
        ensures
            forall|i: int| 0 <= i < self.n() ==> #[trigger] self.tip_height(i) <= h,
            h == 0 || exists|i: int| 0 <= i < self.n() && #[trigger] self.tip_height(i) == h,
    {
        let mut h: u32 = 0;
        let mut i: usize = 0;
        while i < self.nodes.len()
            invariant
                i <= self.n(),
                forall|k: int| 0 <= k < i ==> #[trigger] self.tip_height(k) <= h,
                h == 0 || exists|k: int| 0 <= k < i && #[trigger] self.tip_height(k) == h,
            decreases self.n() - i,
        {
            if let Some(b) = self.nodes[i].tip {
                if let Some(r) = self.store.get(b) {
                    if r.height > h {
                        h = r.height;
                        assert(self.tip_height(i as int) == h);
                    }
                }
            }
            i += 1;
        }
        h
    }
}

/// Two node lists with the same mining powers have the same cumulative powers and the same
/// weighted picks.
proof fn lemma_same_powers(a: Seq<NodeState>, b: Seq<NodeState>)
    requires
        a.len() == b.len(),
        forall|i: int| 0 <= i < a.len() ==> (#[trigger] a[i]).mining_power == b[i].mining_power,
    ensures
        forall|k: int| 0 <= k <= a.len() ==> #[trigger] power_prefix(a, k) == power_prefix(b, k),
        forall|w: nat| #[trigger] weighted_pick(a, w) == weighted_pick(b, w),
{
    assert forall|k: int| 0 <= k <= a.len() implies #[trigger] power_prefix(a, k) == power_prefix(b, k) by {
        lemma_power_prefix_same(a, b, k);
    }
    assert forall|w: nat| #[trigger] weighted_pick(a, w) == weighted_pick(b, w) by {
        lemma_pick_from_same(a, b, w, 0);
    }
}

proof fn lemma_power_prefix_same(a: Seq<NodeState>, b: Seq<NodeState>, k: int)
    requires
        a.len() == b.len(),
        0 <= k <= a.len(),
        forall|i: int| 0 <= i < a.len() ==> (#[trigger] a[i]).mining_power == b[i].mining_power,
    ensures
        power_prefix(a, k) == power_prefix(b, k),
    decreases k,
{
    if k > 0 {
        lemma_power_prefix_same(a, b, k - 1);
        assert(a[k - 1].mining_power == b[k - 1].mining_power);
    }
}

proof fn lemma_pick_from_same(a: Seq<NodeState>, b: Seq<NodeState>, w: nat, k: int)
    requires
        a.len() == b.len(),
        0 <= k,
        forall|i: int| 0 <= i < a.len() ==> (#[trigger] a[i]).mining_power == b[i].mining_power,
    ensures
        pick_from(a, w, k) == pick_from(b, w, k),
    decreases a.len() - k,
{
    if k < a.len() - 1 {
        lemma_power_prefix_same(a, b, k + 1);
        lemma_pick_from_same(a, b, w, k + 1);
    }
}

/// Only node `i`'s tip changed, to `Some(b)`.
pub open spec fn only_tip_set(a: Seq<NodeState>, b: Seq<NodeState>, i: int, blk: BlockId) -> bool {
    &&& a.len() == b.len()
    &&& 0 <= i < a.len()
    &&& forall|k: int| 0 <= k < a.len() && k != i ==> #[trigger] b[k] == a[k]
    &&& same_static(a[i], b[i])
    &&& b[i].tip == Some(blk)
    &&& b[i].orphans == a[i].orphans
    &&& b[i].pending_mining == a[i].pending_mining
    &&& b[i].block_send_queue == a[i].block_send_queue
    &&& b[i].sending_block == a[i].sending_block
    &&& b[i].downloading == a[i].downloading
}

} // verus!
