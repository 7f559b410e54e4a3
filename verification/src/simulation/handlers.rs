//! Event handlers: mining completion, gossip (inv/rec/getblocktxn) and block payload arrival.
use super::chain::{block_extends_from, extends_from, is_on_same_chain, on_same_chain};
use super::event_queue::EventQueue;
use super::node::{block_list_contains, block_list_remove, neighbor_seq, BlockSendJob, BlockSendKind, NodeState};
use super::progress::{
    lemma_decoded, lemma_handled, lemma_log_ordered_kept, lemma_log_push, lemma_log_same, lemma_popped,
    lemma_progress_refl, lemma_progress_trans, lemma_scheduled, lemma_small_step, log_ordered, progress,
};
use super::propagation::record_spec;
use super::sending::{
    lemma_decoded_sends, lemma_drained_sends, lemma_scheduled_payload_sends, lemma_step_sends, lemma_scheduled_plain_sends, payload_draw_for, sends_ok,
};
use super::{same_static, PayloadSize, RunStats, SampleRequest, Simulation};
use crate::block::BlockRecord;
use crate::consensus::{pow_valid, validate_pow_received};
use crate::event::{BlockPayloadKind, SimEvent};
use crate::output::{ev_add_block, LogEvent};
use crate::types::{BlockId, NodeId};
use vstd::prelude::*;

verus! {

/// Clock, configuration, blocks, run status and snapshot labels agree.
pub open spec fn same_globals(a: &Simulation, b: &Simulation) -> bool {
    &&& a.sim == b.sim
    &&& a.net == b.net
    &&& a.now_ms == b.now_ms
    &&& a.store == b.store
    &&& a.finished == b.finished
    &&& a.mint_stop_layer == b.mint_stop_layer
    &&& a.graph_snapshot_heights == b.graph_snapshot_heights
}

/// Only node `i` may differ, and only in its run-time fields.
pub open spec fn only_node_changed(a: Seq<NodeState>, b: Seq<NodeState>, i: int) -> bool {
    &&& a.len() == b.len()
    &&& 0 <= i < a.len()
    &&& forall|k: int| 0 <= k < a.len() && k != i ==> #[trigger] b[k] == a[k]
    &&& same_static(a[i], b[i])
}

/// The queue holds the same entries and counter; tombstones may differ.
pub open spec fn same_queue_entries(a: &EventQueue, b: &EventQueue) -> bool {
    &&& a.entries() == b.entries()
    &&& a.last_seq() == b.last_seq()
}

impl Simulation {
    /// The stored record of the tip `t`, if it names a stored block.
    pub open spec fn tip_rec(&self, t: Option<BlockId>) -> Option<BlockRecord> {
        match t {
            Some(id) => if self.store.has(id) {
                Some(self.store.rec(id))
            } else {
                None
            },
            None => None,
        }
    }

    /// Node `node` takes `block` as its new tip: the block is stored, is not already its tip,
    /// passes proof-of-work validation against the current tip, and carries more total work.
    pub open spec fn adopts(&self, node: NodeId, block: BlockId) -> bool {
        let t = self.node(node).tip;
        &&& self.store.has(block)
        &&& t != Some(block)
        &&& pow_valid(
            &self.store.rec(block),
            match self.tip_rec(t) {
                Some(r) => Some(&r),
                None => None,
            },
            &self.store,
        )
        &&& match self.tip_rec(t) {
            Some(cur) => cur.total_difficulty@ < self.store.rec(block).total_difficulty@,
            None => true,
        }
    }

    /// The previous tip that `node` orphans when it adopts `block`: one that `block` does not
    /// extend.
    pub open spec fn orphaned_tip(&self, node: NodeId, block: BlockId) -> Option<BlockId> {
        match self.node(node).tip {
            Some(o) => if o != block && !extends_from(self.store@, block, o) {
                Some(o)
            } else {
                None
            },
            None => None,
        }
    }

    /// Propagation delay of `block` at the current time (0 if the block is from the future).
    pub open spec fn delay_of(&self, block: BlockId) -> u64 {
        let t = self.store.rec(block).time_ms;
        if self.now_ms >= t {
            (self.now_ms - t) as u64
        } else {
            0
        }
    }

    /// The draws that follow an adoption: mining on top of the block, then one `inv` per
    /// neighbor (none once the run has finished).
    pub open spec fn adopt_requests(&self, node: NodeId, block: BlockId) -> Seq<SampleRequest> {
        if self.finished {
            Seq::empty()
        } else {
            seq![self.mining_request(node, block)] + self.inv_requests(node, block)
        }
    }
}

/// What [`Simulation::apply_new_block_to_node`] does: nothing unless the node adopts the block;
/// otherwise the node moves its tip (orphaning a tip the block does not extend), drops its
/// pending mining, stops downloading the block, and the adoption is recorded and logged.
pub open spec fn adopt_post(
    pre: &Simulation,
    post: &Simulation,
    node: NodeId,
    block: BlockId,
    reqs: Seq<SampleRequest>,
) -> bool {
    if !pre.adopts(node, block) {
        &&& *post == *pre
        &&& reqs.len() == 0
    } else {
        let i = node - 1;
        let a = pre.nodes@[i];
        let b = post.nodes@[i];
        &&& only_node_changed(pre.nodes@, post.nodes@, i)
        &&& b.tip == Some(block)
        &&& b.orphans@ == match pre.orphaned_tip(node, block) {
            Some(o) => a.orphans@.push(o),
            None => a.orphans@,
        }
        &&& b.pending_mining is None
        &&& b.block_send_queue@ == a.block_send_queue@
        &&& b.sending_block == a.sending_block
        &&& forall|x: BlockId| #[trigger] b.downloading@.contains(x) <==> (a.downloading@.contains(x) && x != block)
        &&& same_queue_entries(&pre.queue, &post.queue)
        &&& forall|s: u64| #[trigger] post.queue.is_cancelled(s) <==> (pre.queue.is_cancelled(s) || match a.pending_mining {
            Some(p) => s == p.1,
            None => false,
        })
        &&& post.propagation.cap() == pre.propagation.cap()
        &&& post.propagation@ == record_spec(pre.propagation@, pre.propagation.cap(), block, node, pre.delay_of(block))
        &&& post.log.events@ == pre.log.events@.push(
            LogEvent::AddBlock { timestamp: pre.now_ms, node, block_id: block.0 },
        )
        &&& same_globals(pre, post)
        &&& reqs == pre.adopt_requests(node, block)
    }
}

impl Simulation {
    /// Mark the node's pending mining event as stale (tombstone). The entry is skipped on pop.
    fn cancel_mining_for_node(&mut self, node: NodeId)
        requires
            old(self).wf(),
            old(self).has_node(node),
        ensures
            final(self).wf(),
            only_node_changed(old(self).nodes@, final(self).nodes@, node - 1),
            ({
                let a = old(self).nodes@[node - 1];
                let b = final(self).nodes@[node - 1];
                &&& b.tip == a.tip
                &&& b.orphans == a.orphans
                &&& b.pending_mining is None
                &&& b.block_send_queue == a.block_send_queue
                &&& b.sending_block == a.sending_block
                &&& b.downloading == a.downloading
                &&& forall|s: u64| #[trigger] final(self).queue.is_cancelled(s) <==> (old(self).queue.is_cancelled(s)
                    || match a.pending_mining {
                    Some(p) => s == p.1,
                    None => false,
                })
            }),
            same_queue_entries(&old(self).queue, &final(self).queue),
            same_globals(old(self), final(self)),
            final(self).propagation == old(self).propagation,
            final(self).log == old(self).log,
    {
        let i = self.idx(node);
        match self.nodes[i].pending_mining {
            Some((_, seq)) => {
                self.nodes[i].pending_mining = None;
                self.queue.cancel(seq);
                proof {
                    assert forall|k: int| 0 <= k < self.n() implies #[trigger] self.node_ok(k) by {
                        assert(old(self).node_ok(k));
                    }
                }
            },
            None => {},
        }
    }

    /// The mining draw for `node` on top of `parent`.
    fn mining_request_for(&self, node: NodeId, parent: BlockId) -> (r: SampleRequest)
        requires
            self.wf(),
            self.has_node(node),
        ensures
            r == self.mining_request(node, parent),
    {
        let i = self.idx(node);
        SampleRequest::MiningDelay { node, parent, mining_power: self.nodes[i].mining_power }
    }

    /// Flood `inv` to each neighbor: one small-message draw per hop (outbound first).
    pub(crate) fn inv_requests_for(&self, from: NodeId, block: BlockId) -> (v: Vec<SampleRequest>)
        requires
            self.wf(),
            self.has_node(from),
        ensures
            v@ == self.inv_requests(from, block),
    {
        let i = self.idx(from);
        let from_region = self.nodes[i].region;
        let nbrs = self.nodes[i].neighbors_iter();
        proof {
            assert(self.node_ok(i as int));
        }
        let mut v: Vec<SampleRequest> = Vec::new();
        let mut k: usize = 0;
        while k < nbrs.len()
            invariant
                self.wf(),
                self.has_node(from),
                i == from - 1,
                from_region == self.node(from).region,
                nbrs@ == neighbor_seq(&self.node(from)),
                k <= nbrs@.len(),
                v@ == self.inv_requests(from, block).subrange(0, k as int),
            decreases nbrs@.len() - k,
        {
            let to = nbrs[k];
            proof {
                let nd = self.node(from);
                assert(self.node_ok(i as int));
                if k < nd.outbound@.len() {
                    assert(nbrs@[k as int] == nd.outbound@[k as int]);
                } else {
                    assert(nbrs@[k as int] == nd.inbound@[k - nd.outbound@.len()]);
                }
                assert(self.has_node(to));
            }
            let to_region = self.nodes[self.idx(to)].region;
            v.push(
                SampleRequest::MessageLatency {
                    from_region,
                    to_region,
                    event: SimEvent::InvArrive { to, from, block },
                },
            );
            k += 1;
            proof {
                assert(v@ =~= self.inv_requests(from, block).subrange(0, k as int));
            }
        }
        proof {
            assert(v@ =~= self.inv_requests(from, block));
        }
        v
    }
}

impl Simulation {
    /// Adopt `block` as `node`'s tip if it is a valid, heavier extension, then mine on it and
    /// announce it to the neighbors.
    pub fn apply_new_block_to_node(&mut self, node: NodeId, block: BlockId) -> (reqs: Vec<SampleRequest>)
        requires
            old(self).wf(),
            old(self).has_node(node),
        ensures
            final(self).wf(),
            adopt_post(old(self), final(self), node, block, reqs@),
            final(self).requests_ok(reqs@),
    {
        let i = self.idx(node);
        let time_ms = {
            let rec = match self.store.get(block) {
                Some(r) => r,
                None => return Vec::new(),
            };
            let tip = self.nodes[i].tip;
            match tip {
                Some(t) => {
                    if t == block {
                        return Vec::new();
                    }
                },
                None => {},
            }
            let tip_rec = match tip {
                Some(t) => self.store.get(t),
                None => None,
            };
            if !validate_pow_received(rec, tip_rec, &self.store) {
                return Vec::new();
            }
            match tip_rec {
                Some(cur) => {
                    if !cur.total_difficulty.lt(&rec.total_difficulty) {
                        return Vec::new();
                    }
                },
                None => {},
            }
            rec.time_ms
        };
        let ghost pre = *self;
        proof {
            assert(pre.adopts(node, block));
        }
        match self.nodes[i].tip {
            Some(prev) => {
                if prev != block && !block_extends_from(&self.store, block, prev) {
                    self.nodes[i].orphans.push(prev);
                }
            },
            None => {},
        }
        proof {
            assert forall|k: int| 0 <= k < self.n() implies #[trigger] self.node_ok(k) by {
                assert(pre.node_ok(k));
            }
        }
        self.cancel_mining_for_node(node);
        self.nodes[i].tip = Some(block);
        block_list_remove(&mut self.nodes[i].downloading, block);
        let delay = if self.now_ms >= time_ms {
            self.now_ms - time_ms
        } else {
            0
        };
        self.propagation.record(block, node, delay);
        self.log.push(ev_add_block(self.now_ms, node, block.0));
        proof {
            assert forall|k: int| 0 <= k < self.n() implies #[trigger] self.node_ok(k) by {
                assert(pre.node_ok(k));
                if k != i {
                    assert(self.nodes@[k] == pre.nodes@[k]);
                }
            }
            assert(only_node_changed(pre.nodes@, self.nodes@, i as int));
        }
        if self.finished {
            return Vec::new();
        }
        let mut reqs: Vec<SampleRequest> = Vec::new();
        reqs.push(self.mining_request_for(node, block));
        let mut invs = self.inv_requests_for(node, block);
        reqs.append(&mut invs);
        proof {
            assert(self.mining_request(node, block) == pre.mining_request(node, block));
            let nd0 = pre.node(node);
            let nd1 = self.node(node);
            assert(neighbor_seq(&nd1) == neighbor_seq(&nd0));
            let nbrs = neighbor_seq(&nd0);
            assert forall|k: int| 0 <= k < nbrs.len() implies #[trigger] self.node(nbrs[k]).region == pre.node(
                nbrs[k],
            ).region by {
                assert(pre.node_ok(i as int));
                if k < nd0.outbound@.len() {
                    assert(nbrs[k] == nd0.outbound@[k]);
                } else {
                    assert(nbrs[k] == nd0.inbound@[k - nd0.outbound@.len()]);
                }
                let j = nbrs[k] - 1;
                if j != i {
                    assert(self.nodes@[j] == pre.nodes@[j]);
                }
            }
            assert(self.inv_requests(node, block) =~= pre.inv_requests(node, block));
            assert(reqs@ =~= pre.adopt_requests(node, block));
            assert forall|k: int| 0 <= k < reqs@.len() implies self.request_ok(#[trigger] reqs@[k]) by {
                if k > 0 {
                    let nbrs = neighbor_seq(&self.node(node));
                    let to = nbrs[k - 1];
                    assert(self.node_ok(i as int));
                    let nd = self.node(node);
                    if k - 1 < nd.outbound@.len() {
                        assert(nbrs[k - 1] == nd.outbound@[k - 1]);
                    } else {
                        assert(nbrs[k - 1] == nd.inbound@[k - 1 - nd.outbound@.len()]);
                    }
                    assert(self.node_ok(to - 1));
                }
            }
        }
        reqs
    }
}

/// Run-time fields of node `i` agree, except possibly its pending mining key.
pub open spec fn same_dynamic_but_pending(a: NodeState, b: NodeState) -> bool {
    &&& b.tip == a.tip
    &&& b.orphans == a.orphans
    &&& b.block_send_queue == a.block_send_queue
    &&& b.sending_block == a.sending_block
    &&& b.downloading == a.downloading
}

/// The layer counter after a block on top of a parent at `parent_height` is mined.
pub open spec fn next_layer(layer: u32, parent_height: u32) -> int {
    if parent_height == layer {
        layer + 1
    } else {
        layer as int
    }
}

/// Snapshot labels after reaching layer `c`: `2` and multiples of `100` are recorded once.
pub open spec fn next_snapshots(labels: Seq<u32>, c: u32) -> Seq<u32> {
    if (c == 2 || c % 100 == 0) && (labels.len() == 0 || labels.last() != c) {
        labels.push(c)
    } else {
        labels
    }
}

/// The block that `node` mines on top of `parent` at time `now`.
pub open spec fn mined_block(rec: BlockRecord, parent_rec: BlockRecord, parent: BlockId, node: NodeId, now: u64) -> bool {
    &&& rec.parent == Some(parent)
    &&& rec.height == parent_rec.height + 1
    &&& rec.time_ms == now
    &&& rec.minter == node
    &&& rec.difficulty@ == parent_rec.next_difficulty@
    &&& rec.total_difficulty@ == parent_rec.total_difficulty@ + parent_rec.next_difficulty@
    &&& rec.next_difficulty@ == parent_rec.next_difficulty@
}

/// What [`Simulation::on_mining_finished`] does. The node's pending mining is cleared. Unless
/// the node's tip is still `parent`, that is all. Otherwise the layer counter advances when the
/// parent sits on it; past the end height the run finishes and the queue is emptied; else the
/// block is minted (state `mid`) and offered to its miner as by [`adopt_post`].
pub open spec fn mining_post(
    pre: &Simulation,
    post: &Simulation,
    node: NodeId,
    parent: BlockId,
    reqs: Seq<SampleRequest>,
) -> bool {
    let i = node - 1;
    let prec = pre.store.rec(parent);
    let layer1 = next_layer(pre.mint_stop_layer, prec.height);
    if pre.node(node).tip != Some(parent) {
        &&& only_node_changed(pre.nodes@, post.nodes@, i)
        &&& post.nodes@[i].pending_mining is None
        &&& same_dynamic_but_pending(pre.nodes@[i], post.nodes@[i])
        &&& same_globals(pre, post)
        &&& post.queue == pre.queue
        &&& post.propagation == pre.propagation
        &&& post.log == pre.log
        &&& reqs.len() == 0
    } else if layer1 > pre.sim.end_block_height {
        &&& only_node_changed(pre.nodes@, post.nodes@, i)
        &&& post.nodes@[i].pending_mining is None
        &&& same_dynamic_but_pending(pre.nodes@[i], post.nodes@[i])
        &&& post.finished
        &&& post.mint_stop_layer == layer1
        &&& post.queue.entries().len() == 0
        &&& post.queue.tombstones().len() == 0
        &&& post.queue.last_seq() == pre.queue.last_seq()
        &&& post.sim == pre.sim
        &&& post.net == pre.net
        &&& post.now_ms == pre.now_ms
        &&& post.store == pre.store
        &&& post.graph_snapshot_heights == pre.graph_snapshot_heights
        &&& post.propagation == pre.propagation
        &&& post.log == pre.log
        &&& reqs.len() == 0
    } else {
        exists|mid: Simulation|
            {
                &&& only_node_changed(pre.nodes@, mid.nodes@, i)
                &&& mid.nodes@[i].pending_mining is None
                &&& same_dynamic_but_pending(pre.nodes@[i], mid.nodes@[i])
                &&& mid.store@.len() == pre.store@.len() + 1
                &&& mid.store@.subrange(0, pre.store@.len() as int) == pre.store@
                &&& mined_block(mid.store@.last(), prec, parent, node, pre.now_ms)
                &&& mid.mint_stop_layer == layer1
                &&& mid.graph_snapshot_heights@ == next_snapshots(pre.graph_snapshot_heights@, layer1 as u32)
                &&& mid.finished == pre.finished
                &&& mid.sim == pre.sim
                &&& mid.net == pre.net
                &&& mid.now_ms == pre.now_ms
                &&& mid.queue == pre.queue
                &&& mid.propagation == pre.propagation
                &&& mid.log == pre.log
                &&& #[trigger] adopt_post(&mid, post, node, BlockId(pre.store@.len() as u64), reqs)
            }
    }
}

/// A freshly mined block on top of the miner's tip is adopted by its miner exactly when the
/// parent asks for a positive amount of work (otherwise it carries no more total work than the
/// tip).
pub proof fn lemma_miner_adopts_own_block(s: &Simulation, node: NodeId, parent: BlockId, now: u64)
    requires
        1 <= node <= s.n(),
        1 <= s.store@.len() <= u64::MAX,
        parent.0 < s.store@.len() - 1,
        s.node(node).tip == Some(parent),
        mined_block(s.store@.last(), s.store.rec(parent), parent, node, now),
    ensures
        s.adopts(node, BlockId((s.store@.len() - 1) as u64)) <==> s.store.rec(parent).next_difficulty@ > 0,
{
    let b = BlockId((s.store@.len() - 1) as u64);
    assert(s.store.rec(b) == s.store@.last());
}

impl Simulation {
    /// Mining finished on `node` on top of `parent`: mint the block if the node still mines on
    /// that parent and the run has not reached its end height.
    pub fn on_mining_finished(&mut self, node: NodeId, parent: BlockId) -> (reqs: Vec<SampleRequest>)
        requires
            old(self).wf(),
            old(self).has_node(node),
            old(self).store.has(parent),
            old(self).store@.len() < u64::MAX,
        ensures
            final(self).wf(),
            mining_post(old(self), final(self), node, parent, reqs@),
            final(self).requests_ok(reqs@),
    {
        let ghost pre = *self;
        let i = self.idx(node);
        self.nodes[i].pending_mining = None;
        proof {
            assert forall|k: int| 0 <= k < self.n() implies #[trigger] self.node_ok(k) by {
                assert(pre.node_ok(k));
            }
        }
        match self.nodes[i].tip {
            Some(t) => {
                if t != parent {
                    return Vec::new();
                }
            },
            None => {
                return Vec::new();
            },
        }
        let (ph, parent_total, parent_next) = match self.store.get(parent) {
            Some(r) => (r.height, r.total_difficulty.clone(), r.next_difficulty.clone()),
            None => {
                return Vec::new();
            },
        };
        if ph == self.mint_stop_layer {
            self.mint_stop_layer = self.mint_stop_layer + 1;
        }
        proof {
            assert(pre.store@[parent.0 as int].height <= pre.sim.end_block_height);
            assert forall|b: int| 0 <= b < self.nb() implies (#[trigger] self.store@[b]).height <= self.mint_stop_layer
                && self.store@[b].height <= self.sim.end_block_height by {
                assert(pre.store@[b].height <= pre.mint_stop_layer);
            }
        }
        if self.mint_stop_layer > self.sim.end_block_height {
            self.finished = true;
            self.queue.clear();
            proof {
                assert forall|k: int| 0 <= k < self.n() implies #[trigger] self.node_ok(k) by {
                    assert(pre.node_ok(k));
                }
            }
            return Vec::new();
        }
        let c = self.mint_stop_layer;
        if c == 2 || c % 100 == 0 {
            let len = self.graph_snapshot_heights.len();
            if len == 0 || self.graph_snapshot_heights[len - 1] != c {
                self.graph_snapshot_heights.push(c);
            }
        }
        let difficulty = parent_next.clone();
        let total = parent_total.add(&parent_next);
        let rec = BlockRecord {
            parent: Some(parent),
            height: ph + 1,
            time_ms: self.now_ms,
            minter: node,
            difficulty,
            total_difficulty: total,
            next_difficulty: parent_next,
        };
        let bid = self.store.insert(rec);
        let ghost mid = *self;
        proof {
            let prec = pre.store.rec(parent);
            assert(mid.store@.last() == mid.store@[pre.store@.len() as int]);
            assert(mid.store@.subrange(0, pre.store@.len() as int) =~= pre.store@);
            assert forall|b: int| 0 <= b < self.nb() implies (#[trigger] self.store@[b]).height <= self.mint_stop_layer
                && self.store@[b].height <= self.sim.end_block_height by {
                if b < pre.nb() {
                    assert(self.store@[b] == pre.store@[b]);
                }
            }
            assert(parents_precede_kept(pre.store@, self.store@)) by {
                assert(self.store@ =~= pre.store@.push(self.store@.last()));
            }
            assert forall|k: int| 0 <= k < self.n() implies #[trigger] self.node_ok(k) by {
                assert(pre.node_ok(k));
                let nd = self.nodes@[k];
                if let Some(t) = nd.tip {
                    assert(pre.store.has(t) || k == i);
                }
                assert forall|q: int| 0 <= q < nd.block_send_queue@.len() implies self.job_ok(#[trigger] nd.block_send_queue@[q]) by {
                    assert(pre.job_ok(pre.nodes@[k].block_send_queue@[q]));
                }
            }
            assert forall|k: int| 0 <= k < self.queue.entries().len() implies (#[trigger] self.queue.entries()[k]).inner.refs_ok(
                self.n(),
                self.nb(),
            ) && self.queue.entries()[k].at_ms >= self.now_ms by {
                assert(pre.queue.entries()[k].inner.refs_ok(pre.n(), pre.nb()));
            }
            assert(mid.graph_snapshot_heights@ == next_snapshots(pre.graph_snapshot_heights@, c));
        }
        let reqs = self.apply_new_block_to_node(node, bid);
        proof {
            assert(adopt_post(&mid, self, node, BlockId(pre.store@.len() as u64), reqs@));
        }
        reqs
    }
}

/// The parent and height facts of `a` carry over to `b` = `a` plus one block on top of a block
/// of `a`.
pub open spec fn parents_precede_kept(a: Seq<BlockRecord>, b: Seq<BlockRecord>) -> bool {
    &&& b.len() == a.len() + 1
    &&& b.subrange(0, a.len() as int) == a
}

/// Everything agrees except the listed run-time field(s) of node `i`, which the caller states.
pub open spec fn only_node_fields_changed(pre: &Simulation, post: &Simulation, i: int) -> bool {
    &&& only_node_changed(pre.nodes@, post.nodes@, i)
    &&& same_globals(pre, post)
    &&& post.queue == pre.queue
    &&& post.propagation == pre.propagation
    &&& post.log == pre.log
}

impl Simulation {
    /// The block payload draw for sending `job` from `sender`: compact when both peers relay
    /// compact blocks, full otherwise; a `getblocktxn` answer is a full block of drawn size.
    pub open spec fn block_send_request(&self, sender: NodeId, job: BlockSendJob) -> SampleRequest {
        let s = self.node(sender);
        let r = self.node(job.requester);
        let kind = match job.kind {
            BlockSendKind::Rec => if s.use_cbr && r.use_cbr {
                BlockPayloadKind::Compact
            } else {
                BlockPayloadKind::Full
            },
            BlockSendKind::GetBlockTxn => BlockPayloadKind::Full,
        };
        let size = match job.kind {
            BlockSendKind::Rec => if s.use_cbr && r.use_cbr {
                PayloadSize::Bytes(self.sim.compact_block_size_bytes)
            } else {
                PayloadSize::Bytes(self.sim.block_size_bytes)
            },
            BlockSendKind::GetBlockTxn => PayloadSize::FailedCompact { sender_is_churn: s.is_churn },
        };
        SampleRequest::BlockPayload {
            sender,
            requester: job.requester,
            block: job.block,
            kind,
            from_region: s.region,
            to_region: r.region,
            size,
        }
    }
}

/// What [`Simulation::try_start_next_block_send`] does: if the sender is idle and has a queued
/// job, the job leaves the queue, the sender becomes busy, and its payload draw is requested.
pub open spec fn start_send_post(pre: &Simulation, post: &Simulation, sender: NodeId, reqs: Seq<SampleRequest>) -> bool {
    let i = sender - 1;
    let a = pre.nodes@[i];
    let b = post.nodes@[i];
    if a.sending_block || a.block_send_queue@.len() == 0 {
        &&& *post == *pre
        &&& reqs.len() == 0
    } else {
        &&& only_node_fields_changed(pre, post, i)
        &&& b.sending_block
        &&& b.block_send_queue@ == a.block_send_queue@.drop_first()
        &&& b.tip == a.tip
        &&& b.orphans == a.orphans
        &&& b.pending_mining == a.pending_mining
        &&& b.downloading == a.downloading
        &&& reqs == seq![pre.block_send_request(sender, a.block_send_queue@[0])]
    }
}

/// `post` is `pre` with `job` appended to node `i`'s send queue.
pub open spec fn job_queued(pre: &Simulation, post: &Simulation, i: int, job: BlockSendJob) -> bool {
    let a = pre.nodes@[i];
    let b = post.nodes@[i];
    &&& only_node_fields_changed(pre, post, i)
    &&& b.block_send_queue@ == a.block_send_queue@.push(job)
    &&& b.sending_block == a.sending_block
    &&& b.tip == a.tip
    &&& b.orphans == a.orphans
    &&& b.pending_mining == a.pending_mining
    &&& b.downloading == a.downloading
}

/// `post` is `pre` with `block` dropped from node `i`'s downloads.
pub open spec fn download_dropped(pre: &Simulation, post: &Simulation, i: int, block: BlockId) -> bool {
    let a = pre.nodes@[i];
    let b = post.nodes@[i];
    &&& only_node_fields_changed(pre, post, i)
    &&& forall|x: BlockId| #[trigger] b.downloading@.contains(x) <==> (a.downloading@.contains(x) && x != block)
    &&& b.block_send_queue == a.block_send_queue
    &&& b.sending_block == a.sending_block
    &&& b.tip == a.tip
    &&& b.orphans == a.orphans
    &&& b.pending_mining == a.pending_mining
}

impl Simulation {
    proof fn lemma_nodes_ok_kept(pre: &Simulation, post: &Simulation, i: int)
        requires
            pre.wf(),
            only_node_changed(pre.nodes@, post.nodes@, i),
            post.net == pre.net,
            post.store == pre.store,
            post.nodes@[i].tip == pre.nodes@[i].tip,
            forall|k: int|
                0 <= k < post.nodes@[i].block_send_queue@.len() ==> post.job_ok(
                    #[trigger] post.nodes@[i].block_send_queue@[k],
                ),
        ensures
            forall|k: int| 0 <= k < post.n() ==> #[trigger] post.node_ok(k),
    {
        assert forall|k: int| 0 <= k < post.n() implies #[trigger] post.node_ok(k) by {
            assert(pre.node_ok(k));
            if k != i {
                assert(post.nodes@[k] == pre.nodes@[k]);
                let nd = post.nodes@[k];
                assert forall|q: int| 0 <= q < nd.block_send_queue@.len() implies post.job_ok(
                    #[trigger] nd.block_send_queue@[q],
                ) by {
                    assert(pre.job_ok(pre.nodes@[k].block_send_queue@[q]));
                }
            }
        }
    }

    /// If not already sending, dequeue the next block payload and request its draw.
    pub fn try_start_next_block_send(&mut self, sender: NodeId) -> (reqs: Vec<SampleRequest>)
        requires
            old(self).wf(),
            old(self).has_node(sender),
        ensures
            final(self).wf(),
            start_send_post(old(self), final(self), sender, reqs@),
            final(self).requests_ok(reqs@),
    {
        let ghost pre = *self;
        let si = self.idx(sender);
        if self.nodes[si].sending_block {
            return Vec::new();
        }
        if self.nodes[si].block_send_queue.len() == 0 {
            return Vec::new();
        }
        let job = self.nodes[si].block_send_queue[0];
        proof {
            assert(pre.node_ok(si as int));
            assert(pre.job_ok(job));
            assert(pre.node_ok(job.requester - 1));
        }
        let ri = self.idx(job.requester);
        let sender_reg = self.nodes[si].region;
        let req_reg = self.nodes[ri].region;
        let (kind, size) = match job.kind {
            BlockSendKind::Rec => {
                let use_compact = self.nodes[si].use_cbr && self.nodes[ri].use_cbr;
                if use_compact {
                    (BlockPayloadKind::Compact, PayloadSize::Bytes(self.sim.compact_block_size_bytes))
                } else {
                    (BlockPayloadKind::Full, PayloadSize::Bytes(self.sim.block_size_bytes))
                }
            },
            BlockSendKind::GetBlockTxn => {
                (BlockPayloadKind::Full, PayloadSize::FailedCompact { sender_is_churn: self.nodes[si].is_churn })
            },
        };
        let _ = self.nodes[si].block_send_queue.pop_front();
        self.nodes[si].sending_block = true;
        let mut reqs: Vec<SampleRequest> = Vec::new();
        reqs.push(
            SampleRequest::BlockPayload {
                sender,
                requester: job.requester,
                block: job.block,
                kind,
                from_region: sender_reg,
                to_region: req_reg,
                size,
            },
        );
        proof {
            let q0 = pre.nodes@[si as int].block_send_queue@;
            let q1 = self.nodes@[si as int].block_send_queue@;
            assert(q1 =~= q0.drop_first());
            assert forall|k: int| 0 <= k < q1.len() implies self.job_ok(#[trigger] q1[k]) by {
                assert(q1[k] == q0[k + 1]);
                assert(pre.job_ok(q0[k + 1]));
            }
            Self::lemma_nodes_ok_kept(&pre, self, si as int);
            assert(reqs@ =~= seq![pre.block_send_request(sender, job)]);
        }
        reqs
    }

    /// Queue `job` on node `i` and try to start sending.
    fn queue_block_send(&mut self, node: NodeId, job: BlockSendJob) -> (reqs: Vec<SampleRequest>)
        requires
            old(self).wf(),
            old(self).has_node(node),
            old(self).job_ok(job),
        ensures
            final(self).wf(),
            exists|mid: Simulation|
                job_queued(old(self), &mid, node - 1, job) && #[trigger] start_send_post(&mid, final(self), node, reqs@),
            final(self).requests_ok(reqs@),
    {
        let ghost pre = *self;
        let i = self.idx(node);
        self.nodes[i].block_send_queue.push_back(job);
        proof {
            let q0 = pre.nodes@[i as int].block_send_queue@;
            let q1 = self.nodes@[i as int].block_send_queue@;
            assert(pre.node_ok(i as int));
            assert forall|k: int| 0 <= k < q1.len() implies self.job_ok(#[trigger] q1[k]) by {
                if k < q0.len() {
                    assert(q1[k] == q0[k]);
                    assert(pre.job_ok(q0[k]));
                }
            }
            Self::lemma_nodes_ok_kept(&pre, self, i as int);
        }
        let ghost mid = *self;
        let reqs = self.try_start_next_block_send(node);
        proof {
            assert(job_queued(&pre, &mid, node - 1, job));
            assert(start_send_post(&mid, self, node, reqs@));
        }
        reqs
    }

    /// A `rec` from `rec_peer` for `block` has arrived at `recipient`: queue the payload send.
    pub fn on_rec_arrive(&mut self, recipient: NodeId, rec_peer: NodeId, block: BlockId) -> (reqs: Vec<
        SampleRequest,
    >)
        requires
            old(self).wf(),
            old(self).has_node(recipient),
            old(self).has_node(rec_peer),
            old(self).store.has(block),
        ensures
            final(self).wf(),
            exists|mid: Simulation|
                job_queued(
                    old(self),
                    &mid,
                    recipient - 1,
                    BlockSendJob { kind: BlockSendKind::Rec, requester: rec_peer, block },
                ) && #[trigger] start_send_post(&mid, final(self), recipient, reqs@),
            final(self).requests_ok(reqs@),
    {
        self.queue_block_send(recipient, BlockSendJob { kind: BlockSendKind::Rec, requester: rec_peer, block })
    }

    /// A `getblocktxn` from `peer` for `block` has arrived at `recipient`: queue a full send.
    pub fn on_get_block_txn_arrive(&mut self, recipient: NodeId, peer: NodeId, block: BlockId) -> (reqs:
        Vec<SampleRequest>)
        requires
            old(self).wf(),
            old(self).has_node(recipient),
            old(self).has_node(peer),
            old(self).store.has(block),
        ensures
            final(self).wf(),
            exists|mid: Simulation|
                job_queued(
                    old(self),
                    &mid,
                    recipient - 1,
                    BlockSendJob { kind: BlockSendKind::GetBlockTxn, requester: peer, block },
                ) && #[trigger] start_send_post(&mid, final(self), recipient, reqs@),
            final(self).requests_ok(reqs@),
    {
        self.queue_block_send(recipient, BlockSendJob { kind: BlockSendKind::GetBlockTxn, requester: peer, block })
    }
}

impl Simulation {
    /// `recipient` asks `inv_peer` for `block` on its `inv`: the block is stored, not an orphan
    /// of the recipient nor being downloaded by it, and it is either a valid heavier extension
    /// of the recipient's tip or off the recipient's current chain.
    pub open spec fn requests_block(&self, recipient: NodeId, block: BlockId) -> bool {
        let nd = self.node(recipient);
        &&& !nd.orphans@.contains(block)
        &&& !nd.downloading@.contains(block)
        &&& self.store.has(block)
        &&& (pow_valid(
            &self.store.rec(block),
            match self.tip_rec(nd.tip) {
                Some(r) => Some(&r),
                None => None,
            },
            &self.store,
        ) || match nd.tip {
            Some(t) => !on_same_chain(self.store@, block, t),
            None => false,
        })
    }
}

/// What [`Simulation::on_inv_arrive`] does: when the recipient wants the block, it starts
/// downloading it and requests the latency of its `rec` back to the announcing peer.
pub open spec fn inv_post(
    pre: &Simulation,
    post: &Simulation,
    recipient: NodeId,
    inv_peer: NodeId,
    block: BlockId,
    reqs: Seq<SampleRequest>,
) -> bool {
    let i = recipient - 1;
    let a = pre.nodes@[i];
    let b = post.nodes@[i];
    if !pre.requests_block(recipient, block) {
        &&& *post == *pre
        &&& reqs.len() == 0
    } else {
        &&& only_node_fields_changed(pre, post, i)
        &&& b.downloading@ == a.downloading@.push(block)
        &&& b.block_send_queue == a.block_send_queue
        &&& b.sending_block == a.sending_block
        &&& b.tip == a.tip
        &&& b.orphans == a.orphans
        &&& b.pending_mining == a.pending_mining
        &&& reqs == seq![
            SampleRequest::MessageLatency {
                from_region: a.region,
                to_region: pre.node(inv_peer).region,
                event: SimEvent::RecArrive { to: inv_peer, from: recipient, block },
            },
        ]
    }
}

/// First step of a payload arrival: the transfer is logged and the sender is idle again.
pub open spec fn payload_logged(
    pre: &Simulation,
    m1: &Simulation,
    recipient: NodeId,
    sender: NodeId,
    block: BlockId,
    depart_ms: u64,
) -> bool {
    let a = pre.nodes@[sender - 1];
    let b = m1.nodes@[sender - 1];
    &&& m1.log.events@ == pre.log.events@.push(
        LogEvent::FlowBlock {
            transmission_timestamp: depart_ms,
            reception_timestamp: pre.now_ms,
            begin: sender,
            end: recipient,
            block_id: block.0,
        },
    )
    &&& only_node_changed(pre.nodes@, m1.nodes@, sender - 1)
    &&& same_globals(pre, m1)
    &&& m1.queue == pre.queue
    &&& m1.propagation == pre.propagation
    &&& !b.sending_block
    &&& b.block_send_queue == a.block_send_queue
    &&& b.tip == a.tip
    &&& b.orphans == a.orphans
    &&& b.pending_mining == a.pending_mining
    &&& b.downloading == a.downloading
}

/// What [`Simulation::on_block_payload_arrive`] does: log the transfer, free the sender for its
/// next send, then (full payload) stop downloading and offer the block to the recipient, or
/// (compact payload) request the decode outcome.
pub open spec fn payload_post(
    pre: &Simulation,
    post: &Simulation,
    recipient: NodeId,
    sender: NodeId,
    block: BlockId,
    depart_ms: u64,
    kind: BlockPayloadKind,
    reqs: Seq<SampleRequest>,
) -> bool {
    match kind {
        BlockPayloadKind::Full => exists|
            m1: Simulation,
            m2: Simulation,
            m3: Simulation,
            r1: Seq<SampleRequest>,
            r2: Seq<SampleRequest>,
        |
            #![trigger start_send_post(&m1, &m2, sender, r1), adopt_post(&m3, post, recipient, block, r2)]
            {
                &&& payload_logged(pre, &m1, recipient, sender, block, depart_ms)
                &&& start_send_post(&m1, &m2, sender, r1)
                &&& download_dropped(&m2, &m3, recipient - 1, block)
                &&& adopt_post(&m3, post, recipient, block, r2)
                &&& reqs == r1 + r2
            },
        BlockPayloadKind::Compact => exists|m1: Simulation, r1: Seq<SampleRequest>|
            #![trigger start_send_post(&m1, post, sender, r1)]
            {
                &&& payload_logged(pre, &m1, recipient, sender, block, depart_ms)
                &&& start_send_post(&m1, post, sender, r1)
                &&& reqs == r1 + seq![
                    SampleRequest::CompactDecode {
                        recipient,
                        sender,
                        block,
                        recipient_is_churn: post.node(recipient).is_churn,
                    },
                ]
            },
    }
}

/// What [`Simulation::on_compact_decoded`] does: a failed decode requests the latency of a
/// `getblocktxn` back to the sender; a successful one stops the download and offers the block.
pub open spec fn decoded_post(
    pre: &Simulation,
    post: &Simulation,
    recipient: NodeId,
    sender: NodeId,
    block: BlockId,
    failed: bool,
    reqs: Seq<SampleRequest>,
) -> bool {
    if failed {
        &&& *post == *pre
        &&& reqs == seq![
            SampleRequest::MessageLatency {
                from_region: pre.node(recipient).region,
                to_region: pre.node(sender).region,
                event: SimEvent::GetBlockTxnArrive { to: sender, from: recipient, block },
            },
        ]
    } else {
        exists|mid: Simulation|
            download_dropped(pre, &mid, recipient - 1, block) && #[trigger] adopt_post(&mid, post, recipient, block, reqs)
    }
}

impl Simulation {
    /// An `inv` for `block` from `inv_peer` has arrived at `recipient`.
    pub fn on_inv_arrive(&mut self, recipient: NodeId, inv_peer: NodeId, block: BlockId) -> (reqs: Vec<
        SampleRequest,
    >)
        requires
            old(self).wf(),
            old(self).has_node(recipient),
            old(self).has_node(inv_peer),
        ensures
            final(self).wf(),
            inv_post(old(self), final(self), recipient, inv_peer, block, reqs@),
            final(self).requests_ok(reqs@),
    {
        let ghost pre = *self;
        let i = self.idx(recipient);
        if block_list_contains(&self.nodes[i].orphans, block) || block_list_contains(&self.nodes[i].downloading, block) {
            return Vec::new();
        }
        let tip = self.nodes[i].tip;
        {
            let rec_ref = match self.store.get(block) {
                Some(r) => r,
                None => return Vec::new(),
            };
            let tip_rec = match tip {
                Some(t) => self.store.get(t),
                None => None,
            };
            let valid = validate_pow_received(rec_ref, tip_rec, &self.store);
            let same_chain = match tip {
                Some(t) => is_on_same_chain(&self.store, block, t),
                None => false,
            };
            if !valid && (tip.is_none() || same_chain) {
                return Vec::new();
            }
        }
        proof {
            assert(pre.requests_block(recipient, block));
            assert(pre.node_ok(inv_peer - 1));
            assert(pre.node_ok(i as int));
        }
        let pi = self.idx(inv_peer);
        let from_reg = self.nodes[i].region;
        let to_reg = self.nodes[pi].region;
        self.nodes[i].downloading.push(block);
        let mut reqs: Vec<SampleRequest> = Vec::new();
        reqs.push(
            SampleRequest::MessageLatency {
                from_region: from_reg,
                to_region: to_reg,
                event: SimEvent::RecArrive { to: inv_peer, from: recipient, block },
            },
        );
        proof {
            let q1 = self.nodes@[i as int].block_send_queue@;
            assert forall|k: int| 0 <= k < q1.len() implies self.job_ok(#[trigger] q1[k]) by {
                assert(pre.job_ok(q1[k]));
            }
            Self::lemma_nodes_ok_kept(&pre, self, i as int);
            assert(reqs@ =~= seq![
                SampleRequest::MessageLatency {
                    from_region: from_reg,
                    to_region: to_reg,
                    event: SimEvent::RecArrive { to: inv_peer, from: recipient, block },
                },
            ]);
        }
        reqs
    }

    /// Drop `block` from the downloads of node `node`.
    fn drop_download(&mut self, node: NodeId, block: BlockId)
        requires
            old(self).wf(),
            old(self).has_node(node),
        ensures
            final(self).wf(),
            download_dropped(old(self), final(self), node - 1, block),
    {
        let ghost pre = *self;
        let i = self.idx(node);
        block_list_remove(&mut self.nodes[i].downloading, block);
        proof {
            assert(pre.node_ok(i as int));
            let q1 = self.nodes@[i as int].block_send_queue@;
            assert forall|k: int| 0 <= k < q1.len() implies self.job_ok(#[trigger] q1[k]) by {
                assert(pre.job_ok(q1[k]));
            }
            Self::lemma_nodes_ok_kept(&pre, self, i as int);
        }
    }

    /// A block or compact payload from `sender` has finished transmission to `recipient`.
    pub fn on_block_payload_arrive(
        &mut self,
        recipient: NodeId,
        sender: NodeId,
        block: BlockId,
        depart_ms: u64,
        kind: BlockPayloadKind,
    ) -> (reqs: Vec<SampleRequest>)
        requires
            old(self).wf(),
            old(self).has_node(recipient),
            old(self).has_node(sender),
            old(self).store.has(block),
        ensures
            final(self).wf(),
            payload_post(old(self), final(self), recipient, sender, block, depart_ms, kind, reqs@),
            final(self).requests_ok(reqs@),
    {
        let ghost pre = *self;
        self.log.push(crate::output::ev_flow_block(depart_ms, self.now_ms, sender, recipient, block.0));
        proof {
            assert forall|k: int| 0 <= k < self.n() implies #[trigger] self.node_ok(k) by {
                assert(pre.node_ok(k));
            }
        }
        let ghost logged = *self;
        let si = self.idx(sender);
        self.nodes[si].sending_block = false;
        proof {
            assert(logged.node_ok(si as int));
            let q1 = self.nodes@[si as int].block_send_queue@;
            assert forall|k: int| 0 <= k < q1.len() implies self.job_ok(#[trigger] q1[k]) by {
                assert(logged.job_ok(q1[k]));
            }
            Self::lemma_nodes_ok_kept(&logged, self, si as int);
        }
        let ghost m1 = *self;
        let mut reqs = self.try_start_next_block_send(sender);
        let ghost m2 = *self;
        let ghost r1 = reqs@;
        match kind {
            BlockPayloadKind::Full => {
                self.drop_download(recipient, block);
                let ghost m3 = *self;
                let mut more = self.apply_new_block_to_node(recipient, block);
                let ghost r2 = more@;
                reqs.append(&mut more);
                proof {
                    assert(payload_logged(&pre, &m1, recipient, sender, block, depart_ms));
                    assert(start_send_post(&m1, &m2, sender, r1));
                    assert(download_dropped(&m2, &m3, recipient - 1, block));
                    assert(adopt_post(&m3, self, recipient, block, r2));
                    assert(reqs@ == r1 + r2);
                    assert forall|k: int| 0 <= k < reqs@.len() implies self.request_ok(#[trigger] reqs@[k]) by {
                        if k < r1.len() {
                            assert(m2.request_ok(r1[k]));
                            assert(reqs@[k] == r1[k]);
                        } else {
                            assert(reqs@[k] == r2[k - r1.len()]);
                        }
                    }
                }
            },
            BlockPayloadKind::Compact => {
                let ri = self.idx(recipient);
                let churn = self.nodes[ri].is_churn;
                reqs.push(SampleRequest::CompactDecode { recipient, sender, block, recipient_is_churn: churn });
                proof {
                    assert(payload_logged(&pre, &m1, recipient, sender, block, depart_ms));
                    assert(start_send_post(&m1, &m2, sender, r1));
                    assert(*self == m2);
                    assert(start_send_post(&m1, self, sender, r1));
                    assert(reqs@ == r1 + seq![
                        SampleRequest::CompactDecode {
                            recipient,
                            sender,
                            block,
                            recipient_is_churn: m2.node(recipient).is_churn,
                        },
                    ]);
                }
            },
        }
        reqs
    }
}

/// What [`Simulation::on_rec_arrive`] and [`Simulation::on_get_block_txn_arrive`] do: queue
/// the job on the recipient and try to start sending.
pub open spec fn queue_post(
    pre: &Simulation,
    post: &Simulation,
    node: NodeId,
    job: BlockSendJob,
    reqs: Seq<SampleRequest>,
) -> bool {
    exists|mid: Simulation| job_queued(pre, &mid, node - 1, job) && #[trigger] start_send_post(&mid, post, node, reqs)
}

/// `post` is `pre` with `te` (the earliest live entry) popped and the clock moved to its time.
pub open spec fn popped(pre: &Simulation, post: &Simulation, te: super::event_queue::TimedEvent) -> bool {
    let k = pre.queue.entries().len() - post.queue.entries().len() - 1;
    &&& k >= 0
    &&& te == pre.queue.entries()[k]
    &&& !pre.queue.is_cancelled(te.seq)
    &&& forall|j: int| 0 <= j < k ==> pre.queue.is_cancelled(#[trigger] pre.queue.entries()[j].seq)
    &&& post.queue.entries() == pre.queue.entries().skip(k + 1)
    &&& post.queue.last_seq() == pre.queue.last_seq()
    &&& forall|s: u64| #[trigger] post.queue.is_cancelled(s) ==> pre.queue.is_cancelled(s)
    &&& post.now_ms == te.at_ms
    &&& post.nodes == pre.nodes
    &&& post.sim == pre.sim
    &&& post.net == pre.net
    &&& post.store == pre.store
    &&& post.propagation == pre.propagation
    &&& post.log == pre.log
    &&& post.finished == pre.finished
    &&& post.mint_stop_layer == pre.mint_stop_layer
    &&& post.graph_snapshot_heights == pre.graph_snapshot_heights
}

/// The handler of `ev` took `pre` to `post`, requesting `reqs`.
pub open spec fn handled(pre: &Simulation, post: &Simulation, ev: SimEvent, reqs: Seq<SampleRequest>) -> bool {
    match ev {
        SimEvent::MiningFinished { node, parent } => mining_post(pre, post, node, parent, reqs),
        SimEvent::InvArrive { to, from, block } => inv_post(pre, post, to, from, block, reqs),
        SimEvent::RecArrive { to, from, block } => queue_post(
            pre,
            post,
            to,
            BlockSendJob { kind: BlockSendKind::Rec, requester: from, block },
            reqs,
        ),
        SimEvent::GetBlockTxnArrive { to, from, block } => queue_post(
            pre,
            post,
            to,
            BlockSendJob { kind: BlockSendKind::GetBlockTxn, requester: from, block },
            reqs,
        ),
        SimEvent::BlockPayloadArrive { recipient, sender, block, depart_ms, kind } => payload_post(
            pre,
            post,
            recipient,
            sender,
            block,
            depart_ms,
            kind,
            reqs,
        ),
    }
}

/// `post` is `pre` with `ev` queued at time `at` under the next sequence number.
pub open spec fn scheduled(pre: &Simulation, post: &Simulation, at: u64, ev: SimEvent) -> bool {
    &&& post.queue.last_seq() == pre.queue.last_seq() + 1
    &&& post.queue.entries().len() == pre.queue.entries().len() + 1
    &&& forall|e: super::event_queue::TimedEvent| #[trigger] post.queue.entries().contains(e) <==> (
        pre.queue.entries().contains(e) || e == (super::event_queue::TimedEvent {
            at_ms: at,
            seq: post.queue.last_seq(),
            inner: ev,
        }))
    &&& exists|p: int|
        0 <= p <= pre.queue.entries().len() && post.queue.entries() == #[trigger] pre.queue.entries().insert(
            p,
            super::event_queue::TimedEvent { at_ms: at, seq: post.queue.last_seq(), inner: ev },
        )
    &&& post.queue.tombstones() == pre.queue.tombstones()
    &&& same_globals(pre, post)
    &&& post.propagation == pre.propagation
    &&& post.log == pre.log
}

impl Simulation {
    proof fn lemma_queue_entry_ok(pre: &Simulation, post: &Simulation, at: u64, ev: SimEvent)
        requires
            pre.wf(),
            scheduled(pre, post, at, ev),
            post.queue.wf(),
            at >= pre.now_ms,
            ev.refs_ok(pre.n(), pre.nb()),
            post.nodes@.len() == pre.nodes@.len(),
        ensures
            forall|k: int|
                0 <= k < post.queue.entries().len() ==> (#[trigger] post.queue.entries()[k]).inner.refs_ok(
                    post.n(),
                    post.nb(),
                ) && post.queue.entries()[k].at_ms >= post.now_ms,
    {
        assert forall|k: int| 0 <= k < post.queue.entries().len() implies (#[trigger] post.queue.entries()[k]).inner.refs_ok(
            post.n(),
            post.nb(),
        ) && post.queue.entries()[k].at_ms >= post.now_ms by {
            let e = post.queue.entries()[k];
            assert(post.queue.entries().contains(e));
            if pre.queue.entries().contains(e) {
                let w = choose|w: int| 0 <= w < pre.queue.entries().len() && pre.queue.entries()[w] == e;
                assert(pre.queue.entries()[w].inner.refs_ok(pre.n(), pre.nb()));
            }
        }
    }

    /// The compact payload of `block` from `sender` decoded at `recipient` (`failed` tells
    /// whether the decode failed).
    pub fn on_compact_decoded(&mut self, recipient: NodeId, sender: NodeId, block: BlockId, failed: bool) -> (reqs: Vec<
        SampleRequest,
    >)
        requires
            old(self).wf(),
            old(self).has_node(recipient),
            old(self).has_node(sender),
            old(self).store.has(block),
        ensures
            final(self).wf(),
            decoded_post(old(self), final(self), recipient, sender, block, failed, reqs@),
            final(self).requests_ok(reqs@),
            progress(old(self), final(self)),
            forall|rs: Seq<SampleRequest>|
                #[trigger] sends_ok(old(self), rs) && rs.len() > 0 && rs[0] is CompactDecode ==> sends_ok(
                    final(self),
                    reqs@ + rs.drop_first(),
                ),
    {
        let ghost pre = *self;
        if failed {
            let ri = self.idx(recipient);
            let si = self.idx(sender);
            proof {
                assert(pre.node_ok(ri as int));
                assert(pre.node_ok(si as int));
            }
            let mut reqs: Vec<SampleRequest> = Vec::new();
            reqs.push(
                SampleRequest::MessageLatency {
                    from_region: self.nodes[ri].region,
                    to_region: self.nodes[si].region,
                    event: SimEvent::GetBlockTxnArrive { to: sender, from: recipient, block },
                },
            );
            proof {
                assert(reqs@ =~= seq![
                    SampleRequest::MessageLatency {
                        from_region: pre.node(recipient).region,
                        to_region: pre.node(sender).region,
                        event: SimEvent::GetBlockTxnArrive { to: sender, from: recipient, block },
                    },
                ]);
            }
            proof {
                lemma_decoded(&pre, self, recipient, sender, block, failed, reqs@);
                assert forall|rs: Seq<SampleRequest>|
                    #[trigger] sends_ok(&pre, rs) && rs.len() > 0 && rs[0] is CompactDecode implies sends_ok(
                        self,
                        reqs@ + rs.drop_first(),
                    ) by {
                    lemma_decoded_sends(&pre, self, recipient, sender, block, failed, rs, reqs@);
                }
            }
            return reqs;
        }
        self.drop_download(recipient, block);
        let ghost mid = *self;
        let reqs = self.apply_new_block_to_node(recipient, block);
        proof {
            assert(download_dropped(&pre, &mid, recipient - 1, block));
            assert(adopt_post(&mid, self, recipient, block, reqs@));
            lemma_decoded(&pre, self, recipient, sender, block, failed, reqs@);
            assert forall|rs: Seq<SampleRequest>|
                #[trigger] sends_ok(&pre, rs) && rs.len() > 0 && rs[0] is CompactDecode implies sends_ok(
                    self,
                    reqs@ + rs.drop_first(),
                ) by {
                lemma_decoded_sends(&pre, self, recipient, sender, block, failed, rs, reqs@);
            }
        }
        reqs
    }

    /// Whether an event can be queued `delay` ms from now.
    pub fn can_schedule(&self, delay: u64) -> (b: bool)
        ensures
            b == (self.now_ms + delay <= u64::MAX && self.queue.last_seq() < u64::MAX),
    {
        delay <= u64::MAX - self.now_ms && self.queue.has_seq_room()
    }

    /// Queue the mining completion of `node` on `parent` after the drawn `delay` and remember
    /// its key as the node's pending mining.
    pub fn resolve_mining(&mut self, node: NodeId, parent: BlockId, delay: u64)
        requires
            old(self).wf(),
            old(self).has_node(node),
            old(self).store.has(parent),
            old(self).now_ms + delay <= u64::MAX,
            old(self).queue.last_seq() < u64::MAX,
        ensures
            final(self).wf(),
            scheduled(
                old(self),
                final(self),
                (old(self).now_ms + delay) as u64,
                SimEvent::MiningFinished { node, parent },
            ),
            only_node_changed(old(self).nodes@, final(self).nodes@, node - 1),
            same_dynamic_but_pending(old(self).nodes@[node - 1], final(self).nodes@[node - 1]),
            final(self).nodes@[node - 1].pending_mining == Some(
                ((old(self).now_ms + delay) as u64, final(self).queue.last_seq()),
            ),
            progress(old(self), final(self)),
            forall|rs: Seq<SampleRequest>|
                #[trigger] sends_ok(old(self), rs) && rs.len() > 0 && rs[0] is MiningDelay ==> sends_ok(
                    final(self),
                    rs.drop_first(),
                ),
    {
        let ghost pre = *self;
        let at_ms = self.now_ms + delay;
        let key = self.queue.push(at_ms, SimEvent::MiningFinished { node, parent });
        let i = self.idx(node);
        self.nodes[i].pending_mining = Some(key);
        proof {
            assert(pre.node_ok(i as int));
            let q1 = self.nodes@[i as int].block_send_queue@;
            assert forall|k: int| 0 <= k < q1.len() implies self.job_ok(#[trigger] q1[k]) by {
                assert(pre.job_ok(q1[k]));
            }
            Self::lemma_nodes_ok_kept(&pre, self, i as int);
            Self::lemma_queue_entry_ok(&pre, self, at_ms, SimEvent::MiningFinished { node, parent });
            lemma_log_same(pre.log.events@, pre.now_ms, pre.now_ms);
            lemma_small_step(&pre, self, i as int);
            assert forall|rs: Seq<SampleRequest>|
                #[trigger] sends_ok(&pre, rs) && rs.len() > 0 && rs[0] is MiningDelay implies sends_ok(
                    self,
                    rs.drop_first(),
                ) by {
                assert forall|q: int| 0 <= q < pre.nodes@.len() implies {
                    &&& (#[trigger] self.nodes@[q]).id == pre.nodes@[q].id
                    &&& self.nodes@[q].sending_block == pre.nodes@[q].sending_block
                    &&& (self.nodes@[q].pending_mining == pre.nodes@[q].pending_mining || (
                    self.nodes@[q].pending_mining == Some((at_ms, self.queue.last_seq()))
                        && SimEvent::MiningFinished { node, parent } is MiningFinished))
                } by {
                    if q != i {
                        assert(self.nodes@[q] == pre.nodes@[q]);
                    }
                }
                lemma_scheduled_plain_sends(&pre, self, at_ms, SimEvent::MiningFinished { node, parent }, rs);
            }
        }
    }

    /// Whether a small message with the drawn `latency` can be queued.
    pub fn message_fits(&self, latency: u64) -> (b: bool)
        ensures
            b == (self.now_ms + latency + self.sim.message_overhead_ms <= u64::MAX && self.queue.last_seq()
                < u64::MAX),
    {
        latency <= u64::MAX - self.now_ms && self.sim.message_overhead_ms <= u64::MAX - self.now_ms - latency
            && self.queue.has_seq_room()
    }

    /// Deliver `event` after the drawn `latency` plus the fixed message overhead.
    pub fn resolve_message(&mut self, event: SimEvent, latency: u64)
        requires
            old(self).wf(),
            event.refs_ok(old(self).n(), old(self).nb()),
            old(self).now_ms + latency + old(self).sim.message_overhead_ms <= u64::MAX,
            old(self).queue.last_seq() < u64::MAX,
        ensures
            final(self).wf(),
            scheduled(
                old(self),
                final(self),
                (old(self).now_ms + latency + old(self).sim.message_overhead_ms) as u64,
                event,
            ),
            final(self).nodes == old(self).nodes,
            progress(old(self), final(self)),
            forall|rs: Seq<SampleRequest>|
                #[trigger] sends_ok(old(self), rs) && rs.len() > 0 && rs[0] is MessageLatency && rs[0]->event
                    == event ==> sends_ok(final(self), rs.drop_first()),
    {
        let ghost pre = *self;
        let at_ms = self.now_ms + latency + self.sim.message_overhead_ms;
        let _ = self.queue.push(at_ms, event);
        proof {
            assert forall|k: int| 0 <= k < self.n() implies #[trigger] self.node_ok(k) by {
                assert(pre.node_ok(k));
                let nd = self.nodes@[k];
                assert forall|q: int| 0 <= q < nd.block_send_queue@.len() implies self.job_ok(
                    #[trigger] nd.block_send_queue@[q],
                ) by {
                    assert(pre.job_ok(nd.block_send_queue@[q]));
                }
            }
            Self::lemma_queue_entry_ok(&pre, self, at_ms, event);
            lemma_scheduled(&pre, self, at_ms, event);
            assert forall|rs: Seq<SampleRequest>|
                #[trigger] sends_ok(&pre, rs) && rs.len() > 0 && rs[0] is MessageLatency && rs[0]->event == event
                    implies sends_ok(self, rs.drop_first()) by {
                assert(!crate::simulation::sending::carries_payload(rs[0]));
                lemma_scheduled_plain_sends(&pre, self, at_ms, event, rs);
            }
        }
    }

    /// Whether a block payload with the drawn size and latency can be queued.
    pub fn payload_fits(&self, from_region: usize, to_region: usize, bytes: u64, latency: u64) -> (b: bool)
        requires
            from_region < self.net.num_regions(),
            to_region < self.net.num_regions(),
        ensures
            b == (crate::network::spec_transfer_body(&self.net, from_region as int, to_region as int, bytes)
                + self.sim.processing_time_ms + latency + self.now_ms <= u64::MAX && self.queue.last_seq()
                < u64::MAX),
    {
        if !crate::network::block_transfer_fits(&self.net, from_region, to_region, bytes, self.sim.processing_time_ms) {
            return false;
        }
        let t = crate::network::block_transfer_ms(&self.net, from_region, to_region, bytes, self.sim.processing_time_ms);
        latency <= u64::MAX - t && self.now_ms <= u64::MAX - t - latency && self.queue.has_seq_room()
    }

    /// Queue the arrival at `requester` of `sender`'s payload of `block`: it takes the drawn
    /// latency plus the transfer time of `bytes` (and processing) on the link between the regions.
    pub fn resolve_block_payload(
        &mut self,
        sender: NodeId,
        requester: NodeId,
        block: BlockId,
        kind: BlockPayloadKind,
        from_region: usize,
        to_region: usize,
        bytes: u64,
        latency: u64,
    )
        requires
            old(self).wf(),
            old(self).has_node(sender),
            old(self).has_node(requester),
            old(self).store.has(block),
            from_region < old(self).net.num_regions(),
            to_region < old(self).net.num_regions(),
            crate::network::spec_transfer_body(&old(self).net, from_region as int, to_region as int, bytes)
                + old(self).sim.processing_time_ms + latency + old(self).now_ms <= u64::MAX,
            old(self).queue.last_seq() < u64::MAX,
        ensures
            final(self).wf(),
            scheduled(
                old(self),
                final(self),
                (old(self).now_ms + latency + crate::network::spec_transfer_body(
                    &old(self).net,
                    from_region as int,
                    to_region as int,
                    bytes,
                ) + old(self).sim.processing_time_ms) as u64,
                SimEvent::BlockPayloadArrive {
                    recipient: requester,
                    sender,
                    block,
                    depart_ms: old(self).now_ms,
                    kind,
                },
            ),
            final(self).nodes == old(self).nodes,
            progress(old(self), final(self)),
            forall|rs: Seq<SampleRequest>|
                #[trigger] sends_ok(old(self), rs) && rs.len() > 0 && payload_draw_for(rs[0], sender) ==> sends_ok(
                    final(self),
                    rs.drop_first(),
                ),
    {
        let ghost pre = *self;
        let interval = latency + crate::network::block_transfer_ms(
            &self.net,
            from_region,
            to_region,
            bytes,
            self.sim.processing_time_ms,
        );
        let at = self.now_ms + interval;
        let depart_ms = if at >= interval {
            at - interval
        } else {
            0
        };
        let _ = self.queue.push(
            at,
            SimEvent::BlockPayloadArrive { recipient: requester, sender, block, depart_ms, kind },
        );
        proof {
            assert forall|k: int| 0 <= k < self.n() implies #[trigger] self.node_ok(k) by {
                assert(pre.node_ok(k));
                let nd = self.nodes@[k];
                assert forall|q: int| 0 <= q < nd.block_send_queue@.len() implies self.job_ok(
                    #[trigger] nd.block_send_queue@[q],
                ) by {
                    assert(pre.job_ok(nd.block_send_queue@[q]));
                }
            }
            Self::lemma_queue_entry_ok(
                &pre,
                self,
                at,
                SimEvent::BlockPayloadArrive { recipient: requester, sender, block, depart_ms, kind },
            );
            lemma_scheduled(
                &pre,
                self,
                at,
                SimEvent::BlockPayloadArrive { recipient: requester, sender, block, depart_ms, kind },
            );
            assert forall|rs: Seq<SampleRequest>|
                #[trigger] sends_ok(&pre, rs) && rs.len() > 0 && payload_draw_for(rs[0], sender) implies sends_ok(
                    self,
                    rs.drop_first(),
                ) by {
                lemma_scheduled_payload_sends(
                    &pre,
                    self,
                    at,
                    SimEvent::BlockPayloadArrive { recipient: requester, sender, block, depart_ms, kind },
                    sender,
                    rs,
                );
            }
        }
    }
}

impl Simulation {
    /// Process the earliest live event: move the clock to it and run its handler. `None` when
    /// no live event is left (the queue is then empty).
    pub fn step(&mut self) -> (r: Option<Vec<SampleRequest>>)
        requires
            old(self).wf(),
            old(self).store@.len() < u64::MAX,
        ensures
            final(self).wf(),
            final(self).now_ms >= old(self).now_ms,
            progress(old(self), final(self)),
            r is Some ==> old(self).queue.entries().len() > 0,
            sends_ok(old(self), Seq::<SampleRequest>::empty()) ==> final(self).finished || sends_ok(
                final(self),
                match r {
                    Some(v) => v@,
                    None => Seq::<SampleRequest>::empty(),
                },
            ),
            match r {
                None => {
                    &&& forall|j: int|
                        0 <= j < old(self).queue.entries().len() ==> old(self).queue.is_cancelled(
                            #[trigger] old(self).queue.entries()[j].seq,
                        )
                    &&& final(self).queue.entries().len() == 0
                    &&& final(self).nodes == old(self).nodes
                    &&& same_globals(old(self), final(self))
                    &&& final(self).propagation == old(self).propagation
                    &&& final(self).log == old(self).log
                },
                Some(reqs) => {
                    &&& exists|mid: Simulation, te: super::event_queue::TimedEvent|
                        #![trigger popped(old(self), &mid, te)]
                        popped(old(self), &mid, te) && handled(&mid, final(self), te.inner, reqs@)
                    &&& final(self).requests_ok(reqs@)
                },
            },
    {
        let ghost pre = *self;
        let te = match self.queue.pop_live() {
            None => {
                proof {
                    assert forall|k: int| 0 <= k < self.n() implies #[trigger] self.node_ok(k) by {
                        assert(pre.node_ok(k));
                    }
                    lemma_progress_refl(&pre);
                    if sends_ok(&pre, Seq::<SampleRequest>::empty()) {
                        lemma_drained_sends(&pre, self);
                    }
                }
                return None;
            },
            Some(te) => te,
        };
        proof {
            let k = pre.queue.entries().len() - self.queue.entries().len() - 1;
            assert(pre.queue.entries()[k].inner.refs_ok(pre.n(), pre.nb()));
            assert(pre.queue.entries()[k].at_ms >= pre.now_ms);
        }
        self.now_ms = te.at_ms;
        let ghost mid = *self;
        proof {
            let k = pre.queue.entries().len() - self.queue.entries().len() - 1;
            assert forall|k: int| 0 <= k < self.n() implies #[trigger] self.node_ok(k) by {
                assert(pre.node_ok(k));
            }
            assert forall|j: int| 0 <= j < self.queue.entries().len() implies (#[trigger] self.queue.entries()[j]).inner.refs_ok(
                self.n(),
                self.nb(),
            ) && self.queue.entries()[j].at_ms >= self.now_ms by {
                assert(self.queue.entries()[j] == pre.queue.entries()[k + 1 + j]);
                assert(pre.queue.entries()[k + 1 + j].inner.refs_ok(pre.n(), pre.nb()));
                assert(super::event_queue::key_lt(te, self.queue.entries()[j]));
            }
            assert(popped(&pre, &mid, te));
        }
        let reqs = match te.inner {
            SimEvent::MiningFinished { node, parent } => self.on_mining_finished(node, parent),
            SimEvent::InvArrive { to, from, block } => self.on_inv_arrive(to, from, block),
            SimEvent::RecArrive { to, from, block } => self.on_rec_arrive(to, from, block),
            SimEvent::GetBlockTxnArrive { to, from, block } => self.on_get_block_txn_arrive(to, from, block),
            SimEvent::BlockPayloadArrive { recipient, sender, block, depart_ms, kind } => self.on_block_payload_arrive(
                recipient,
                sender,
                block,
                depart_ms,
                kind,
            ),
        };
        proof {
            assert(handled(&mid, self, te.inner, reqs@));
            lemma_handled_keeps_clock(&mid, self, te.inner, reqs@);
            lemma_popped(&pre, &mid, te);
            lemma_handled(&mid, self, te.inner, reqs@);
            lemma_progress_trans(&pre, &mid, self);
            if sends_ok(&pre, Seq::<SampleRequest>::empty()) {
                let k = pre.queue.entries().len() - mid.queue.entries().len() - 1;
                assert(pre.queue.entries()[k].inner.refs_ok(pre.n(), pre.nb()));
                assert forall|q: int| 0 <= q < pre.nodes@.len() implies (#[trigger] pre.nodes@[q]).id == crate::routing::nid(q) by {
                    assert(pre.node_ok(q));
                }
                lemma_step_sends(&pre, &mid, self, te, reqs@);
            }
        }
        Some(reqs)
    }

    /// Ends the run: logs `simulation-end` at the current time and reports the totals.
    pub fn finish(&mut self) -> (stats: RunStats)
        ensures
            final(self).log.events@ == old(self).log.events@.push(
                LogEvent::SimulationEnd { timestamp: old(self).now_ms },
            ),
            stats == (RunStats {
                final_time_ms: old(self).now_ms,
                blocks: old(self).store@.len() as usize,
                events_logged: final(self).log.events@.len() as usize,
            }),
            final(self).nodes == old(self).nodes,
            same_globals(old(self), final(self)),
            final(self).queue == old(self).queue,
            final(self).propagation == old(self).propagation,
            log_ordered(old(self)) ==> log_ordered(final(self)),
    {
        let ghost pre = *self;
        self.log.push(crate::output::ev_simulation_end(self.now_ms));
        proof {
            lemma_log_push(pre.log.events@, LogEvent::SimulationEnd { timestamp: pre.now_ms }, pre.now_ms, pre.now_ms);
            assert(pre.store@.subrange(0, pre.store@.len() as int) =~= pre.store@);
            if log_ordered(&pre) {
                lemma_log_ordered_kept(&pre, self);
            }
        }
        RunStats { final_time_ms: self.now_ms, blocks: self.store.len(), events_logged: self.log.len() }
    }
}

proof fn lemma_handled_keeps_clock(pre: &Simulation, post: &Simulation, ev: SimEvent, reqs: Seq<SampleRequest>)
    requires
        handled(pre, post, ev, reqs),
    ensures
        post.now_ms == pre.now_ms,
{
    match ev {
        SimEvent::MiningFinished { node, parent } => {
            let prec = pre.store.rec(parent);
            let layer1 = next_layer(pre.mint_stop_layer, prec.height);
            if pre.node(node).tip != Some(parent) {
            } else if layer1 > pre.sim.end_block_height {
            } else {
                let mid = choose|mid: Simulation|
                    {
                        &&& only_node_changed(pre.nodes@, mid.nodes@, node - 1)
                        &&& mid.nodes@[node - 1].pending_mining is None
                        &&& same_dynamic_but_pending(pre.nodes@[node - 1], mid.nodes@[node - 1])
                        &&& mid.store@.len() == pre.store@.len() + 1
                        &&& mid.store@.subrange(0, pre.store@.len() as int) == pre.store@
                        &&& mined_block(mid.store@.last(), prec, parent, node, pre.now_ms)
                        &&& mid.mint_stop_layer == layer1
                        &&& mid.graph_snapshot_heights@ == next_snapshots(pre.graph_snapshot_heights@, layer1 as u32)
                        &&& mid.finished == pre.finished
                        &&& mid.sim == pre.sim
                        &&& mid.net == pre.net
                        &&& mid.now_ms == pre.now_ms
                        &&& mid.queue == pre.queue
                        &&& mid.propagation == pre.propagation
                        &&& mid.log == pre.log
                        &&& #[trigger] adopt_post(&mid, post, node, BlockId(pre.store@.len() as u64), reqs)
                    };
            }
        },
        SimEvent::InvArrive { .. } => {},
        SimEvent::RecArrive { to, from, block } => {
            let job = BlockSendJob { kind: BlockSendKind::Rec, requester: from, block };
            let mid = choose|mid: Simulation| job_queued(pre, &mid, to - 1, job) && #[trigger] start_send_post(&mid, post, to, reqs);
        },
        SimEvent::GetBlockTxnArrive { to, from, block } => {
            let job = BlockSendJob { kind: BlockSendKind::GetBlockTxn, requester: from, block };
            let mid = choose|mid: Simulation| job_queued(pre, &mid, to - 1, job) && #[trigger] start_send_post(&mid, post, to, reqs);
        },
        SimEvent::BlockPayloadArrive { recipient, sender, block, depart_ms, kind } => {
            match kind {
                BlockPayloadKind::Full => {
                    let (m1, m2, m3, r1, r2) = choose|
                        m1: Simulation,
                        m2: Simulation,
                        m3: Simulation,
                        r1: Seq<SampleRequest>,
                        r2: Seq<SampleRequest>,
                    |
                        #![trigger start_send_post(&m1, &m2, sender, r1), adopt_post(&m3, post, recipient, block, r2)]
                        {
                            &&& payload_logged(pre, &m1, recipient, sender, block, depart_ms)
                            &&& start_send_post(&m1, &m2, sender, r1)
                            &&& download_dropped(&m2, &m3, recipient - 1, block)
                            &&& adopt_post(&m3, post, recipient, block, r2)
                            &&& reqs == r1 + r2
                        };
                },
                BlockPayloadKind::Compact => {
                    let (m1, r1) = choose|m1: Simulation, r1: Seq<SampleRequest>|
                        #![trigger start_send_post(&m1, post, sender, r1)]
                        {
                            &&& payload_logged(pre, &m1, recipient, sender, block, depart_ms)
                            &&& start_send_post(&m1, post, sender, r1)
                            &&& reqs == r1 + seq![
                                SampleRequest::CompactDecode {
                                    recipient,
                                    sender,
                                    block,
                                    recipient_is_churn: post.node(recipient).is_churn,
                                },
                            ]
                        };
                },
            }
        },
    }
}

} // verus!
