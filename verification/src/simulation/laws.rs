//! What the gossip and mining handlers do, stated directly over their inputs and results.
use super::chain::extends_from;
use super::handlers::{adopt_post, mining_post, start_send_post};
use super::node::BlockSendKind;
use super::propagation::{keys_unique, pos_of, upsert};
use super::{PayloadSize, SampleRequest, Simulation};
use crate::event::BlockPayloadKind;
use crate::types::{BlockId, NodeId};
use vstd::prelude::*;

verus! {

/// When `node` adopts `block`, the tracker records for `(block, node)` the time from the block's
/// creation to now: the current clock minus the block's `time_ms`, or 0 for a block stamped
/// later than the clock. It is the one delay held for that pair.
pub proof fn law_adoption_records_delay(pre: Simulation, post: Simulation, node: NodeId, block: BlockId, reqs: Seq<SampleRequest>)
    requires
        pre.wf(),
        post.wf(),
        pre.has_node(node),
        pre.adopts(node, block),
        adopt_post(&pre, &post, node, block, reqs),
    ensures
        ({
            let t = pre.store@[block.0 as int].time_ms;
            let d: int = if pre.now_ms >= t { pre.now_ms - t } else { 0 };
            let v = post.propagation@;
            &&& exists|k: int, m: int|
                0 <= k < v.len() && 0 <= m < v[k].1.len() && (#[trigger] v[k]).0 == block && #[trigger] v[k].1[m]
                    == (node, d as u64)
            &&& forall|k: int, m: int|
                0 <= k < v.len() && 0 <= m < v[k].1.len() && (#[trigger] v[k]).0 == block && (#[trigger] v[k].1[m]).0
                    == node ==> v[k].1[m].1 == d
        }),
{
    let t = pre.store@[block.0 as int].time_ms;
    let d: int = if pre.now_ms >= t { pre.now_ms - t } else { 0 };
    assert(pre.delay_of(block) == d);
    let u = pre.propagation@;
    let v = post.propagation@;
    let dd = d as u64;
    let (k0, m0): (int, int) = match pos_of(u, block) {
        Some(k) => {
            let s = u[k].1;
            assert(v == u.update(k, (block, upsert(s, node, dd))));
            match pos_of(s, node) {
                Some(m) => {
                    assert(v[k].1 == s.update(m, (node, dd)));
                    (k, m)
                },
                None => {
                    assert(v[k].1 == s.push((node, dd)));
                    (k, s.len() as int)
                },
            }
        },
        None => {
            let w = if u.len() > pre.propagation.cap() { u.drop_first() } else { u };
            assert(v == w.push((block, seq![(node, dd)])));
            (w.len() as int, 0)
        },
    };
    assert(v[k0].0 == block && v[k0].1[m0] == (node, dd));
    post.propagation.lemma_unique();
    assert forall|k: int, m: int|
        0 <= k < v.len() && 0 <= m < v[k].1.len() && (#[trigger] v[k]).0 == block && (#[trigger] v[k].1[m]).0
            == node implies v[k].1[m].1 == d by {
        assert(keys_unique(v));
        if k != k0 {
            if k < k0 {
                assert(v[k].0 != v[k0].0);
            } else {
                assert(v[k0].0 != v[k].0);
            }
        }
        assert(keys_unique(v[k].1));
        if m != m0 {
            if m < m0 {
                assert(v[k].1[m].0 != v[k].1[m0].0);
            } else {
                assert(v[k].1[m0].0 != v[k].1[m].0);
            }
        }
    }
}

/// When `node` adopts `block` and `block` does not descend from its previous tip, that tip is
/// added to the node's orphans, and nothing else is; when `block` descends from the previous
/// tip (or there was none), the orphans are unchanged. The adopted block becomes the tip.
pub proof fn law_adoption_orphans_abandoned_tip(
    pre: Simulation,
    post: Simulation,
    node: NodeId,
    block: BlockId,
    reqs: Seq<SampleRequest>,
)
    requires
        pre.wf(),
        pre.has_node(node),
        pre.adopts(node, block),
        adopt_post(&pre, &post, node, block, reqs),
    ensures
        post.node(node).tip == Some(block),
        match pre.node(node).tip {
            Some(old_tip) => if !extends_from(pre.store@, block, old_tip) {
                post.node(node).orphans@ == pre.node(node).orphans@.push(old_tip)
            } else {
                post.node(node).orphans@ == pre.node(node).orphans@
            },
            None => post.node(node).orphans@ == pre.node(node).orphans@,
        },
{
}

/// The payload that a sender starts for a `rec` is a compact block of
/// `compact_block_size_bytes` exactly when both the sender and the requester relay compact
/// blocks; otherwise it is a full block of `block_size_bytes`. An answer to `getblocktxn` is
/// always a full block.
pub proof fn law_send_payload_kind(pre: Simulation, post: Simulation, sender: NodeId, reqs: Seq<SampleRequest>)
    requires
        pre.wf(),
        pre.has_node(sender),
        !pre.node(sender).sending_block,
        pre.node(sender).block_send_queue@.len() > 0,
        start_send_post(&pre, &post, sender, reqs),
    ensures
        reqs.len() == 1,
        ({
            let job = pre.node(sender).block_send_queue@[0];
            let both = pre.node(sender).use_cbr && pre.node(job.requester).use_cbr;
            &&& reqs[0] matches SampleRequest::BlockPayload { sender: s, requester: r, block: b, kind, size, .. }
            &&& s == sender && r == job.requester && b == job.block
            &&& job.kind == BlockSendKind::Rec ==> (kind == BlockPayloadKind::Compact <==> both)
            &&& job.kind == BlockSendKind::Rec ==> (kind == BlockPayloadKind::Full <==> !both)
            &&& job.kind == BlockSendKind::Rec && both ==> size == PayloadSize::Bytes(pre.sim.compact_block_size_bytes)
            &&& job.kind == BlockSendKind::Rec && !both ==> size == PayloadSize::Bytes(pre.sim.block_size_bytes)
            &&& job.kind == BlockSendKind::GetBlockTxn ==> kind == BlockPayloadKind::Full
        }),
{
}

/// When a node finishes mining on its tip and the run goes on, the graph snapshot labels only
/// grow by appending; a label is appended only for the layer counter `c` reached by this event,
/// and only when `c` is 2 or a multiple of 100; and when `c` is 2 or a multiple of 100 it is the
/// last label afterwards.
pub proof fn law_snapshot_labels(pre: Simulation, post: Simulation, node: NodeId, parent: BlockId, reqs: Seq<SampleRequest>)
    requires
        pre.wf(),
        pre.has_node(node),
        pre.store.has(parent),
        pre.node(node).tip == Some(parent),
        post.mint_stop_layer <= pre.sim.end_block_height,
        mining_post(&pre, &post, node, parent, reqs),
    ensures
        ({
            let c = post.mint_stop_layer;
            let a = pre.graph_snapshot_heights@;
            let b = post.graph_snapshot_heights@;
            &&& a.len() <= b.len() <= a.len() + 1
            &&& b.subrange(0, a.len() as int) == a
            &&& b.len() == a.len() + 1 ==> b.last() == c && (c == 2 || c % 100 == 0)
            &&& (c == 2 || c % 100 == 0) ==> b.len() > 0 && b.last() == c
        }),
{
    let a = pre.graph_snapshot_heights@;
    let b = post.graph_snapshot_heights@;
    let mid = choose|mid: Simulation|
        {
            &&& super::handlers::only_node_changed(pre.nodes@, mid.nodes@, node - 1)
            &&& mid.nodes@[node - 1].pending_mining is None
            &&& super::handlers::same_dynamic_but_pending(pre.nodes@[node - 1], mid.nodes@[node - 1])
            &&& mid.store@.len() == pre.store@.len() + 1
            &&& mid.store@.subrange(0, pre.store@.len() as int) == pre.store@
            &&& super::handlers::mined_block(mid.store@.last(), pre.store.rec(parent), parent, node, pre.now_ms)
            &&& mid.mint_stop_layer == super::handlers::next_layer(pre.mint_stop_layer, pre.store.rec(parent).height)
            &&& mid.graph_snapshot_heights@ == super::handlers::next_snapshots(
                pre.graph_snapshot_heights@,
                super::handlers::next_layer(pre.mint_stop_layer, pre.store.rec(parent).height) as u32,
            )
            &&& mid.finished == pre.finished
            &&& mid.sim == pre.sim
            &&& mid.net == pre.net
            &&& mid.now_ms == pre.now_ms
            &&& mid.queue == pre.queue
            &&& mid.propagation == pre.propagation
            &&& mid.log == pre.log
            &&& #[trigger] adopt_post(&mid, &post, node, BlockId(pre.store@.len() as u64), reqs)
        };
    assert(post.mint_stop_layer == mid.mint_stop_layer);
    assert(b == mid.graph_snapshot_heights@);
    assert(a.subrange(0, a.len() as int) =~= a);
    assert(a.push(post.mint_stop_layer).subrange(0, a.len() as int) =~= a);
}

} // verus!
