//! Block sends of a node are serialized: counting the payload arrivals queued from a node and
//! the payload draws still to be made for it, there is one exactly while the node's sending flag
//! is set, and none otherwise.
use super::event_queue::TimedEvent;
use super::handlers::{
    adopt_post, decoded_post, download_dropped, handled, job_queued, mining_post, next_layer,
    only_node_changed, payload_logged, popped, same_dynamic_but_pending, scheduled, start_send_post,
};
use super::node::{BlockSendJob, BlockSendKind};
use super::{SampleRequest, Simulation};
use crate::event::{BlockPayloadKind, SimEvent};
use crate::routing::nid;
use crate::types::{BlockId, NodeId};
use vstd::prelude::*;

verus! {

/// `e` is the arrival of a block payload sent by `id`.
pub open spec fn payload_from(e: SimEvent, id: NodeId) -> bool {
    match e {
        SimEvent::BlockPayloadArrive { sender, .. } => sender == id,
        _ => false,
    }
}

/// `r` is the draw for a block payload sent by `id`.
pub open spec fn payload_draw_for(r: SampleRequest, id: NodeId) -> bool {
    match r {
        SampleRequest::BlockPayload { sender, .. } => sender == id,
        _ => false,
    }
}

/// `r` is a small-message draw that would deliver a block payload.
pub open spec fn carries_payload(r: SampleRequest) -> bool {
    match r {
        SampleRequest::MessageLatency { event, .. } => event is BlockPayloadArrive,
        _ => false,
    }
}

/// Node `q` has the identifier `q + 1`.
pub open spec fn ids_ok(s: &Simulation) -> bool {
    &&& s.nodes@.len() <= u32::MAX
    &&& forall|q: int| 0 <= q < s.nodes@.len() ==> (#[trigger] s.nodes@[q]).id == nid(q)
}

/// Sequence number of the node's pending mining event (0 when none is pending).
pub open spec fn pending_seq(nd: super::node::NodeState) -> u64 {
    match nd.pending_mining {
        Some(p) => p.1,
        None => 0,
    }
}

/// Number of entries of `es` that are payload arrivals sent by `id`.
pub open spec fn queued_payloads(es: Seq<TimedEvent>, id: NodeId) -> nat
    decreases es.len(),
{
    if es.len() == 0 {
        0
    } else {
        queued_payloads(es.drop_last(), id) + if payload_from(es.last().inner, id) {
            1nat
        } else {
            0nat
        }
    }
}

/// Number of draws of `rs` that are payload draws for `id`.
pub open spec fn payload_draws(rs: Seq<SampleRequest>, id: NodeId) -> nat
    decreases rs.len(),
{
    if rs.len() == 0 {
        0
    } else {
        payload_draws(rs.drop_last(), id) + if payload_draw_for(rs.last(), id) {
            1nat
        } else {
            0nat
        }
    }
}

/// Payloads of `id` in flight: queued arrivals plus draws still to be made in `rs`.
pub open spec fn in_flight(s: &Simulation, rs: Seq<SampleRequest>, id: NodeId) -> nat {
    queued_payloads(s.queue.entries(), id) + payload_draws(rs, id)
}

/// Queue facts that keep payload arrivals deliverable: none is cancelled, no node's pending
/// mining key names one, and pending keys and tombstones are sequence numbers already handed out.
pub open spec fn queue_ok(s: &Simulation) -> bool {
    let es = s.queue.entries();
    &&& forall|j: int|
        0 <= j < es.len() && (#[trigger] es[j]).inner is BlockPayloadArrive ==> !s.queue.is_cancelled(es[j].seq)
    &&& forall|i: int, j: int|
        0 <= i < s.nodes@.len() && 0 <= j < es.len() && (#[trigger] s.nodes@[i]).pending_mining is Some && (
        #[trigger] es[j]).seq == pending_seq(s.nodes@[i]) ==> !(es[j].inner is BlockPayloadArrive)
    &&& forall|i: int|
        0 <= i < s.nodes@.len() && (#[trigger] s.nodes@[i]).pending_mining is Some ==> pending_seq(s.nodes@[i])
            <= s.queue.last_seq()
    &&& forall|x: u64| #[trigger] s.queue.is_cancelled(x) ==> x <= s.queue.last_seq()
}

/// With the draws `rs` still to be made, every node has one payload in flight while it is
/// sending and none otherwise, no small message carries a payload, and the queue is as in
/// [`queue_ok`].
pub open spec fn sends_ok(s: &Simulation, rs: Seq<SampleRequest>) -> bool {
    &&& forall|i: int|
        #![trigger s.nodes@[i]]
        0 <= i < s.nodes@.len() ==> in_flight(s, rs, s.nodes@[i].id) == (if s.nodes@[i].sending_block {
            1nat
        } else {
            0nat
        })
    &&& forall|k: int| 0 <= k < rs.len() ==> !carries_payload(#[trigger] rs[k])
    &&& queue_ok(s)
}

pub proof fn lemma_queued_add(a: Seq<TimedEvent>, b: Seq<TimedEvent>, id: NodeId)
    ensures
        queued_payloads(a + b, id) == queued_payloads(a, id) + queued_payloads(b, id),
    decreases b.len(),
{
    if b.len() == 0 {
        assert(a + b =~= a);
    } else {
        lemma_queued_add(a, b.drop_last(), id);
        assert((a + b).drop_last() =~= a + b.drop_last());
        assert((a + b).last() == b.last());
    }
}

pub proof fn lemma_draws_add(a: Seq<SampleRequest>, b: Seq<SampleRequest>, id: NodeId)
    ensures
        payload_draws(a + b, id) == payload_draws(a, id) + payload_draws(b, id),
    decreases b.len(),
{
    if b.len() == 0 {
        assert(a + b =~= a);
    } else {
        lemma_draws_add(a, b.drop_last(), id);
        assert((a + b).drop_last() =~= a + b.drop_last());
        assert((a + b).last() == b.last());
    }
}

proof fn lemma_queued_none(es: Seq<TimedEvent>, id: NodeId)
    requires
        forall|j: int| 0 <= j < es.len() ==> !payload_from(#[trigger] es[j].inner, id),
    ensures
        queued_payloads(es, id) == 0,
    decreases es.len(),
{
    if es.len() > 0 {
        lemma_queued_none(es.drop_last(), id);
        assert(!payload_from(es[es.len() - 1].inner, id));
    }
}

pub proof fn lemma_draws_none(rs: Seq<SampleRequest>, id: NodeId)
    requires
        forall|k: int| 0 <= k < rs.len() ==> !payload_draw_for(#[trigger] rs[k], id),
    ensures
        payload_draws(rs, id) == 0,
    decreases rs.len(),
{
    if rs.len() > 0 {
        lemma_draws_none(rs.drop_last(), id);
        assert(!payload_draw_for(rs[rs.len() - 1], id));
    }
}

proof fn lemma_queued_one(e: TimedEvent, id: NodeId)
    ensures
        queued_payloads(seq![e], id) == if payload_from(e.inner, id) {
            1nat
        } else {
            0nat
        },
{
    assert(seq![e].drop_last() =~= Seq::<TimedEvent>::empty());
    assert(queued_payloads(Seq::<TimedEvent>::empty(), id) == 0);
    assert(seq![e].last() == e);
}

proof fn lemma_draws_one(r: SampleRequest, id: NodeId)
    ensures
        payload_draws(seq![r], id) == if payload_draw_for(r, id) {
            1nat
        } else {
            0nat
        },
{
    assert(seq![r].drop_last() =~= Seq::<SampleRequest>::empty());
    assert(payload_draws(Seq::<SampleRequest>::empty(), id) == 0);
    assert(seq![r].last() == r);
}

/// Inserting one entry adds one to the count of its sender.
proof fn lemma_queued_insert(es: Seq<TimedEvent>, p: int, e: TimedEvent, id: NodeId)
    requires
        0 <= p <= es.len(),
    ensures
        queued_payloads(es.insert(p, e), id) == queued_payloads(es, id) + if payload_from(e.inner, id) {
            1nat
        } else {
            0nat
        },
{
    let a = es.subrange(0, p);
    let b = es.subrange(p, es.len() as int);
    assert(es =~= a + b);
    assert(es.insert(p, e) =~= a + (seq![e] + b));
    lemma_queued_add(a, b, id);
    lemma_queued_add(seq![e], b, id);
    lemma_queued_add(a, seq![e] + b, id);
    lemma_queued_one(e, id);
}

/// Adding draws that are neither payload draws nor payload-carrying messages keeps
/// [`sends_ok`], whether they come before or after the others.
pub proof fn lemma_add_plain_draws(s: &Simulation, rs: Seq<SampleRequest>, xs: Seq<SampleRequest>)
    requires
        sends_ok(s, rs),
        forall|k: int|
            0 <= k < xs.len() ==> !(#[trigger] xs[k] is BlockPayload) && !carries_payload(xs[k]),
    ensures
        sends_ok(s, rs + xs),
        sends_ok(s, xs + rs),
{
    assert forall|i: int| #![trigger s.nodes@[i]] 0 <= i < s.nodes@.len() implies in_flight(s, rs + xs, s.nodes@[i].id)
        == in_flight(s, rs, s.nodes@[i].id) && in_flight(s, xs + rs, s.nodes@[i].id) == in_flight(
        s,
        rs,
        s.nodes@[i].id,
    ) by {
        let id = s.nodes@[i].id;
        lemma_draws_add(rs, xs, id);
        lemma_draws_add(xs, rs, id);
        assert forall|k: int| 0 <= k < xs.len() implies !payload_draw_for(#[trigger] xs[k], id) by {
            assert(!(xs[k] is BlockPayload));
        }
        lemma_draws_none(xs, id);
    }
    assert forall|k: int| 0 <= k < (rs + xs).len() implies !carries_payload(#[trigger] (rs + xs)[k]) by {
        if k < rs.len() {
            assert((rs + xs)[k] == rs[k]);
        } else {
            assert((rs + xs)[k] == xs[k - rs.len()]);
        }
    }
    assert forall|k: int| 0 <= k < (xs + rs).len() implies !carries_payload(#[trigger] (xs + rs)[k]) by {
        if k < xs.len() {
            assert((xs + rs)[k] == xs[k]);
        } else {
            assert((xs + rs)[k] == rs[k - xs.len()]);
        }
    }
}

/// Dropping a first draw that is not a payload draw keeps [`sends_ok`].
pub proof fn lemma_drop_plain_draw(s: &Simulation, rs: Seq<SampleRequest>)
    requires
        sends_ok(s, rs),
        rs.len() > 0,
        !(rs[0] is BlockPayload),
    ensures
        sends_ok(s, rs.drop_first()),
{
    assert(rs =~= seq![rs[0]] + rs.drop_first());
    assert forall|i: int| #![trigger s.nodes@[i]] 0 <= i < s.nodes@.len() implies in_flight(
        s,
        rs.drop_first(),
        s.nodes@[i].id,
    ) == in_flight(s, rs, s.nodes@[i].id) by {
        lemma_draws_add(seq![rs[0]], rs.drop_first(), s.nodes@[i].id);
        lemma_draws_one(rs[0], s.nodes@[i].id);
    }
    assert forall|k: int| 0 <= k < rs.drop_first().len() implies !carries_payload(#[trigger] rs.drop_first()[k]) by {
        assert(rs.drop_first()[k] == rs[k + 1]);
    }
}

/// A change of node `i`'s run-time fields that keeps its sending flag and its pending mining
/// key (or clears the key), with queue and tombstones unchanged, keeps [`sends_ok`].
proof fn lemma_node_fields(pre: &Simulation, post: &Simulation, i: int, rs: Seq<SampleRequest>)
    requires
        sends_ok(pre, rs),
        only_node_changed(pre.nodes@, post.nodes@, i),
        post.nodes@[i].sending_block == pre.nodes@[i].sending_block,
        post.nodes@[i].pending_mining is None || post.nodes@[i].pending_mining == pre.nodes@[i].pending_mining,
        post.queue == pre.queue,
    ensures
        sends_ok(post, rs),
{
    assert forall|q: int| #![trigger post.nodes@[q]] 0 <= q < post.nodes@.len() implies in_flight(
        post,
        rs,
        post.nodes@[q].id,
    ) == (if post.nodes@[q].sending_block {
        1nat
    } else {
        0nat
    }) by {
        if q != i {
            assert(post.nodes@[q] == pre.nodes@[q]);
        }
        assert(pre.nodes@[q].id == post.nodes@[q].id);
    }
    assert forall|a: int, j: int|
        0 <= a < post.nodes@.len() && 0 <= j < post.queue.entries().len() && (
        #[trigger] post.nodes@[a]).pending_mining is Some && (#[trigger] post.queue.entries()[j]).seq
            == pending_seq(post.nodes@[a]) implies !(post.queue.entries()[j].inner is BlockPayloadArrive) by {
        if a != i {
            assert(post.nodes@[a] == pre.nodes@[a]);
        }
        assert(pre.nodes@[a].pending_mining is Some);
    }
    assert forall|a: int|
        0 <= a < post.nodes@.len() && (#[trigger] post.nodes@[a]).pending_mining is Some implies pending_seq(post.nodes@[a])
        <= post.queue.last_seq() by {
        if a != i {
            assert(post.nodes@[a] == pre.nodes@[a]);
        }
        assert(pre.nodes@[a].pending_mining is Some);
    }
}

/// An adoption keeps [`sends_ok`] with its draws added before or after the others.
pub proof fn lemma_adopt_sends(
    pre: &Simulation,
    post: &Simulation,
    node: NodeId,
    block: BlockId,
    rs: Seq<SampleRequest>,
    reqs: Seq<SampleRequest>,
)
    requires
        sends_ok(pre, rs),
        adopt_post(pre, post, node, block, reqs),
        1 <= node <= pre.nodes@.len(),
    ensures
        sends_ok(post, rs + reqs),
        sends_ok(post, reqs + rs),
{
    let i = node - 1;
    if !pre.adopts(node, block) {
        assert(rs + reqs =~= rs);
        assert(reqs + rs =~= rs);
    } else {
        let a = pre.nodes@[i];
        let es = post.queue.entries();
        assert forall|q: int| #![trigger post.nodes@[q]] 0 <= q < post.nodes@.len() implies in_flight(
            post,
            rs,
            post.nodes@[q].id,
        ) == (if post.nodes@[q].sending_block {
            1nat
        } else {
            0nat
        }) by {
            if q != i {
                assert(post.nodes@[q] == pre.nodes@[q]);
            }
            assert(pre.nodes@[q].id == post.nodes@[q].id);
        }
        assert forall|j: int|
            0 <= j < es.len() && (#[trigger] es[j]).inner is BlockPayloadArrive implies !post.queue.is_cancelled(
            es[j].seq,
        ) by {
            assert(es[j] == pre.queue.entries()[j]);
            match a.pending_mining {
                Some(p) => {
                    assert(pre.nodes@[i].pending_mining is Some);
                    if es[j].seq == p.1 {
                        assert(!(pre.queue.entries()[j].inner is BlockPayloadArrive));
                    }
                },
                None => {},
            }
        }
        assert forall|q: int, j: int|
            0 <= q < post.nodes@.len() && 0 <= j < es.len() && (#[trigger] post.nodes@[q]).pending_mining is Some
                && (#[trigger] es[j]).seq == pending_seq(post.nodes@[q]) implies !(es[j].inner is BlockPayloadArrive) by {
            if q != i {
                assert(post.nodes@[q] == pre.nodes@[q]);
            }
            assert(pre.nodes@[q].pending_mining is Some);
            assert(es[j] == pre.queue.entries()[j]);
        }
        assert forall|q: int|
            0 <= q < post.nodes@.len() && (#[trigger] post.nodes@[q]).pending_mining is Some implies pending_seq(post.nodes@[q])
            <= post.queue.last_seq() by {
            if q != i {
                assert(post.nodes@[q] == pre.nodes@[q]);
            }
            assert(pre.nodes@[q].pending_mining is Some);
        }
        assert forall|x: u64| #[trigger] post.queue.is_cancelled(x) implies x <= post.queue.last_seq() by {
            if !pre.queue.is_cancelled(x) {
                assert(pre.nodes@[i].pending_mining is Some);
            }
        }
        assert(sends_ok(post, rs));
        if !post.finished {
            let nbr_reqs = pre.inv_requests(node, block);
            assert(reqs == seq![pre.mining_request(node, block)] + nbr_reqs);
            assert forall|k: int| 0 <= k < reqs.len() implies !(#[trigger] reqs[k] is BlockPayload) && !carries_payload(
                reqs[k],
            ) by {
                if k > 0 {
                    assert(reqs[k] == nbr_reqs[k - 1]);
                }
            }
        }
        lemma_add_plain_draws(post, rs, reqs);
    }
}

/// Starting the next send of `sender` keeps [`sends_ok`] with its payload draw added after the
/// others.
pub proof fn lemma_start_send_sends(
    pre: &Simulation,
    post: &Simulation,
    sender: NodeId,
    rs: Seq<SampleRequest>,
    reqs: Seq<SampleRequest>,
)
    requires
        sends_ok(pre, rs),
        start_send_post(pre, post, sender, reqs),
        1 <= sender <= pre.nodes@.len(),
        ids_ok(pre),
    ensures
        sends_ok(post, rs + reqs),
{
    let i = sender - 1;
    let a = pre.nodes@[i];
    if a.sending_block || a.block_send_queue@.len() == 0 {
        assert(rs + reqs =~= rs);
    } else {
        let r = pre.block_send_request(sender, a.block_send_queue@[0]);
        assert(reqs == seq![r]);
        assert(payload_draw_for(r, sender));
        assert forall|q: int| #![trigger post.nodes@[q]] 0 <= q < post.nodes@.len() implies in_flight(
            post,
            rs + reqs,
            post.nodes@[q].id,
        ) == (if post.nodes@[q].sending_block {
            1nat
        } else {
            0nat
        }) by {
            let id = post.nodes@[q].id;
            lemma_draws_add(rs, reqs, id);
            lemma_draws_one(r, id);
            if q != i {
                assert(post.nodes@[q] == pre.nodes@[q]);
                assert(pre.nodes@[q].id == nid(q));
                assert(pre.nodes@[i].id == nid(i));
            }
        }
        assert forall|k: int| 0 <= k < (rs + reqs).len() implies !carries_payload(#[trigger] (rs + reqs)[k]) by {
            if k < rs.len() {
                assert((rs + reqs)[k] == rs[k]);
            }
        }
        lemma_node_fields_queue(pre, post, i);
    }
}

/// Queue facts survive a change of one node that keeps its pending mining key.
proof fn lemma_node_fields_queue(pre: &Simulation, post: &Simulation, i: int)
    requires
        queue_ok(pre),
        only_node_changed(pre.nodes@, post.nodes@, i),
        post.nodes@[i].pending_mining == pre.nodes@[i].pending_mining,
        post.queue == pre.queue,
    ensures
        queue_ok(post),
{
    assert forall|a: int, j: int|
        0 <= a < post.nodes@.len() && 0 <= j < post.queue.entries().len() && (
        #[trigger] post.nodes@[a]).pending_mining is Some && (#[trigger] post.queue.entries()[j]).seq
            == pending_seq(post.nodes@[a]) implies !(post.queue.entries()[j].inner is BlockPayloadArrive) by {
        if a != i {
            assert(post.nodes@[a] == pre.nodes@[a]);
        }
        assert(pre.nodes@[a].pending_mining is Some);
    }
    assert forall|a: int|
        0 <= a < post.nodes@.len() && (#[trigger] post.nodes@[a]).pending_mining is Some implies pending_seq(post.nodes@[a])
        <= post.queue.last_seq() by {
        if a != i {
            assert(post.nodes@[a] == pre.nodes@[a]);
        }
        assert(pre.nodes@[a].pending_mining is Some);
    }
}

/// Identifiers survive a change of node fields.
proof fn lemma_ids_kept(pre: &Simulation, post: &Simulation, i: int)
    requires
        ids_ok(pre),
        only_node_changed(pre.nodes@, post.nodes@, i),
    ensures
        ids_ok(post),
{
    assert forall|q: int| 0 <= q < post.nodes@.len() implies (#[trigger] post.nodes@[q]).id == nid(q) by {
        if q != i {
            assert(post.nodes@[q] == pre.nodes@[q]);
        }
        assert(pre.nodes@[q].id == nid(q));
    }
}

/// Popping the earliest live event removes it (and cancelled entries, none of them a payload)
/// from the count of its sender and keeps the queue facts.
proof fn lemma_pop_sends(pre: &Simulation, mid: &Simulation, te: TimedEvent)
    requires
        sends_ok(pre, Seq::<SampleRequest>::empty()),
        popped(pre, mid, te),
    ensures
        queue_ok(mid),
        forall|id: NodeId|
            #[trigger] in_flight(mid, Seq::<SampleRequest>::empty(), id) + (if payload_from(te.inner, id) {
                1nat
            } else {
                0nat
            }) == in_flight(pre, Seq::<SampleRequest>::empty(), id),
{
    let es = pre.queue.entries();
    let k = es.len() - mid.queue.entries().len() - 1;
    let a = es.subrange(0, k);
    let b = es.subrange(k + 1, es.len() as int);
    assert(mid.queue.entries() =~= b);
    assert(es =~= a + (seq![te] + b));
    assert forall|id: NodeId|
        #[trigger] in_flight(mid, Seq::<SampleRequest>::empty(), id) + (if payload_from(te.inner, id) {
            1nat
        } else {
            0nat
        }) == in_flight(pre, Seq::<SampleRequest>::empty(), id) by {
        assert forall|j: int| 0 <= j < a.len() implies !payload_from(#[trigger] a[j].inner, id) by {
            assert(a[j] == es[j]);
            assert(pre.queue.is_cancelled(es[j].seq));
        }
        lemma_queued_none(a, id);
        lemma_queued_add(a, seq![te] + b, id);
        lemma_queued_add(seq![te], b, id);
        lemma_queued_one(te, id);
    }
    let ms = mid.queue.entries();
    assert forall|j: int|
        0 <= j < ms.len() && (#[trigger] ms[j]).inner is BlockPayloadArrive implies !mid.queue.is_cancelled(ms[j].seq) by {
        assert(ms[j] == es[k + 1 + j]);
    }
    assert forall|q: int, j: int|
        0 <= q < mid.nodes@.len() && 0 <= j < ms.len() && (#[trigger] mid.nodes@[q]).pending_mining is Some && (
        #[trigger] ms[j]).seq == pending_seq(mid.nodes@[q]) implies !(ms[j].inner is BlockPayloadArrive) by {
        assert(ms[j] == es[k + 1 + j]);
        assert(pre.nodes@[q] == mid.nodes@[q]);
    }
    assert forall|q: int|
        0 <= q < mid.nodes@.len() && (#[trigger] mid.nodes@[q]).pending_mining is Some implies pending_seq(mid.nodes@[q])
        <= mid.queue.last_seq() by {
        assert(pre.nodes@[q] == mid.nodes@[q]);
    }
}

/// A mining completion keeps [`sends_ok`] unless it ends the run.
proof fn lemma_mining_sends(pre: &Simulation, post: &Simulation, node: NodeId, parent: BlockId, reqs: Seq<SampleRequest>)
    requires
        sends_ok(pre, Seq::<SampleRequest>::empty()),
        mining_post(pre, post, node, parent, reqs),
        1 <= node <= pre.nodes@.len(),
    ensures
        post.finished || sends_ok(post, reqs),
{
    let i = node - 1;
    let prec = pre.store.rec(parent);
    let layer1 = next_layer(pre.mint_stop_layer, prec.height);
    if pre.node(node).tip != Some(parent) {
        lemma_node_fields(pre, post, i, reqs);
    } else if layer1 > pre.sim.end_block_height {
    } else {
        let mid = choose|mid: Simulation|
            {
                &&& only_node_changed(pre.nodes@, mid.nodes@, i)
                &&& mid.nodes@[i].pending_mining is None
                &&& same_dynamic_but_pending(pre.nodes@[i], mid.nodes@[i])
                &&& mid.store@.len() == pre.store@.len() + 1
                &&& mid.store@.subrange(0, pre.store@.len() as int) == pre.store@
                &&& super::handlers::mined_block(mid.store@.last(), prec, parent, node, pre.now_ms)
                &&& mid.mint_stop_layer == layer1
                &&& mid.graph_snapshot_heights@ == super::handlers::next_snapshots(
                    pre.graph_snapshot_heights@,
                    layer1 as u32,
                )
                &&& mid.finished == pre.finished
                &&& mid.sim == pre.sim
                &&& mid.net == pre.net
                &&& mid.now_ms == pre.now_ms
                &&& mid.queue == pre.queue
                &&& mid.propagation == pre.propagation
                &&& mid.log == pre.log
                &&& #[trigger] adopt_post(&mid, post, node, BlockId(pre.store@.len() as u64), reqs)
            };
        lemma_node_fields(pre, &mid, i, Seq::<SampleRequest>::empty());
        lemma_adopt_sends(&mid, post, node, BlockId(pre.store@.len() as u64), Seq::<SampleRequest>::empty(), reqs);
        assert(Seq::<SampleRequest>::empty() + reqs =~= reqs);
    }
}

/// Handling a popped event keeps [`sends_ok`] with the handler's draws, unless the run ended.
pub proof fn lemma_step_sends(pre: &Simulation, mid: &Simulation, post: &Simulation, te: TimedEvent, reqs: Seq<
    SampleRequest,
>)
    requires
        sends_ok(pre, Seq::<SampleRequest>::empty()),
        ids_ok(pre),
        popped(pre, mid, te),
        handled(mid, post, te.inner, reqs),
        te.inner.refs_ok(pre.nodes@.len(), pre.store@.len()),
    ensures
        post.finished || sends_ok(post, reqs),
{
    let e0 = Seq::<SampleRequest>::empty();
    lemma_pop_sends(pre, mid, te);
    assert(ids_ok(mid));
    match te.inner {
        SimEvent::BlockPayloadArrive { recipient, sender, block, depart_ms, kind } => {
            let si = sender - 1;
            assert(pre.nodes@[si].id == sender);
            assert(payload_from(te.inner, sender));
            assert(pre.nodes@[si].sending_block) by {
                assert(in_flight(mid, e0, sender) + 1 == in_flight(pre, e0, pre.nodes@[si].id));
            }
            assert(in_flight(mid, e0, sender) == 0) by {
                assert(in_flight(mid, e0, sender) + 1 == in_flight(pre, e0, pre.nodes@[si].id));
            }
            // the sender is idle again once the transfer is logged
            assert forall|m1: Simulation| #[trigger] payload_logged(mid, &m1, recipient, sender, block, depart_ms) implies sends_ok(
                &m1,
                e0,
            ) && ids_ok(&m1) by {
                lemma_ids_kept(mid, &m1, si);
                assert forall|q: int| #![trigger m1.nodes@[q]] 0 <= q < m1.nodes@.len() implies in_flight(
                    &m1,
                    e0,
                    m1.nodes@[q].id,
                ) == (if m1.nodes@[q].sending_block {
                    1nat
                } else {
                    0nat
                }) by {
                    if q != si {
                        assert(m1.nodes@[q] == mid.nodes@[q]);
                        assert(mid.nodes@[q] == pre.nodes@[q]);
                        assert(pre.nodes@[q].id == nid(q));
                        assert(!payload_from(te.inner, pre.nodes@[q].id));
                        assert(in_flight(mid, e0, pre.nodes@[q].id) + 0 == in_flight(pre, e0, pre.nodes@[q].id));
                    } else {
                        assert(m1.nodes@[q].id == sender);
                    }
                }
                lemma_node_fields_queue(mid, &m1, si);
            }
            match kind {
                BlockPayloadKind::Full => {
                    let (m1, m2, m3, r1, r2) = choose|
                        m1: Simulation,
                        m2: Simulation,
                        m3: Simulation,
                        r1: Seq<SampleRequest>,
                        r2: Seq<SampleRequest>,
                    |
                        #![trigger start_send_post(&m1, &m2, sender, r1), adopt_post(&m3, post, recipient, block, r2)]
                        {
                            &&& payload_logged(mid, &m1, recipient, sender, block, depart_ms)
                            &&& start_send_post(&m1, &m2, sender, r1)
                            &&& download_dropped(&m2, &m3, recipient - 1, block)
                            &&& adopt_post(&m3, post, recipient, block, r2)
                            &&& reqs == r1 + r2
                        };
                    assert(sends_ok(&m1, e0) && ids_ok(&m1));
                    lemma_start_send_sends(&m1, &m2, sender, e0, r1);
                    assert(e0 + r1 =~= r1);
                    lemma_node_fields(&m2, &m3, recipient - 1, r1);
                    lemma_adopt_sends(&m3, post, recipient, block, r1, r2);
                },
                BlockPayloadKind::Compact => {
                    let (m1, r1) = choose|m1: Simulation, r1: Seq<SampleRequest>|
                        #![trigger start_send_post(&m1, post, sender, r1)]
                        {
                            &&& payload_logged(mid, &m1, recipient, sender, block, depart_ms)
                            &&& start_send_post(&m1, post, sender, r1)
                            &&& reqs == r1 + seq![
                                SampleRequest::CompactDecode {
                                    recipient,
                                    sender,
                                    block,
                                    recipient_is_churn: post.node(recipient).is_churn,
                                },
                            ]
                        };
                    assert(sends_ok(&m1, e0) && ids_ok(&m1));
                    lemma_start_send_sends(&m1, post, sender, e0, r1);
                    assert(e0 + r1 =~= r1);
                    let cd = seq![
                        SampleRequest::CompactDecode {
                            recipient,
                            sender,
                            block,
                            recipient_is_churn: post.node(recipient).is_churn,
                        },
                    ];
                    lemma_add_plain_draws(post, r1, cd);
                },
            }
        },
        _ => {
            assert(sends_ok(mid, e0)) by {
                assert forall|i: int| #![trigger mid.nodes@[i]] 0 <= i < mid.nodes@.len() implies in_flight(
                    mid,
                    e0,
                    mid.nodes@[i].id,
                ) == (if mid.nodes@[i].sending_block {
                    1nat
                } else {
                    0nat
                }) by {
                    assert(mid.nodes@[i] == pre.nodes@[i]);
                    assert(in_flight(mid, e0, mid.nodes@[i].id) + 0 == in_flight(pre, e0, pre.nodes@[i].id));
                }
            }
            match te.inner {
                SimEvent::MiningFinished { node, parent } => lemma_mining_sends(mid, post, node, parent, reqs),
                SimEvent::InvArrive { to, from, block } => {
                    if !mid.requests_block(to, block) {
                        assert(reqs.len() == 0);
                        assert(reqs =~= e0);
                    } else {
                        lemma_node_fields(mid, post, to - 1, e0);
                        lemma_add_plain_draws(post, e0, reqs);
                        assert(e0 + reqs =~= reqs);
                    }
                },
                SimEvent::RecArrive { to, from, block } => {
                    let job = BlockSendJob { kind: BlockSendKind::Rec, requester: from, block };
                    let m = choose|m: Simulation| job_queued(mid, &m, to - 1, job) && #[trigger] start_send_post(&m, post, to, reqs);
                    lemma_node_fields(mid, &m, to - 1, e0);
                    lemma_ids_kept(mid, &m, to - 1);
                    lemma_start_send_sends(&m, post, to, e0, reqs);
                    assert(e0 + reqs =~= reqs);
                },
                SimEvent::GetBlockTxnArrive { to, from, block } => {
                    let job = BlockSendJob { kind: BlockSendKind::GetBlockTxn, requester: from, block };
                    let m = choose|m: Simulation| job_queued(mid, &m, to - 1, job) && #[trigger] start_send_post(&m, post, to, reqs);
                    lemma_node_fields(mid, &m, to - 1, e0);
                    lemma_ids_kept(mid, &m, to - 1);
                    lemma_start_send_sends(&m, post, to, e0, reqs);
                    assert(e0 + reqs =~= reqs);
                },
                _ => {},
            }
        },
    }
}

/// Queueing one event keeps the queue facts, when every node keeps its pending mining key or
/// now points it at the queued mining event, and adds one to the count of the event's sender.
proof fn lemma_scheduled_queue(pre: &Simulation, post: &Simulation, at: u64, ev: SimEvent)
    requires
        queue_ok(pre),
        pre.queue.wf(),
        scheduled(pre, post, at, ev),
        post.nodes@.len() == pre.nodes@.len(),
        forall|q: int|
            0 <= q < pre.nodes@.len() ==> (#[trigger] post.nodes@[q]).pending_mining == pre.nodes@[q].pending_mining
                || (post.nodes@[q].pending_mining == Some((at, post.queue.last_seq())) && ev is MiningFinished),
    ensures
        queue_ok(post),
        forall|id: NodeId|
            #[trigger] queued_payloads(post.queue.entries(), id) == queued_payloads(pre.queue.entries(), id) + (if payload_from(
                ev,
                id,
            ) {
                1nat
            } else {
                0nat
            }),
{
    pre.queue.lemma_seqs_bounded();
    let es = pre.queue.entries();
    let te = TimedEvent { at_ms: at, seq: post.queue.last_seq(), inner: ev };
    let p = choose|p: int| 0 <= p <= es.len() && post.queue.entries() == #[trigger] es.insert(p, te);
    let ps = post.queue.entries();
    assert forall|id: NodeId|
        #[trigger] queued_payloads(post.queue.entries(), id) == queued_payloads(pre.queue.entries(), id) + (if payload_from(
            ev,
            id,
        ) {
            1nat
        } else {
            0nat
        }) by {
        lemma_queued_insert(es, p, te, id);
    }
    assert forall|j: int| 0 <= j < ps.len() && (#[trigger] ps[j]).inner is BlockPayloadArrive implies !post.queue.is_cancelled(
        ps[j].seq,
    ) by {
        if j < p {
            assert(ps[j] == es[j]);
        } else if j > p {
            assert(ps[j] == es[j - 1]);
        } else {
            if post.queue.is_cancelled(ps[j].seq) {
                assert(pre.queue.is_cancelled(ps[j].seq));
            }
        }
    }
    assert forall|q: int, j: int|
        0 <= q < post.nodes@.len() && 0 <= j < ps.len() && (#[trigger] post.nodes@[q]).pending_mining is Some && (
        #[trigger] ps[j]).seq == pending_seq(post.nodes@[q]) implies !(ps[j].inner is BlockPayloadArrive) by {
        if post.nodes@[q].pending_mining == pre.nodes@[q].pending_mining {
            assert(pre.nodes@[q].pending_mining is Some);
            if j < p {
                assert(ps[j] == es[j]);
            } else if j > p {
                assert(ps[j] == es[j - 1]);
            }
        } else {
            if j < p {
                assert(ps[j] == es[j]);
                assert(es[j].seq <= pre.queue.last_seq());
            } else if j > p {
                assert(ps[j] == es[j - 1]);
                assert(es[j - 1].seq <= pre.queue.last_seq());
            }
        }
    }
    assert forall|q: int|
        0 <= q < post.nodes@.len() && (#[trigger] post.nodes@[q]).pending_mining is Some implies pending_seq(post.nodes@[q])
        <= post.queue.last_seq() by {
        if post.nodes@[q].pending_mining == pre.nodes@[q].pending_mining {
            assert(pre.nodes@[q].pending_mining is Some);
        }
    }
    assert forall|x: u64| #[trigger] post.queue.is_cancelled(x) implies x <= post.queue.last_seq() by {
        assert(pre.queue.is_cancelled(x));
    }
}

/// A queued event whose draw was the first of `rs`, when that draw is not a payload draw and
/// the event not a payload, keeps [`sends_ok`] for the remaining draws.
pub proof fn lemma_scheduled_plain_sends(pre: &Simulation, post: &Simulation, at: u64, ev: SimEvent, rs: Seq<
    SampleRequest,
>)
    requires
        sends_ok(pre, rs),
        pre.queue.wf(),
        scheduled(pre, post, at, ev),
        rs.len() > 0,
        !(rs[0] is BlockPayload),
        !(ev is BlockPayloadArrive),
        post.nodes@.len() == pre.nodes@.len(),
        forall|q: int|
            0 <= q < pre.nodes@.len() ==> {
                &&& (#[trigger] post.nodes@[q]).id == pre.nodes@[q].id
                &&& post.nodes@[q].sending_block == pre.nodes@[q].sending_block
                &&& (post.nodes@[q].pending_mining == pre.nodes@[q].pending_mining || (
                post.nodes@[q].pending_mining == Some((at, post.queue.last_seq())) && ev is MiningFinished))
            },
    ensures
        sends_ok(post, rs.drop_first()),
{
    lemma_drop_plain_draw(pre, rs);
    let rest = rs.drop_first();
    lemma_scheduled_queue(pre, post, at, ev);
    assert forall|q: int| #![trigger post.nodes@[q]] 0 <= q < post.nodes@.len() implies in_flight(
        post,
        rest,
        post.nodes@[q].id,
    ) == (if post.nodes@[q].sending_block {
        1nat
    } else {
        0nat
    }) by {
        assert(pre.nodes@[q].id == post.nodes@[q].id);
        assert(queued_payloads(post.queue.entries(), post.nodes@[q].id) == queued_payloads(
            pre.queue.entries(),
            post.nodes@[q].id,
        ) + 0);
    }
}

/// Queueing the payload whose draw was the first of `rs` keeps [`sends_ok`] for the remaining
/// draws: the payload moves from the draws to the queue.
pub proof fn lemma_scheduled_payload_sends(pre: &Simulation, post: &Simulation, at: u64, ev: SimEvent, sender: NodeId, rs: Seq<
    SampleRequest,
>)
    requires
        sends_ok(pre, rs),
        pre.queue.wf(),
        scheduled(pre, post, at, ev),
        rs.len() > 0,
        payload_draw_for(rs[0], sender),
        payload_from(ev, sender),
        post.nodes == pre.nodes,
    ensures
        sends_ok(post, rs.drop_first()),
{
    let rest = rs.drop_first();
    assert(rs =~= seq![rs[0]] + rest);
    lemma_scheduled_queue(pre, post, at, ev);
    assert forall|q: int| #![trigger post.nodes@[q]] 0 <= q < post.nodes@.len() implies in_flight(
        post,
        rest,
        post.nodes@[q].id,
    ) == (if post.nodes@[q].sending_block {
        1nat
    } else {
        0nat
    }) by {
        let id = post.nodes@[q].id;
        assert(pre.nodes@[q] == post.nodes@[q]);
        lemma_draws_add(seq![rs[0]], rest, id);
        lemma_draws_one(rs[0], id);
        assert(payload_from(ev, id) == payload_draw_for(rs[0], id));
    }
    assert forall|k: int| 0 <= k < rest.len() implies !carries_payload(#[trigger] rest[k]) by {
        assert(rest[k] == rs[k + 1]);
    }
}

/// A decoded compact payload, answering the first draw of `rs`, keeps [`sends_ok`] with its own
/// draws put before the remaining ones.
pub proof fn lemma_decoded_sends(
    pre: &Simulation,
    post: &Simulation,
    recipient: NodeId,
    sender: NodeId,
    block: BlockId,
    failed: bool,
    rs: Seq<SampleRequest>,
    reqs: Seq<SampleRequest>,
)
    requires
        sends_ok(pre, rs),
        rs.len() > 0,
        rs[0] is CompactDecode,
        decoded_post(pre, post, recipient, sender, block, failed, reqs),
        1 <= recipient <= pre.nodes@.len(),
    ensures
        sends_ok(post, reqs + rs.drop_first()),
{
    lemma_drop_plain_draw(pre, rs);
    let rest = rs.drop_first();
    if failed {
        assert forall|k: int| 0 <= k < reqs.len() implies !(#[trigger] reqs[k] is BlockPayload) && !carries_payload(
            reqs[k],
        ) by {}
        lemma_add_plain_draws(pre, rest, reqs);
    } else {
        let mid = choose|mid: Simulation|
            download_dropped(pre, &mid, recipient - 1, block) && #[trigger] adopt_post(&mid, post, recipient, block, reqs);
        lemma_node_fields(pre, &mid, recipient - 1, rest);
        lemma_adopt_sends(&mid, post, recipient, block, rest, reqs);
    }
}

/// When every queued entry was cancelled, nothing is in flight: emptying the queue keeps
/// [`sends_ok`].
pub proof fn lemma_drained_sends(pre: &Simulation, post: &Simulation)
    requires
        sends_ok(pre, Seq::<SampleRequest>::empty()),
        forall|j: int| 0 <= j < pre.queue.entries().len() ==> pre.queue.is_cancelled(#[trigger] pre.queue.entries()[j].seq),
        post.queue.entries().len() == 0,
        post.queue.last_seq() == pre.queue.last_seq(),
        forall|x: u64| #[trigger] post.queue.is_cancelled(x) ==> pre.queue.is_cancelled(x),
        post.nodes == pre.nodes,
    ensures
        sends_ok(post, Seq::<SampleRequest>::empty()),
{
    let e0 = Seq::<SampleRequest>::empty();
    assert forall|i: int| #![trigger post.nodes@[i]] 0 <= i < post.nodes@.len() implies in_flight(
        post,
        e0,
        post.nodes@[i].id,
    ) == (if post.nodes@[i].sending_block {
        1nat
    } else {
        0nat
    }) by {
        let id = post.nodes@[i].id;
        assert(pre.nodes@[i] == post.nodes@[i]);
        assert forall|j: int| 0 <= j < pre.queue.entries().len() implies !payload_from(
            #[trigger] pre.queue.entries()[j].inner,
            id,
        ) by {
            assert(pre.queue.is_cancelled(pre.queue.entries()[j].seq));
        }
        lemma_queued_none(pre.queue.entries(), id);
        lemma_queued_none(post.queue.entries(), id);
    }
    assert forall|q: int|
        0 <= q < post.nodes@.len() && (#[trigger] post.nodes@[q]).pending_mining is Some implies pending_seq(post.nodes@[q])
        <= post.queue.last_seq() by {
        assert(pre.nodes@[q] == post.nodes@[q]);
    }
}

} // verus!
