//! What every transition of a simulation keeps: the clock and the layer counter never go back,
//! blocks are only appended, the links and per-node draws stay fixed, no node's tip loses work,
//! and the event log only grows, with new entries in time order.
use super::handlers::{
    adopt_post, decoded_post, download_dropped, handled, job_queued, mining_post, next_layer,
    only_node_changed, payload_logged, popped, same_dynamic_but_pending, scheduled, start_send_post,
};
use super::node::{BlockSendJob, BlockSendKind};
use super::{same_static, SampleRequest, Simulation};
use crate::event::{BlockPayloadKind, SimEvent};
use crate::output::LogEvent;
use crate::types::{BlockId, NodeId};
use vstd::prelude::*;

verus! {

/// The simulated time at which a log entry happened (the reception time of a transfer).
pub open spec fn event_time(e: LogEvent) -> u64 {
    match e {
        LogEvent::AddNode { timestamp, .. } => timestamp,
        LogEvent::AddLink { timestamp, .. } => timestamp,
        LogEvent::AddBlock { timestamp, .. } => timestamp,
        LogEvent::FlowBlock { reception_timestamp, .. } => reception_timestamp,
        LogEvent::SimulationEnd { timestamp } => timestamp,
    }
}

/// Entries of `s` are in nondecreasing time order.
pub open spec fn times_sorted(s: Seq<LogEvent>) -> bool {
    forall|i: int, j: int| 0 <= i < j < s.len() ==> event_time(#[trigger] s[i]) <= event_time(#[trigger] s[j])
}

/// Every entry of `s` happened between `lo` and `hi`.
pub open spec fn times_within(s: Seq<LogEvent>, lo: u64, hi: u64) -> bool {
    forall|k: int| 0 <= k < s.len() ==> lo <= event_time(#[trigger] s[k]) <= hi
}

/// `y` is `x` followed by entries in time order that happened between `lo` and `hi`.
pub open spec fn log_grows(x: Seq<LogEvent>, y: Seq<LogEvent>, lo: u64, hi: u64) -> bool {
    &&& x.len() <= y.len()
    &&& y.subrange(0, x.len() as int) == x
    &&& times_sorted(y.subrange(x.len() as int, y.len() as int))
    &&& times_within(y.subrange(x.len() as int, y.len() as int), lo, hi)
}

/// The log is in time order and holds nothing after the current time.
pub open spec fn log_ordered(s: &Simulation) -> bool {
    &&& times_sorted(s.log.events@)
    &&& times_within(s.log.events@, 0, s.now_ms)
}

/// Total work of node `i`'s tip (`-1` when it has no stored tip).
pub open spec fn tip_work(s: &Simulation, i: int) -> int {
    match s.tip_rec(s.nodes@[i].tip) {
        Some(r) => r.total_difficulty@ as int,
        None => -1,
    }
}

/// `b` is a later state of the same run as `a`.
pub open spec fn progress(a: &Simulation, b: &Simulation) -> bool {
    &&& b.sim == a.sim
    &&& b.net == a.net
    &&& a.now_ms <= b.now_ms
    &&& a.store@.len() <= b.store@.len()
    &&& b.store@.subrange(0, a.store@.len() as int) == a.store@
    &&& a.mint_stop_layer <= b.mint_stop_layer
    &&& (a.finished ==> b.finished)
    &&& b.nodes@.len() == a.nodes@.len()
    &&& forall|i: int|
        #![trigger b.nodes@[i]]
        0 <= i < a.nodes@.len() ==> same_static(a.nodes@[i], b.nodes@[i]) && tip_work(a, i) <= tip_work(b, i)
    &&& log_grows(a.log.events@, b.log.events@, a.now_ms, b.now_ms)
    &&& b.propagation.cap() == a.propagation.cap()
}

/// A state is a later state of itself.
pub proof fn lemma_progress_refl(a: &Simulation)
    ensures
        progress(a, a),
{
    lemma_log_same(a.log.events@, a.now_ms, a.now_ms);
    assert(a.store@.subrange(0, a.store@.len() as int) =~= a.store@);
}

/// Later states of later states are later states: the properties in [`progress`] hold over any
/// number of transitions.
pub proof fn lemma_progress_trans(a: &Simulation, b: &Simulation, c: &Simulation)
    requires
        progress(a, b),
        progress(b, c),
    ensures
        progress(a, c),
{
    let x = a.log.events@;
    let y = b.log.events@;
    let z = c.log.events@;
    assert(c.store@.subrange(0, a.store@.len() as int) =~= b.store@.subrange(0, a.store@.len() as int));
    assert(z.subrange(0, x.len() as int) =~= y.subrange(0, x.len() as int));
    let t1 = y.subrange(x.len() as int, y.len() as int);
    let t2 = z.subrange(y.len() as int, z.len() as int);
    let t = z.subrange(x.len() as int, z.len() as int);
    assert(t =~= t1 + t2);
    assert forall|i: int, j: int| 0 <= i < j < t.len() implies event_time(#[trigger] t[i]) <= event_time(
        #[trigger] t[j],
    ) by {
        if j < t1.len() {
            assert(t[i] == t1[i] && t[j] == t1[j]);
        } else if i >= t1.len() {
            assert(t[i] == t2[i - t1.len()] && t[j] == t2[j - t1.len()]);
        } else {
            assert(t[i] == t1[i] && t[j] == t2[j - t1.len()]);
            assert(event_time(t1[i]) <= b.now_ms);
            assert(b.now_ms <= event_time(t2[j - t1.len()]));
        }
    }
    assert forall|k: int| 0 <= k < t.len() implies a.now_ms <= event_time(#[trigger] t[k]) <= c.now_ms by {
        if k < t1.len() {
            assert(t[k] == t1[k]);
        } else {
            assert(t[k] == t2[k - t1.len()]);
        }
    }
    assert forall|i: int| #![trigger c.nodes@[i]] 0 <= i < a.nodes@.len() implies same_static(a.nodes@[i], c.nodes@[i])
        && tip_work(a, i) <= tip_work(c, i) by {
        assert(same_static(a.nodes@[i], b.nodes@[i]));
        assert(tip_work(a, i) <= tip_work(b, i));
    }
}

/// A later state of a run whose log is in time order has its log in time order too.
pub proof fn lemma_log_ordered_kept(a: &Simulation, b: &Simulation)
    requires
        log_ordered(a),
        progress(a, b),
    ensures
        log_ordered(b),
{
    let x = a.log.events@;
    let y = b.log.events@;
    let t = y.subrange(x.len() as int, y.len() as int);
    assert forall|i: int, j: int| 0 <= i < j < y.len() implies event_time(#[trigger] y[i]) <= event_time(
        #[trigger] y[j],
    ) by {
        if j < x.len() {
            assert(y[i] == x[i] && y[j] == x[j]);
        } else if i >= x.len() {
            assert(y[i] == t[i - x.len()] && y[j] == t[j - x.len()]);
        } else {
            assert(y[i] == x[i] && y[j] == t[j - x.len()]);
        }
    }
    assert forall|k: int| 0 <= k < y.len() implies 0 <= event_time(#[trigger] y[k]) <= b.now_ms by {
        if k < x.len() {
            assert(y[k] == x[k]);
        } else {
            assert(y[k] == t[k - x.len()]);
        }
    }
}

/// Appending one entry at time `now` to a log (with `lo <= now <= hi`).
pub(crate) proof fn lemma_log_push(x: Seq<LogEvent>, e: LogEvent, lo: u64, hi: u64)
    requires
        lo <= event_time(e) <= hi,
    ensures
        log_grows(x, x.push(e), lo, hi),
{
    let y = x.push(e);
    assert(y.subrange(0, x.len() as int) =~= x);
    assert(y.subrange(x.len() as int, y.len() as int) =~= seq![e]);
}

/// An unchanged log.
pub(crate) proof fn lemma_log_same(x: Seq<LogEvent>, lo: u64, hi: u64)
    ensures
        log_grows(x, x, lo, hi),
{
    assert(x.subrange(0, x.len() as int) =~= x);
    assert(x.subrange(x.len() as int, x.len() as int) =~= Seq::<LogEvent>::empty());
}

/// Only node `i`'s run-time fields other than its tip changed; store, clock, layer, run status
/// and propagation window are the same, and the log is unchanged or grew by one entry at the
/// current time.
pub(crate) proof fn lemma_small_step(pre: &Simulation, post: &Simulation, i: int)
    requires
        only_node_changed(pre.nodes@, post.nodes@, i),
        post.nodes@[i].tip == pre.nodes@[i].tip,
        post.sim == pre.sim,
        post.net == pre.net,
        post.now_ms == pre.now_ms,
        post.store == pre.store,
        post.mint_stop_layer == pre.mint_stop_layer,
        post.finished == pre.finished,
        post.propagation.cap() == pre.propagation.cap(),
        log_grows(pre.log.events@, post.log.events@, pre.now_ms, pre.now_ms),
    ensures
        progress(pre, post),
{
    assert(pre.store@.subrange(0, pre.store@.len() as int) =~= pre.store@);
    assert forall|k: int|
        #![trigger post.nodes@[k]]
        0 <= k < pre.nodes@.len() implies same_static(pre.nodes@[k], post.nodes@[k]) && tip_work(pre, k)
        <= tip_work(post, k) by {
        if k != i {
            assert(post.nodes@[k] == pre.nodes@[k]);
        }
    }
}

proof fn lemma_identity(pre: &Simulation, post: &Simulation)
    requires
        *post == *pre,
    ensures
        progress(pre, post),
{
    lemma_progress_refl(pre);
}

proof fn lemma_adopt(pre: &Simulation, post: &Simulation, node: NodeId, block: BlockId, reqs: Seq<SampleRequest>)
    requires
        adopt_post(pre, post, node, block, reqs),
        1 <= node <= pre.nodes@.len(),
    ensures
        progress(pre, post),
{
    if !pre.adopts(node, block) {
        lemma_identity(pre, post);
    } else {
        let i = node - 1;
        lemma_log_push(pre.log.events@, LogEvent::AddBlock { timestamp: pre.now_ms, node, block_id: block.0 }, pre.now_ms, pre.now_ms);
        assert(pre.store@.subrange(0, pre.store@.len() as int) =~= pre.store@);
        assert forall|k: int|
            #![trigger post.nodes@[k]]
            0 <= k < pre.nodes@.len() implies same_static(pre.nodes@[k], post.nodes@[k]) && tip_work(pre, k)
            <= tip_work(post, k) by {
            if k != i {
                assert(post.nodes@[k] == pre.nodes@[k]);
            }
        }
    }
}

proof fn lemma_start_send(pre: &Simulation, post: &Simulation, sender: NodeId, reqs: Seq<SampleRequest>)
    requires
        start_send_post(pre, post, sender, reqs),
        1 <= sender <= pre.nodes@.len(),
    ensures
        progress(pre, post),
{
    let i = sender - 1;
    if pre.nodes@[i].sending_block || pre.nodes@[i].block_send_queue@.len() == 0 {
        lemma_identity(pre, post);
    } else {
        lemma_log_same(pre.log.events@, pre.now_ms, pre.now_ms);
        lemma_small_step(pre, post, i);
    }
}

proof fn lemma_job_queued(pre: &Simulation, post: &Simulation, i: int, job: BlockSendJob)
    requires
        job_queued(pre, post, i, job),
    ensures
        progress(pre, post),
{
    lemma_log_same(pre.log.events@, pre.now_ms, pre.now_ms);
    lemma_small_step(pre, post, i);
}

proof fn lemma_download_dropped(pre: &Simulation, post: &Simulation, i: int, block: BlockId)
    requires
        download_dropped(pre, post, i, block),
    ensures
        progress(pre, post),
{
    lemma_log_same(pre.log.events@, pre.now_ms, pre.now_ms);
    lemma_small_step(pre, post, i);
}

proof fn lemma_payload_logged(
    pre: &Simulation,
    post: &Simulation,
    recipient: NodeId,
    sender: NodeId,
    block: BlockId,
    depart_ms: u64,
)
    requires
        payload_logged(pre, post, recipient, sender, block, depart_ms),
    ensures
        progress(pre, post),
{
    lemma_log_push(
        pre.log.events@,
        LogEvent::FlowBlock {
            transmission_timestamp: depart_ms,
            reception_timestamp: pre.now_ms,
            begin: sender,
            end: recipient,
            block_id: block.0,
        },
        pre.now_ms,
        pre.now_ms,
    );
    lemma_small_step(pre, post, sender - 1);
}

/// A queued event changes no node, block or log entry.
pub proof fn lemma_scheduled(pre: &Simulation, post: &Simulation, at: u64, ev: SimEvent)
    requires
        scheduled(pre, post, at, ev),
        post.nodes == pre.nodes,
    ensures
        progress(pre, post),
{
    lemma_log_same(pre.log.events@, pre.now_ms, pre.now_ms);
    assert(pre.store@.subrange(0, pre.store@.len() as int) =~= pre.store@);
}

proof fn lemma_mining(pre: &Simulation, post: &Simulation, node: NodeId, parent: BlockId, reqs: Seq<SampleRequest>)
    requires
        mining_post(pre, post, node, parent, reqs),
        1 <= node <= pre.nodes@.len(),
    ensures
        progress(pre, post),
{
    let i = node - 1;
    let prec = pre.store.rec(parent);
    let layer1 = next_layer(pre.mint_stop_layer, prec.height);
    if pre.node(node).tip != Some(parent) {
        lemma_log_same(pre.log.events@, pre.now_ms, pre.now_ms);
        lemma_small_step(pre, post, i);
    } else if layer1 > pre.sim.end_block_height {
        lemma_log_same(pre.log.events@, pre.now_ms, pre.now_ms);
        assert(pre.store@.subrange(0, pre.store@.len() as int) =~= pre.store@);
        assert forall|k: int|
            #![trigger post.nodes@[k]]
            0 <= k < pre.nodes@.len() implies same_static(pre.nodes@[k], post.nodes@[k]) && tip_work(pre, k)
            <= tip_work(post, k) by {
            if k != i {
                assert(post.nodes@[k] == pre.nodes@[k]);
            }
        }
    } else {
        let mid = choose|mid: Simulation|
            {
                &&& only_node_changed(pre.nodes@, mid.nodes@, i)
                &&& mid.nodes@[i].pending_mining is None
                &&& same_dynamic_but_pending(pre.nodes@[i], mid.nodes@[i])
                &&& mid.store@.len() == pre.store@.len() + 1
                &&& mid.store@.subrange(0, pre.store@.len() as int) == pre.store@
                &&& super::handlers::mined_block(mid.store@.last(), prec, parent, node, pre.now_ms)
                &&& mid.mint_stop_layer == layer1
                &&& mid.graph_snapshot_heights@ == super::handlers::next_snapshots(
                    pre.graph_snapshot_heights@,
                    layer1 as u32,
                )
                &&& mid.finished == pre.finished
                &&& mid.sim == pre.sim
                &&& mid.net == pre.net
                &&& mid.now_ms == pre.now_ms
                &&& mid.queue == pre.queue
                &&& mid.propagation == pre.propagation
                &&& mid.log == pre.log
                &&& #[trigger] adopt_post(&mid, post, node, BlockId(pre.store@.len() as u64), reqs)
            };
        lemma_log_same(pre.log.events@, pre.now_ms, pre.now_ms);
        assert forall|k: int|
            #![trigger mid.nodes@[k]]
            0 <= k < pre.nodes@.len() implies same_static(pre.nodes@[k], mid.nodes@[k]) && tip_work(pre, k)
            <= tip_work(&mid, k) by {
            if k != i {
                assert(mid.nodes@[k] == pre.nodes@[k]);
            }
            let t = pre.nodes@[k].tip;
            if let Some(id) = t {
                if pre.store.has(id) {
                    assert(mid.store@[id.0 as int] == pre.store@[id.0 as int]);
                }
            }
        }
        assert(progress(pre, &mid));
        lemma_adopt(&mid, post, node, BlockId(pre.store@.len() as u64), reqs);
        lemma_progress_trans(pre, &mid, post);
    }
}

/// Whatever handler ran, the run progressed.
pub proof fn lemma_handled(pre: &Simulation, post: &Simulation, ev: SimEvent, reqs: Seq<SampleRequest>)
    requires
        handled(pre, post, ev, reqs),
        ev.refs_ok(pre.nodes@.len(), pre.store@.len()),
    ensures
        progress(pre, post),
{
    match ev {
        SimEvent::MiningFinished { node, parent } => lemma_mining(pre, post, node, parent, reqs),
        SimEvent::InvArrive { to, from, block } => {
            if !pre.requests_block(to, block) {
                lemma_identity(pre, post);
            } else {
                lemma_log_same(pre.log.events@, pre.now_ms, pre.now_ms);
                lemma_small_step(pre, post, to - 1);
            }
        },
        SimEvent::RecArrive { to, from, block } => {
            let job = BlockSendJob { kind: BlockSendKind::Rec, requester: from, block };
            let mid = choose|mid: Simulation| job_queued(pre, &mid, to - 1, job) && #[trigger] start_send_post(&mid, post, to, reqs);
            lemma_job_queued(pre, &mid, to - 1, job);
            lemma_start_send(&mid, post, to, reqs);
            lemma_progress_trans(pre, &mid, post);
        },
        SimEvent::GetBlockTxnArrive { to, from, block } => {
            let job = BlockSendJob { kind: BlockSendKind::GetBlockTxn, requester: from, block };
            let mid = choose|mid: Simulation| job_queued(pre, &mid, to - 1, job) && #[trigger] start_send_post(&mid, post, to, reqs);
            lemma_job_queued(pre, &mid, to - 1, job);
            lemma_start_send(&mid, post, to, reqs);
            lemma_progress_trans(pre, &mid, post);
        },
        SimEvent::BlockPayloadArrive { recipient, sender, block, depart_ms, kind } => {
            match kind {
                BlockPayloadKind::Full => {
                    let (m1, m2, m3, r1, r2) = choose|
                        m1: Simulation,
                        m2: Simulation,
                        m3: Simulation,
                        r1: Seq<SampleRequest>,
                        r2: Seq<SampleRequest>,
                    |
                        #![trigger start_send_post(&m1, &m2, sender, r1), adopt_post(&m3, post, recipient, block, r2)]
                        {
                            &&& payload_logged(pre, &m1, recipient, sender, block, depart_ms)
                            &&& start_send_post(&m1, &m2, sender, r1)
                            &&& download_dropped(&m2, &m3, recipient - 1, block)
                            &&& adopt_post(&m3, post, recipient, block, r2)
                            &&& reqs == r1 + r2
                        };
                    lemma_payload_logged(pre, &m1, recipient, sender, block, depart_ms);
                    lemma_start_send(&m1, &m2, sender, r1);
                    lemma_download_dropped(&m2, &m3, recipient - 1, block);
                    lemma_adopt(&m3, post, recipient, block, r2);
                    lemma_progress_trans(pre, &m1, &m2);
                    lemma_progress_trans(pre, &m2, &m3);
                    lemma_progress_trans(pre, &m3, post);
                },
                BlockPayloadKind::Compact => {
                    let (m1, r1) = choose|m1: Simulation, r1: Seq<SampleRequest>|
                        #![trigger start_send_post(&m1, post, sender, r1)]
                        {
                            &&& payload_logged(pre, &m1, recipient, sender, block, depart_ms)
                            &&& start_send_post(&m1, post, sender, r1)
                            &&& reqs == r1 + seq![
                                SampleRequest::CompactDecode {
                                    recipient,
                                    sender,
                                    block,
                                    recipient_is_churn: post.node(recipient).is_churn,
                                },
                            ]
                        };
                    lemma_payload_logged(pre, &m1, recipient, sender, block, depart_ms);
                    lemma_start_send(&m1, post, sender, r1);
                    lemma_progress_trans(pre, &m1, post);
                },
            }
        },
    }
}

/// A decoded compact payload makes the run progress.
pub proof fn lemma_decoded(
    pre: &Simulation,
    post: &Simulation,
    recipient: NodeId,
    sender: NodeId,
    block: BlockId,
    failed: bool,
    reqs: Seq<SampleRequest>,
)
    requires
        decoded_post(pre, post, recipient, sender, block, failed, reqs),
        1 <= recipient <= pre.nodes@.len(),
    ensures
        progress(pre, post),
{
    if failed {
        lemma_identity(pre, post);
    } else {
        let mid = choose|mid: Simulation|
            download_dropped(pre, &mid, recipient - 1, block) && #[trigger] adopt_post(&mid, post, recipient, block, reqs);
        lemma_download_dropped(pre, &mid, recipient - 1, block);
        lemma_adopt(&mid, post, recipient, block, reqs);
        lemma_progress_trans(pre, &mid, post);
    }
}

/// Popping the earliest live event moves the clock forward and changes nothing else that
/// [`progress`] looks at.
pub proof fn lemma_popped(pre: &Simulation, post: &Simulation, te: super::event_queue::TimedEvent)
    requires
        popped(pre, post, te),
        te.at_ms >= pre.now_ms,
    ensures
        progress(pre, post),
{
    lemma_log_same(pre.log.events@, pre.now_ms, post.now_ms);
    assert(pre.store@.subrange(0, pre.store@.len() as int) =~= pre.store@);
}

} // verus!
