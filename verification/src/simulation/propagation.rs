//! Per-block propagation delay tracking with a FIFO observation window.
//!
//! Iteration order matches the first-seen order of blocks and, within each block, of nodes.
use crate::types::{BlockId, NodeId};
use vstd::prelude::*;

verus! {

/// Index of the first pair whose key is `key`, if any.
pub open spec fn pos_of<K, V>(s: Seq<(K, V)>, key: K) -> Option<int> {
    if exists|k: int| 0 <= k < s.len() && (#[trigger] s[k]).0 == key {
        Some(choose|k: int| 0 <= k < s.len() && (#[trigger] s[k]).0 == key)
    } else {
        None
    }
}

/// No key occurs twice.
pub open spec fn keys_unique<K, V>(s: Seq<(K, V)>) -> bool {
    forall|a: int, b: int| 0 <= a < b < s.len() ==> (#[trigger] s[a]).0 != (#[trigger] s[b]).0
}

/// `s` with the value of `key` set to `val`, appending the pair when `key` is new.
pub open spec fn upsert<K, V>(s: Seq<(K, V)>, key: K, val: V) -> Seq<(K, V)> {
    match pos_of(s, key) {
        Some(k) => s.update(k, (key, val)),
        None => s.push((key, val)),
    }
}

/// The tracker contents after recording `(block, node) -> delay` into `v` with window `cap`:
/// a tracked block gets its node's delay set (or appended); a new block is appended after
/// evicting the oldest block when more than `cap` are tracked.
pub open spec fn record_spec(
    v: Seq<(BlockId, Seq<(NodeId, u64)>)>,
    cap: nat,
    block: BlockId,
    node: NodeId,
    delay: u64,
) -> Seq<(BlockId, Seq<(NodeId, u64)>)> {
    match pos_of(v, block) {
        Some(k) => v.update(k, (block, upsert(v[k].1, node, delay))),
        None => (if v.len() > cap {
            v.drop_first()
        } else {
            v
        }).push((block, seq![(node, delay)])),
    }
}

/// Tracks receive-delays for a bounded, FIFO-evicted window of recent blocks.
pub struct PropagationTracker {
    capacity: usize,
    /// Tracked blocks, oldest first, each with its `(node, delay_ms)` pairs in first-seen order.
    blocks: Vec<(BlockId, Vec<(NodeId, u64)>)>,
}

impl View for PropagationTracker {
    type V = Seq<(BlockId, Seq<(NodeId, u64)>)>;

    closed spec fn view(&self) -> Seq<(BlockId, Seq<(NodeId, u64)>)> {
        Seq::new(self.blocks@.len(), |k: int| (self.blocks@[k].0, self.blocks@[k].1@))
    }
}

/// Two-level key uniqueness of a tracker view: blocks once each, nodes once per block.
pub open spec fn tracker_unique(v: Seq<(BlockId, Seq<(NodeId, u64)>)>) -> bool {
    &&& keys_unique(v)
    &&& forall|k: int| 0 <= k < v.len() ==> keys_unique(#[trigger] v[k].1)
}

pub proof fn lemma_pos_of_unique<K, V>(s: Seq<(K, V)>, k: int)
    requires
        keys_unique(s),
        0 <= k < s.len(),
    ensures
        pos_of(s, s[k].0) == Some(k),
{
    let key = s[k].0;
    assert(exists|j: int| 0 <= j < s.len() && (#[trigger] s[j]).0 == key);
    let c = choose|j: int| 0 <= j < s.len() && (#[trigger] s[j]).0 == key;
    if c != k {
        if c < k {
            assert(s[c].0 != s[k].0);
        } else {
            assert(s[k].0 != s[c].0);
        }
    }
}

proof fn lemma_pos_of_none<K, V>(s: Seq<(K, V)>, key: K)
    requires
        forall|j: int| 0 <= j < s.len() ==> (#[trigger] s[j]).0 != key,
    ensures
        pos_of(s, key) is None,
{
}

proof fn lemma_upsert_unique<K, V>(s: Seq<(K, V)>, key: K, val: V)
    requires
        keys_unique(s),
    ensures
        keys_unique(upsert(s, key, val)),
{
    match pos_of(s, key) {
        Some(k) => {
            let t = s.update(k, (key, val));
            assert forall|a: int, b: int| 0 <= a < b < t.len() implies (#[trigger] t[a]).0 != (#[trigger] t[b]).0 by {
                assert(s[k].0 == key);
                if a != k && b != k {
                    assert(s[a].0 != s[b].0);
                } else if a == k {
                    assert(s[a].0 != s[b].0);
                } else {
                    assert(s[a].0 != s[b].0);
                }
            }
        },
        None => {
            let t = s.push((key, val));
            assert forall|a: int, b: int| 0 <= a < b < t.len() implies (#[trigger] t[a]).0 != (#[trigger] t[b]).0 by {
                if b == s.len() {
                    if s[a].0 == key {
                        assert(exists|j: int| 0 <= j < s.len() && (#[trigger] s[j]).0 == key);
                    }
                } else {
                    assert(s[a].0 != s[b].0);
                }
            }
        },
    }
}

impl PropagationTracker {
    /// Tracked blocks never exceed `capacity + 1`, and keys are unique at both levels.
    pub closed spec fn wf(&self) -> bool {
        &&& tracker_unique(self@)
        &&& self@.len() <= self.capacity + 1
    }

    /// A well-formed tracker lists each block once, and each node once per block.
    pub proof fn lemma_unique(&self)
        requires
            self.wf(),
        ensures
            tracker_unique(self@),
    {
    }

    /// A well-formed tracker holds at most `capacity + 1` blocks.
    pub proof fn lemma_bounded(&self)
        requires
            self.wf(),
        ensures
            self@.len() <= self.cap() + 1,
    {
    }

    /// Maximum number of blocks retained before FIFO eviction.
    pub closed spec fn cap(&self) -> nat {
        self.capacity as nat
    }

    /// `capacity` is the maximum number of distinct blocks retained before FIFO eviction kicks in;
    /// the tracker may temporarily hold `capacity + 1` blocks (`> capacity` triggers a trim).
    pub fn with_capacity(capacity: usize) -> (t: Self)
        ensures
            t.wf(),
            t.cap() == capacity,
            t@ == Seq::<(BlockId, Seq<(NodeId, u64)>)>::empty(),
    {
        let t = PropagationTracker { capacity, blocks: Vec::new() };
        assert(t@ =~= Seq::<(BlockId, Seq<(NodeId, u64)>)>::empty());
        t
    }

    /// Insert or update a `(block, node) -> delay` observation. A brand-new block may evict the
    /// oldest tracked block to keep within `capacity`.
    pub fn record(&mut self, block: BlockId, node: NodeId, delay: u64)
        requires
            old(self).wf(),
        ensures
            final(self).wf(),
            final(self).cap() == old(self).cap(),
            final(self)@ == record_spec(old(self)@, old(self).cap(), block, node, delay),
    {
        let ghost v0 = self@;
        let mut k: usize = 0;
        while k < self.blocks.len() && self.blocks[k].0 != block
            invariant
                k <= self.blocks@.len(),
                self@ == v0,
                forall|j: int| 0 <= j < k ==> (#[trigger] v0[j]).0 != block,
                self.blocks@.len() == v0.len(),
            decreases self.blocks@.len() - k,
        {
            assert(v0[k as int].0 == self.blocks@[k as int].0);
            k += 1;
        }
        if k < self.blocks.len() {
            proof {
                assert(v0[k as int].0 == block);
                lemma_pos_of_unique(v0, k as int);
            }
            let ghost obs0 = v0[k as int].1;
            let mut m: usize = 0;
            while m < self.blocks[k].1.len() && self.blocks[k].1[m].0 != node
                invariant
                    k < self.blocks@.len(),
                    m <= self.blocks@[k as int].1@.len(),
                    self@ == v0,
                    obs0 == self.blocks@[k as int].1@,
                    forall|j: int| 0 <= j < m ==> (#[trigger] obs0[j]).0 != node,
                decreases self.blocks@[k as int].1@.len() - m,
            {
                m += 1;
            }
            if m < self.blocks[k].1.len() {
                proof {
                    assert(v0[k as int].1 == obs0);
                    assert(keys_unique(obs0));
                    lemma_pos_of_unique(obs0, m as int);
                }
                self.blocks[k].1.set(m, (node, delay));
            } else {
                proof {
                    lemma_pos_of_none(obs0, node);
                }
                self.blocks[k].1.push((node, delay));
            }
            proof {
                let nv = self@;
                assert(nv =~= v0.update(k as int, (block, upsert(obs0, node, delay))));
                lemma_upsert_unique(obs0, node, delay);
                assert forall|a: int, b: int| 0 <= a < b < nv.len() implies (#[trigger] nv[a]).0 != (#[trigger] nv[b]).0 by {
                    assert(v0[a].0 != v0[b].0);
                }
                assert forall|j: int| 0 <= j < nv.len() implies keys_unique(#[trigger] nv[j].1) by {
                    if j != k {
                        assert(nv[j] == v0[j]);
                    }
                }
            }
            return;
        }
        proof {
            lemma_pos_of_none(v0, block);
        }
        if self.blocks.len() > self.capacity {
            self.evict_oldest();
        }
        let ghost v1 = self@;
        proof {
            if v0.len() > self.capacity {
                assert(v1 =~= v0.drop_first());
            } else {
                assert(v1 =~= v0);
            }
        }
        let mut obs: Vec<(NodeId, u64)> = Vec::new();
        obs.push((node, delay));
        self.blocks.push((block, obs));
        proof {
            let nv = self@;
            assert(obs@ =~= seq![(node, delay)]);
            assert(nv =~= v1.push((block, seq![(node, delay)])));
            assert forall|a: int, b: int| 0 <= a < b < nv.len() implies (#[trigger] nv[a]).0 != (#[trigger] nv[b]).0 by {
                if b == nv.len() - 1 {
                    if v0.len() > self.capacity {
                        assert(nv[a] == v0[a + 1]);
                    } else {
                        assert(nv[a] == v0[a]);
                    }
                } else if v0.len() > self.capacity {
                    assert(v0[a + 1].0 != v0[b + 1].0);
                } else {
                    assert(v0[a].0 != v0[b].0);
                }
            }
            assert forall|j: int| 0 <= j < nv.len() implies keys_unique(#[trigger] nv[j].1) by {
                if j < nv.len() - 1 {
                    if v0.len() > self.capacity {
                        assert(nv[j] == v0[j + 1]);
                    } else {
                        assert(nv[j] == v0[j]);
                    }
                }
            }
        }
    }

    /// Drops the oldest tracked block and its observations (no-op when empty).
    pub fn evict_oldest(&mut self)
        requires
            old(self).wf(),
        ensures
            final(self).wf(),
            final(self).cap() == old(self).cap(),
            final(self)@ == (if old(self)@.len() > 0 {
                old(self)@.drop_first()
            } else {
                old(self)@
            }),
    {
        let ghost v0 = self@;
        if self.blocks.len() > 0 {
            self.blocks.remove(0);
            proof {
                let nv = self@;
                assert(nv =~= v0.drop_first());
                assert forall|a: int, b: int| 0 <= a < b < nv.len() implies (#[trigger] nv[a]).0 != (#[trigger] nv[b]).0 by {
                    assert(v0[a + 1].0 != v0[b + 1].0);
                }
                assert forall|j: int| 0 <= j < nv.len() implies keys_unique(#[trigger] nv[j].1) by {
                    assert(nv[j] == v0[j + 1]);
                }
            }
        }
    }

    /// Tracked blocks in observation order (oldest first).
    pub fn blocks(&self) -> (v: Vec<BlockId>)
        ensures
            v@.len() == self@.len(),
            forall|k: int| 0 <= k < v@.len() ==> #[trigger] v@[k] == self@[k].0,
    {
        let mut v: Vec<BlockId> = Vec::new();
        let mut k: usize = 0;
        while k < self.blocks.len()
            invariant
                k <= self.blocks@.len(),
                v@.len() == k,
                forall|j: int| 0 <= j < k ==> #[trigger] v@[j] == self@[j].0,
            decreases self.blocks@.len() - k,
        {
            v.push(self.blocks[k].0);
            k += 1;
        }
        v
    }

    /// `(node, delay_ms)` pairs for `block`, in first-seen node order (empty if untracked).
    pub fn observations(&self, block: BlockId) -> (v: Vec<(NodeId, u64)>)
        requires
            self.wf(),
        ensures
            match pos_of(self@, block) {
                Some(k) => v@ == self@[k].1,
                None => v@.len() == 0,
            },
    {
        let mut k: usize = 0;
        while k < self.blocks.len() && self.blocks[k].0 != block
            invariant
                k <= self.blocks@.len(),
                forall|j: int| 0 <= j < k ==> (#[trigger] self@[j]).0 != block,
            decreases self.blocks@.len() - k,
        {
            assert(self@[k as int].0 == self.blocks@[k as int].0);
            k += 1;
        }
        let mut v: Vec<(NodeId, u64)> = Vec::new();
        if k < self.blocks.len() {
            proof {
                assert(self@[k as int].0 == block);
                lemma_pos_of_unique(self@, k as int);
            }
            let src = &self.blocks[k].1;
            let mut m: usize = 0;
            while m < src.len()
                invariant
                    m <= src@.len(),
                    v@ == src@.subrange(0, m as int),
                decreases src@.len() - m,
            {
                v.push(src[m]);
                m += 1;
                assert(v@ =~= src@.subrange(0, m as int));
            }
            assert(src@.subrange(0, src@.len() as int) =~= src@);
        } else {
            proof {
                lemma_pos_of_none(self@, block);
            }
        }
        v
    }
}

/// The tracker contents after the records `ops` (block, node, delay), in order, starting from
/// an empty tracker with window `cap`.
pub open spec fn replay(cap: nat, ops: Seq<(BlockId, NodeId, u64)>) -> Seq<(BlockId, Seq<(NodeId, u64)>)>
    decreases ops.len(),
{
    if ops.len() == 0 {
        Seq::empty()
    } else {
        let op = ops.last();
        record_spec(replay(cap, ops.drop_last()), cap, op.0, op.1, op.2)
    }
}

/// Some pair of `s` has key `y`.
pub open spec fn has_key<K, V>(s: Seq<(K, V)>, y: K) -> bool {
    exists|p: int| 0 <= p < s.len() && (#[trigger] s[p]).0 == y
}

/// The pairs of `ops` as upserted one after the other into an empty list.
pub open spec fn upsert_all<K, V>(ops: Seq<(K, V)>) -> Seq<(K, V)>
    decreases ops.len(),
{
    if ops.len() == 0 {
        Seq::empty()
    } else {
        upsert(upsert_all(ops.drop_last()), ops.last().0, ops.last().1)
    }
}

/// The `(node, delay)` pairs of the records of `ops` for `block`, in order.
pub open spec fn node_ops(ops: Seq<(BlockId, NodeId, u64)>, block: BlockId) -> Seq<(NodeId, u64)>
    decreases ops.len(),
{
    if ops.len() == 0 {
        Seq::empty()
    } else {
        let prev = node_ops(ops.drop_last(), block);
        let op = ops.last();
        if op.0 == block {
            prev.push((op.1, op.2))
        } else {
            prev
        }
    }
}

/// One record keeps the tracker free of repeated blocks (and of repeated nodes per block) and
/// within `cap + 1` blocks.
proof fn lemma_record_spec_keeps(
    v: Seq<(BlockId, Seq<(NodeId, u64)>)>,
    cap: nat,
    block: BlockId,
    node: NodeId,
    delay: u64,
)
    requires
        tracker_unique(v),
        v.len() <= cap + 1,
    ensures
        tracker_unique(record_spec(v, cap, block, node, delay)),
        record_spec(v, cap, block, node, delay).len() <= cap + 1,
{
    let r = record_spec(v, cap, block, node, delay);
    match pos_of(v, block) {
        Some(k) => {
            lemma_upsert_unique(v[k].1, node, delay);
            assert forall|a: int, b: int| 0 <= a < b < r.len() implies (#[trigger] r[a]).0 != (#[trigger] r[b]).0 by {
                assert(v[a].0 != v[b].0);
            }
            assert forall|j: int| 0 <= j < r.len() implies keys_unique(#[trigger] r[j].1) by {
                if j != k {
                    assert(r[j] == v[j]);
                }
            }
        },
        None => {
            let w = if v.len() > cap {
                v.drop_first()
            } else {
                v
            };
            assert forall|a: int, b: int| 0 <= a < b < r.len() implies (#[trigger] r[a]).0 != (#[trigger] r[b]).0 by {
                if v.len() > cap {
                    assert(r[a] == v[a + 1]);
                    if b < r.len() - 1 {
                        assert(r[b] == v[b + 1]);
                    } else if v[a + 1].0 == block {
                        assert(exists|q: int| 0 <= q < v.len() && (#[trigger] v[q]).0 == block);
                    }
                } else {
                    assert(r[a] == v[a]);
                    if b < r.len() - 1 {
                        assert(r[b] == v[b]);
                    } else if v[a].0 == block {
                        assert(exists|q: int| 0 <= q < v.len() && (#[trigger] v[q]).0 == block);
                    }
                }
            }
            assert forall|j: int| 0 <= j < r.len() implies keys_unique(#[trigger] r[j].1) by {
                if j < r.len() - 1 {
                    if v.len() > cap {
                        assert(r[j] == v[j + 1]);
                    } else {
                        assert(r[j] == v[j]);
                    }
                }
            }
        },
    }
}

/// Over any sequence of records from an empty tracker, no block is tracked twice, no node is
/// listed twice for a block, and at most `cap + 1` blocks are tracked.
pub proof fn lemma_replay_bounded(cap: nat, ops: Seq<(BlockId, NodeId, u64)>)
    ensures
        tracker_unique(replay(cap, ops)),
        replay(cap, ops).len() <= cap + 1,
    decreases ops.len(),
{
    if ops.len() > 0 {
        lemma_replay_bounded(cap, ops.drop_last());
        let op = ops.last();
        lemma_record_spec_keeps(replay(cap, ops.drop_last()), cap, op.0, op.1, op.2);
    }
}

/// Upserting pairs one after the other lists each key once, in the order in which the keys
/// first occur, with the value of the key's latest pair.
pub proof fn lemma_upsert_all<K, V>(ops: Seq<(K, V)>)
    ensures
        keys_unique(upsert_all(ops)),
        forall|y: K| #[trigger] has_key(upsert_all(ops), y) <==> has_key(ops, y),
        forall|p: int|
            0 <= p < upsert_all(ops).len() ==> exists|i: int|
                0 <= i < ops.len() && ops[i] == #[trigger] upsert_all(ops)[p] && forall|j: int|
                    i < j < ops.len() ==> (#[trigger] ops[j]).0 != upsert_all(ops)[p].0,
        forall|p: int, q: int, i: int|
            0 <= p < q < upsert_all(ops).len() && 0 <= i < ops.len() && (#[trigger] ops[i]).0 == (
            #[trigger] upsert_all(ops)[q]).0 ==> exists|j: int|
                0 <= j < i && (#[trigger] ops[j]).0 == (#[trigger] upsert_all(ops)[p]).0,
    decreases ops.len(),
{
    let u = upsert_all(ops);
    if ops.len() > 0 {
        let pre = ops.drop_last();
        let u0 = upsert_all(pre);
        lemma_upsert_all(pre);
        let x = ops.last().0;
        let val = ops.last().1;
        let n = pre.len();
        lemma_upsert_unique(u0, x, val);
        assert forall|i: int| 0 <= i < n implies #[trigger] ops[i] == pre[i] by {}
        assert(ops[n as int] == (x, val));
        match pos_of(u0, x) {
            Some(k) => {
                assert(u0[k].0 == x);
                assert(u =~= u0.update(k, (x, val)));
                assert forall|y: K| #[trigger] has_key(u, y) <==> has_key(ops, y) by {
                    if exists|p: int| 0 <= p < u.len() && (#[trigger] u[p]).0 == y {
                        let p = choose|p: int| 0 <= p < u.len() && (#[trigger] u[p]).0 == y;
                        assert(u0[p].0 == y);
                        assert(has_key(u0, y));
                        let i = choose|i: int| 0 <= i < pre.len() && (#[trigger] pre[i]).0 == y;
                        assert(ops[i] == pre[i]);
                    }
                    if exists|i: int| 0 <= i < ops.len() && (#[trigger] ops[i]).0 == y {
                        let i = choose|i: int| 0 <= i < ops.len() && (#[trigger] ops[i]).0 == y;
                        if i < n {
                            assert(pre[i].0 == y);
                            assert(has_key(pre, y));
                            assert(has_key(u0, y));
                            let p = choose|p: int| 0 <= p < u0.len() && (#[trigger] u0[p]).0 == y;
                            assert(u[p].0 == y);
                        } else {
                            assert(u[k].0 == y);
                        }
                    }
                }
                assert forall|p: int| 0 <= p < u.len() implies exists|i: int|
                    0 <= i < ops.len() && ops[i] == #[trigger] u[p] && forall|j: int|
                        i < j < ops.len() ==> (#[trigger] ops[j]).0 != u[p].0 by {
                    if p == k {
                        assert(ops[n as int] == u[p]);
                    } else {
                        let i = choose|i: int|
                            0 <= i < pre.len() && pre[i] == #[trigger] u0[p] && forall|j: int|
                                i < j < pre.len() ==> (#[trigger] pre[j]).0 != u0[p].0;
                        assert(u0[p].0 != u0[k].0);
                        assert(ops[i] == u[p]);
                        assert forall|j: int| i < j < ops.len() implies (#[trigger] ops[j]).0 != u[p].0 by {
                            if j < n {
                                assert(pre[j] == ops[j]);
                            }
                        }
                    }
                }
                assert forall|p: int, q: int, i: int|
                    0 <= p < q < u.len() && 0 <= i < ops.len() && (#[trigger] ops[i]).0 == (#[trigger] u[q]).0
                        implies exists|j: int| 0 <= j < i && (#[trigger] ops[j]).0 == (#[trigger] u[p]).0 by {
                    assert(u[p].0 == u0[p].0 && u[q].0 == u0[q].0);
                    if i < n {
                        assert(pre[i].0 == u0[q].0);
                        let j = choose|j: int| 0 <= j < i && (#[trigger] pre[j]).0 == (#[trigger] u0[p]).0;
                        assert(ops[j] == pre[j]);
                    } else {
                        let y = u0[p].0;
                        assert(has_key(u0, y));
                        let j = choose|j: int| 0 <= j < pre.len() && (#[trigger] pre[j]).0 == y;
                        assert(ops[j] == pre[j]);
                    }
                }
            },
            None => {
                assert(u =~= u0.push((x, val)));
                assert forall|p: int| 0 <= p < u0.len() implies (#[trigger] u0[p]).0 != x by {}
                assert forall|i: int| 0 <= i < n implies (#[trigger] pre[i]).0 != x by {
                    if pre[i].0 == x {
                        assert(has_key(pre, x));
                        assert(has_key(u0, x));
                    }
                }
                assert forall|y: K| #[trigger] has_key(u, y) <==> has_key(ops, y) by {
                    if exists|p: int| 0 <= p < u.len() && (#[trigger] u[p]).0 == y {
                        let p = choose|p: int| 0 <= p < u.len() && (#[trigger] u[p]).0 == y;
                        if p < u0.len() {
                            assert(u0[p].0 == y);
                            assert(has_key(u0, y));
                            let i = choose|i: int| 0 <= i < pre.len() && (#[trigger] pre[i]).0 == y;
                            assert(ops[i] == pre[i]);
                        } else {
                            assert(ops[n as int].0 == y);
                        }
                    }
                    if exists|i: int| 0 <= i < ops.len() && (#[trigger] ops[i]).0 == y {
                        let i = choose|i: int| 0 <= i < ops.len() && (#[trigger] ops[i]).0 == y;
                        if i < n {
                            assert(pre[i].0 == y);
                            assert(has_key(pre, y));
                            assert(has_key(u0, y));
                            let p = choose|p: int| 0 <= p < u0.len() && (#[trigger] u0[p]).0 == y;
                            assert(u[p].0 == y);
                        } else {
                            assert(u[u0.len() as int].0 == y);
                        }
                    }
                }
                assert forall|p: int| 0 <= p < u.len() implies exists|i: int|
                    0 <= i < ops.len() && ops[i] == #[trigger] u[p] && forall|j: int|
                        i < j < ops.len() ==> (#[trigger] ops[j]).0 != u[p].0 by {
                    if p == u0.len() {
                        assert(ops[n as int] == u[p]);
                    } else {
                        let i = choose|i: int|
                            0 <= i < pre.len() && pre[i] == #[trigger] u0[p] && forall|j: int|
                                i < j < pre.len() ==> (#[trigger] pre[j]).0 != u0[p].0;
                        assert(ops[i] == u[p]);
                        assert forall|j: int| i < j < ops.len() implies (#[trigger] ops[j]).0 != u[p].0 by {
                            if j < n {
                                assert(pre[j] == ops[j]);
                            }
                        }
                    }
                }
                assert forall|p: int, q: int, i: int|
                    0 <= p < q < u.len() && 0 <= i < ops.len() && (#[trigger] ops[i]).0 == (#[trigger] u[q]).0
                        implies exists|j: int| 0 <= j < i && (#[trigger] ops[j]).0 == (#[trigger] u[p]).0 by {
                    assert(u[p] == u0[p]);
                    if q < u0.len() {
                        assert(u[q] == u0[q]);
                        if i == n {
                            assert(u0[q].0 != x);
                        }
                        assert(pre[i].0 == u0[q].0);
                        let j = choose|j: int| 0 <= j < i && (#[trigger] pre[j]).0 == (#[trigger] u0[p]).0;
                        assert(ops[j] == pre[j]);
                    } else {
                        if i < n {
                            assert(pre[i].0 != x);
                        }
                        let y = u0[p].0;
                        assert(has_key(u0, y));
                        let j = choose|j: int| 0 <= j < pre.len() && (#[trigger] pre[j]).0 == y;
                        assert(ops[j] == pre[j]);
                    }
                }
            },
        }
    }
}

/// Each tracked block's observations are the records of that block since the record that last
/// inserted it, upserted in order (so, by [`lemma_upsert_all`], each node once, in first-record
/// order, with its latest delay).
pub proof fn lemma_replay_observations(cap: nat, ops: Seq<(BlockId, NodeId, u64)>, k: int)
    requires
        0 <= k < replay(cap, ops).len(),
    ensures
        exists|i: int|
            0 <= i < ops.len() && (#[trigger] ops[i]).0 == replay(cap, ops)[k].0 && replay(cap, ops)[k].1
                == upsert_all(node_ops(ops.subrange(i, ops.len() as int), replay(cap, ops)[k].0)),
    decreases ops.len(),
{
    let v = replay(cap, ops);
    let pre = ops.drop_last();
    let v0 = replay(cap, pre);
    let op = ops.last();
    let n = pre.len();
    let b = v[k].0;
    lemma_replay_bounded(cap, pre);
    assert forall|i: int| 0 <= i < n implies #[trigger] ops[i] == pre[i] by {}
    // node_ops over a suffix grows by the last record
    assert forall|i: int| 0 <= i <= n implies #[trigger] ops.subrange(i, ops.len() as int).drop_last() == pre.subrange(
        i,
        n as int,
    ) by {
        assert(ops.subrange(i, ops.len() as int).drop_last() =~= pre.subrange(i, n as int));
    }
    match pos_of(v0, op.0) {
        Some(k0) => {
            assert(v0[k0].0 == op.0);
            assert(v =~= v0.update(k0, (op.0, upsert(v0[k0].1, op.1, op.2))));
            lemma_replay_observations(cap, pre, k);
            let i = choose|i: int|
                0 <= i < pre.len() && (#[trigger] pre[i]).0 == v0[k].0 && v0[k].1 == upsert_all(
                    node_ops(pre.subrange(i, pre.len() as int), v0[k].0),
                );
            let sub = ops.subrange(i, ops.len() as int);
            assert(sub.last() == op);
            assert(ops[i] == pre[i]);
            if k == k0 {
                let x = node_ops(pre.subrange(i, n as int), b);
                assert(node_ops(sub, b) == x.push((op.1, op.2)));
                assert(x.push((op.1, op.2)).drop_last() =~= x);
                assert(v[k].1 == upsert_all(node_ops(sub, b)));
            } else {
                assert(v0[k].0 != v0[k0].0);
                assert(node_ops(sub, b) == node_ops(pre.subrange(i, n as int), b));
                assert(v[k].1 == upsert_all(node_ops(sub, b)));
            }
        },
        None => {
            let w = if v0.len() > cap {
                v0.drop_first()
            } else {
                v0
            };
            assert(v =~= w.push((op.0, seq![(op.1, op.2)])));
            if k == v.len() - 1 {
                let sub = ops.subrange(n as int, ops.len() as int);
                assert(sub.drop_last() =~= Seq::<(BlockId, NodeId, u64)>::empty());
                assert(sub.last() == op);
                assert(v[k] == (op.0, seq![(op.1, op.2)]));
                assert(b == op.0);
                assert(node_ops(Seq::<(BlockId, NodeId, u64)>::empty(), b) == Seq::<(NodeId, u64)>::empty());
                assert(node_ops(sub, b) == node_ops(sub.drop_last(), b).push((op.1, op.2)));
                assert(node_ops(sub, b) =~= seq![(op.1, op.2)]);
                let no = node_ops(sub, b);
                assert(no.drop_last() =~= Seq::<(NodeId, u64)>::empty());
                assert(upsert_all(no.drop_last()) == Seq::<(NodeId, u64)>::empty());
                assert(pos_of(Seq::<(NodeId, u64)>::empty(), op.1) is None);
                assert(upsert_all(no) =~= seq![(op.1, op.2)]);
                assert(v[k].1 == upsert_all(node_ops(sub, b)));
                assert(ops[n as int].0 == b);
            } else {
                let k1 = if v0.len() > cap {
                    k + 1
                } else {
                    k
                };
                assert(v[k] == v0[k1]);
                if v0[k1].0 == op.0 {
                    assert(exists|q: int| 0 <= q < v0.len() && (#[trigger] v0[q]).0 == op.0);
                }
                lemma_replay_observations(cap, pre, k1);
                let i = choose|i: int|
                    0 <= i < pre.len() && (#[trigger] pre[i]).0 == v0[k1].0 && v0[k1].1 == upsert_all(
                        node_ops(pre.subrange(i, pre.len() as int), v0[k1].0),
                    );
                let sub = ops.subrange(i, ops.len() as int);
                assert(sub.last() == op);
                assert(ops[i] == pre[i]);
                assert(node_ops(sub, b) == node_ops(pre.subrange(i, n as int), b));
                assert(v[k].1 == upsert_all(node_ops(sub, b)));
            }
        },
    }
}

} // verus!
