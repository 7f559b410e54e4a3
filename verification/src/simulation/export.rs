//! Output data derived from a simulation: propagation tables, the routing graph, graph snapshot
//! labels and the block list. Writing them to files is left to the caller.
use super::chain::{parents_precede, walk};
use super::node::{block_list_contains, neighbor_seq};
use super::Simulation;
use crate::block::{BlockRecord, BlockStore};
use crate::routing::strictly_increasing;
use crate::types::{BlockId, NodeId};
use vstd::prelude::*;

verus! {

/// The propagation table of tracker entries `entries`: each entry whose block is stored, in
/// order, with the block's height.
pub open spec fn propagation_table(
    entries: Seq<(BlockId, Seq<(NodeId, u64)>)>,
    store: Seq<BlockRecord>,
) -> Seq<(BlockId, u32, Seq<(NodeId, u64)>)>
    decreases entries.len(),
{
    if entries.len() == 0 {
        Seq::empty()
    } else {
        let prev = propagation_table(entries.drop_last(), store);
        let e = entries.last();
        if e.0.0 < store.len() {
            prev.push((e.0, store[e.0.0 as int].height, e.1))
        } else {
            prev
        }
    }
}

/// The integers `0..=h`, in order.
pub open spec fn labels_up_to(h: u32) -> Seq<u32> {
    Seq::new(h as nat + 1, |i: int| i as u32)
}

impl Simulation {
    /// Propagation rows, oldest tracked block first: `(block, height, [(node, delay_ms)])`, the
    /// nodes in first-seen order. Tracked blocks missing from the store are skipped.
    pub fn propagation_rows(&self) -> (v: Vec<(BlockId, u32, Vec<(NodeId, u64)>)>)
        requires
            self.propagation.wf(),
        ensures
            v@.len() == propagation_table(self.propagation@, self.store@).len(),
            forall|i: int|
                #![trigger v@[i]]
                0 <= i < v@.len() ==> (v@[i].0, v@[i].1, v@[i].2@) == propagation_table(
                    self.propagation@,
                    self.store@,
                )[i],
    {
        let ghost entries = self.propagation@;
        let blocks = self.propagation.blocks();
        let mut v: Vec<(BlockId, u32, Vec<(NodeId, u64)>)> = Vec::new();
        let mut k: usize = 0;
        while k < blocks.len()
            invariant
                self.propagation.wf(),
                entries == self.propagation@,
                blocks@.len() == entries.len(),
                forall|q: int| 0 <= q < blocks@.len() ==> #[trigger] blocks@[q] == entries[q].0,
                k <= blocks@.len(),
                v@.len() == propagation_table(entries.subrange(0, k as int), self.store@).len(),
                forall|i: int|
                    #![trigger v@[i]]
                    0 <= i < v@.len() ==> (v@[i].0, v@[i].1, v@[i].2@) == propagation_table(
                        entries.subrange(0, k as int),
                        self.store@,
                    )[i],
            decreases blocks@.len() - k,
        {
            let b = blocks[k];
            let ghost before = v@;
            proof {
                assert(entries.subrange(0, k + 1).drop_last() =~= entries.subrange(0, k as int));
                assert(entries.subrange(0, k + 1).last() == entries[k as int]);
                self.propagation.lemma_unique();
                super::propagation::lemma_pos_of_unique(entries, k as int);
            }
            match self.store.get(b) {
                Some(rec) => {
                    let obs = self.propagation.observations(b);
                    v.push((b, rec.height, obs));
                },
                None => {},
            }
            k += 1;
        }
        proof {
            assert(entries.subrange(0, entries.len() as int) =~= entries);
        }
        v
    }

    /// Sorted neighbor list of every node, in node order (the directed adjacency lines of a
    /// graph snapshot).
    pub fn graph_adjacency(&self) -> (v: Vec<(NodeId, Vec<NodeId>)>)
        ensures
            v@.len() == self.n(),
            forall|i: int|
                #![trigger v@[i]]
                0 <= i < v@.len() ==> {
                    &&& v@[i].0 == self.nodes@[i].id
                    &&& strictly_increasing(v@[i].1@)
                    &&& forall|y: NodeId| #[trigger] v@[i].1@.contains(y) <==> neighbor_seq(
                        &self.nodes@[i],
                    ).contains(y)
                },
    {
        let mut v: Vec<(NodeId, Vec<NodeId>)> = Vec::new();
        let mut i: usize = 0;
        while i < self.nodes.len()
            invariant
                i <= self.n(),
                v@.len() == i,
                forall|k: int|
                    #![trigger v@[k]]
                    0 <= k < i ==> {
                        &&& v@[k].0 == self.nodes@[k].id
                        &&& strictly_increasing(v@[k].1@)
                        &&& forall|y: NodeId| #[trigger] v@[k].1@.contains(y) <==> neighbor_seq(
                            &self.nodes@[k],
                        ).contains(y)
                    },
            decreases self.n() - i,
        {
            let nbrs = self.nodes[i].neighbors_sorted();
            v.push((self.nodes[i].id, nbrs));
            i += 1;
        }
        v
    }

    /// Labels of the graph snapshot files: the recorded snapshot heights, or `0..=` the highest
    /// tip when none was recorded.
    pub fn graph_labels(&self) -> (v: Vec<u32>)
        ensures
            self.graph_snapshot_heights@.len() > 0 ==> v@ == self.graph_snapshot_heights@,
            self.graph_snapshot_heights@.len() == 0 ==> exists|h: u32|
                {
                    &&& v@ == labels_up_to(h)
                    &&& forall|i: int| 0 <= i < self.n() ==> #[trigger] self.tip_height(i) <= h
                    &&& (h == 0 || exists|i: int| 0 <= i < self.n() && #[trigger] self.tip_height(i) == h)
                },
    {
        if self.graph_snapshot_heights.len() > 0 {
            return self.graph_snapshot_heights.clone();
        }
        let h = self.max_tip_height();
        let mut v: Vec<u32> = Vec::new();
        let mut x: u32 = 0;
        loop
            invariant_except_break
                x <= h,
                v@ == Seq::new(x as nat, |i: int| i as u32),
            ensures
                v@ == labels_up_to(h),
            decreases h - x,
        {
            v.push(x);
            if x == h {
                assert(v@ =~= labels_up_to(h));
                break;
            }
            x += 1;
        }
        v
    }
}

/// One line of the block list.
#[derive(Debug, Clone, Copy, PartialEq, Eq, Structural)]
pub struct BlockListEntry {
    /// Whether some node holds the block as an orphan.
    pub orphan: bool,
    pub height: u32,
    pub id: BlockId,
}

/// Block-list order: by block time, then by identifier.
pub open spec fn block_key_lt(store: Seq<BlockRecord>, a: BlockId, b: BlockId) -> bool {
    let ta = store[a.0 as int].time_ms;
    let tb = store[b.0 as int].time_ms;
    ta < tb || (ta == tb && a.0 < b.0)
}

/// Stored blocks, strictly increasing in block-list order.
pub open spec fn sorted_by_key(store: Seq<BlockRecord>, v: Seq<BlockId>) -> bool {
    &&& forall|i: int| 0 <= i < v.len() ==> (#[trigger] v[i]).0 < store.len()
    &&& forall|i: int, j: int| 0 <= i < j < v.len() ==> block_key_lt(store, #[trigger] v[i], #[trigger] v[j])
}

/// Inserts stored block `b` into `v` at its place in block-list order (no-op if present).
fn insert_by_key(store: &BlockStore, v: &mut Vec<BlockId>, b: BlockId)
    requires
        b.0 < store@.len(),
        sorted_by_key(store@, old(v)@),
    ensures
        sorted_by_key(store@, final(v)@),
        forall|x: BlockId| #[trigger] final(v)@.contains(x) <==> (old(v)@.contains(x) || x == b),
{
    let tb = match store.get(b) {
        Some(r) => r.time_ms,
        None => 0,
    };
    let mut p: usize = 0;
    while p < v.len()
        invariant
            sorted_by_key(store@, v@),
            b.0 < store@.len(),
            tb == store@[b.0 as int].time_ms,
            p <= v@.len(),
            forall|q: int| 0 <= q < p ==> block_key_lt(store@, #[trigger] v@[q], b),
        ensures
            p == v@.len() || !block_key_lt(store@, v@[p as int], b),
        decreases v@.len() - p,
    {
        let x = v[p];
        let tx = match store.get(x) {
            Some(r) => r.time_ms,
            None => 0,
        };
        if !(tx < tb || (tx == tb && x.0 < b.0)) {
            break;
        }
        p += 1;
    }
    if p < v.len() && v[p] == b {
        return;
    }
    let ghost v0 = v@;
    proof {
        if p < v0.len() {
            assert(!block_key_lt(store@, v0[p as int], b));
            assert forall|q: int| p <= q < v0.len() implies block_key_lt(store@, b, #[trigger] v0[q]) by {
                if q > p {
                    assert(block_key_lt(store@, v0[p as int], v0[q]));
                }
            }
        }
    }
    v.insert(p, b);
    proof {
        assert forall|i: int, j: int| 0 <= i < j < v@.len() implies block_key_lt(store@, #[trigger] v@[i], #[trigger] v@[j]) by {
            if i < p && j < p {
                assert(v@[i] == v0[i] && v@[j] == v0[j]);
            } else if i < p && j == p {
            } else if i < p {
                assert(v@[j] == v0[j - 1]);
                assert(block_key_lt(store@, v0[i], v0[j - 1]));
            } else if i == p {
                assert(v@[j] == v0[j - 1]);
            } else {
                assert(v@[i] == v0[i - 1] && v@[j] == v0[j - 1]);
            }
        }
        assert forall|x: BlockId| #[trigger] v@.contains(x) <==> (v0.contains(x) || x == b) by {
            if v@.contains(x) {
                let k = choose|k: int| 0 <= k < v@.len() && v@[k] == x;
                if k < p {
                    assert(v0[k] == x);
                } else if k > p {
                    assert(v0[k - 1] == x);
                }
            }
            if v0.contains(x) {
                let k = choose|k: int| 0 <= k < v0.len() && v0[k] == x;
                if k < p {
                    assert(v@[k] == x);
                } else {
                    assert(v@[k + 1] == x);
                }
            }
            if x == b {
                assert(v@[p as int] == b);
            }
        }
    }
}

impl Simulation {
    /// Whether some node holds `b` as an orphan.
    pub open spec fn is_orphan(&self, b: BlockId) -> bool {
        exists|i: int, j: int|
            0 <= i < self.n() && 0 <= j < self.nodes@[i].orphans@.len() && #[trigger] self.nodes@[i].orphans@[j] == b
    }

    /// Whether `b` lies on node 1's chain, below or at its tip, above genesis.
    pub open spec fn on_main_chain(&self, b: BlockId) -> bool {
        &&& self.n() >= 1
        &&& self.store.has(b)
        &&& self.store.rec(b).parent is Some
        &&& exists|k: nat| #[trigger] walk(self.store@, self.nodes@[0].tip, k) == Some(b)
    }

    /// Blocks of node 1's chain, tip first, genesis excluded.
    fn main_chain_blocks(&self) -> (v: Vec<BlockId>)
        requires
            parents_precede(self.store@),
        ensures
            forall|b: BlockId| #[trigger] v@.contains(b) <==> self.on_main_chain(b),
    {
        let mut v: Vec<BlockId> = Vec::new();
        if self.nodes.len() == 0 {
            return v;
        }
        let tip0 = self.nodes[0].tip;
        let mut cur = tip0;
        let ghost mut k: nat = 0;
        loop
            invariant_except_break
                self.n() >= 1,
                parents_precede(self.store@),
                tip0 == self.nodes@[0].tip,
                cur == walk(self.store@, tip0, k),
                forall|b: BlockId| #[trigger] v@.contains(b) <==> exists|j: nat|
                    j < k && #[trigger] walk(self.store@, tip0, j) == Some(b),
                forall|j: nat|
                    j < k ==> match #[trigger] walk(self.store@, tip0, j) {
                        Some(b) => self.store.has(b) && self.store.rec(b).parent is Some,
                        None => false,
                    },
            ensures
                self.n() >= 1,
                tip0 == self.nodes@[0].tip,
                forall|b: BlockId| #[trigger] v@.contains(b) <==> exists|j: nat|
                    j < k && #[trigger] walk(self.store@, tip0, j) == Some(b),
                forall|j: nat|
                    j < k ==> match #[trigger] walk(self.store@, tip0, j) {
                        Some(b) => self.store.has(b) && self.store.rec(b).parent is Some,
                        None => false,
                    },
                walk(self.store@, tip0, k) is None || !self.store.has(walk(self.store@, tip0, k)->0)
                    || self.store.rec(walk(self.store@, tip0, k)->0).parent is None,
            decreases
                match cur {
                    Some(b) => b.0 + 1,
                    None => 0,
                },
        {
            let bid = match cur {
                Some(b) => b,
                None => break,
            };
            let rec = match self.store.get(bid) {
                Some(r) => r,
                None => break,
            };
            if rec.parent.is_none() {
                break;
            }
            let ghost v0 = v@;
            v.push(bid);
            cur = rec.parent;
            proof {
                assert(walk(self.store@, tip0, k + 1) == super::chain::parent_step(self.store@, walk(self.store@, tip0, k)));
                assert(self.store@[bid.0 as int].parent == cur);
                assert forall|b: BlockId| #[trigger] v@.contains(b) <==> exists|j: nat|
                    j < k + 1 && #[trigger] walk(self.store@, tip0, j) == Some(b) by {
                    if v@.contains(b) {
                        let q = choose|q: int| 0 <= q < v@.len() && v@[q] == b;
                        if q < v0.len() {
                            assert(v0[q] == b);
                            assert(v0.contains(b));
                        } else {
                            assert(walk(self.store@, tip0, k) == Some(b));
                        }
                    }
                    if exists|j: nat| j < k + 1 && #[trigger] walk(self.store@, tip0, j) == Some(b) {
                        let j = choose|j: nat| j < k + 1 && #[trigger] walk(self.store@, tip0, j) == Some(b);
                        if j < k {
                            assert(v0.contains(b));
                            let q = choose|q: int| 0 <= q < v0.len() && v0[q] == b;
                            assert(v@[q] == b);
                        } else {
                            assert(v@[v0.len() as int] == b);
                        }
                    }
                }
                k = k + 1;
            }
        }
        proof {
            assert forall|b: BlockId| #[trigger] v@.contains(b) <==> self.on_main_chain(b) by {
                if v@.contains(b) {
                    let j = choose|j: nat| j < k && #[trigger] walk(self.store@, tip0, j) == Some(b);
                    assert(walk(self.store@, self.nodes@[0].tip, j) == Some(b));
                }
                if self.on_main_chain(b) {
                    let m = choose|m: nat| #[trigger] walk(self.store@, self.nodes@[0].tip, m) == Some(b);
                    if m > k {
                        assert(walk(self.store@, tip0, k + 1) == super::chain::parent_step(
                            self.store@,
                            walk(self.store@, tip0, k),
                        ));
                        assert(walk(self.store@, tip0, k + 1) is None);
                        super::chain::lemma_walk_none_stays(self.store@, tip0, k + 1, m);
                    }
                    if m < k {
                        assert(exists|j: nat| j < k && #[trigger] walk(self.store@, tip0, j) == Some(b));
                    }
                }
            }
        }
        v
    }

    /// Every orphan held by some node (repeats kept).
    fn all_orphans(&self) -> (v: Vec<BlockId>)
        ensures
            forall|b: BlockId| #[trigger] v@.contains(b) <==> self.is_orphan(b),
    {
        let mut v: Vec<BlockId> = Vec::new();
        let mut i: usize = 0;
        while i < self.nodes.len()
            invariant
                i <= self.n(),
                forall|b: BlockId| #[trigger] v@.contains(b) <==> exists|p: int, j: int|
                    0 <= p < i && 0 <= j < self.nodes@[p].orphans@.len() && #[trigger] self.nodes@[p].orphans@[j] == b,
            decreases self.n() - i,
        {
            let mut j: usize = 0;
            while j < self.nodes[i].orphans.len()
                invariant
                    i < self.n(),
                    j <= self.nodes@[i as int].orphans@.len(),
                    forall|b: BlockId| #[trigger] v@.contains(b) <==> (exists|p: int, q: int|
                        0 <= p < i && 0 <= q < self.nodes@[p].orphans@.len() && #[trigger] self.nodes@[p].orphans@[q] == b)
                        || (exists|q: int| 0 <= q < j && #[trigger] self.nodes@[i as int].orphans@[q] == b),
                decreases self.nodes@[i as int].orphans@.len() - j,
            {
                let ghost v0 = v@;
                let o = self.nodes[i].orphans[j];
                v.push(o);
                proof {
                    assert forall|b: BlockId| #[trigger] v@.contains(b) <==> (exists|p: int, q: int|
                        0 <= p < i && 0 <= q < self.nodes@[p].orphans@.len() && #[trigger] self.nodes@[p].orphans@[q] == b)
                        || (exists|q: int| 0 <= q < j + 1 && #[trigger] self.nodes@[i as int].orphans@[q] == b) by {
                        if v@.contains(b) {
                            let w = choose|w: int| 0 <= w < v@.len() && v@[w] == b;
                            if w < v0.len() {
                                assert(v0[w] == b);
                                assert(v0.contains(b));
                            }
                        }
                        if exists|q: int| 0 <= q < j + 1 && #[trigger] self.nodes@[i as int].orphans@[q] == b {
                            let q = choose|q: int| 0 <= q < j + 1 && #[trigger] self.nodes@[i as int].orphans@[q] == b;
                            if q < j {
                                assert(v0.contains(b));
                                let w = choose|w: int| 0 <= w < v0.len() && v0[w] == b;
                                assert(v@[w] == b);
                            } else {
                                assert(v@[v0.len() as int] == b);
                            }
                        }
                        if exists|p: int, q: int|
                            0 <= p < i && 0 <= q < self.nodes@[p].orphans@.len() && #[trigger] self.nodes@[p].orphans@[q] == b {
                            assert(v0.contains(b));
                            let w = choose|w: int| 0 <= w < v0.len() && v0[w] == b;
                            assert(v@[w] == b);
                        }
                    }
                }
                j += 1;
            }
            proof {
                assert forall|b: BlockId| #[trigger] v@.contains(b) <==> exists|p: int, q: int|
                    0 <= p < i + 1 && 0 <= q < self.nodes@[p].orphans@.len() && #[trigger] self.nodes@[p].orphans@[q] == b by {
                    if exists|p: int, q: int|
                        0 <= p < i + 1 && 0 <= q < self.nodes@[p].orphans@.len() && #[trigger] self.nodes@[p].orphans@[q] == b {
                        let (p, q) = choose|p: int, q: int|
                            0 <= p < i + 1 && 0 <= q < self.nodes@[p].orphans@.len() && #[trigger] self.nodes@[p].orphans@[q] == b;
                        if p == i {
                            assert(exists|q: int| 0 <= q < j && #[trigger] self.nodes@[i as int].orphans@[q] == b);
                        }
                    }
                }
            }
            i += 1;
        }
        v
    }

    /// Block list: the blocks of node 1's chain (genesis excluded) and every orphan, each once,
    /// ordered by block time then identifier, each marked as orphan or on-chain.
    pub fn block_list(&self) -> (v: Vec<BlockListEntry>)
        requires
            parents_precede(self.store@),
        ensures
            forall|i: int, j: int|
                0 <= i < j < v@.len() ==> block_key_lt(self.store@, (#[trigger] v@[i]).id, (#[trigger] v@[j]).id),
            forall|i: int|
                #![trigger v@[i]]
                0 <= i < v@.len() ==> {
                    let e = v@[i];
                    &&& self.store.has(e.id)
                    &&& (self.on_main_chain(e.id) || self.is_orphan(e.id))
                    &&& e.orphan == self.is_orphan(e.id)
                    &&& e.height == self.store.rec(e.id).height
                },
            forall|b: BlockId|
                #![trigger self.on_main_chain(b)]
                #![trigger self.is_orphan(b)]
                self.store.has(b) && (self.on_main_chain(b) || self.is_orphan(b)) ==> exists|i: int|
                    0 <= i < v@.len() && (#[trigger] v@[i]).id == b,
    {
        let chain = self.main_chain_blocks();
        let orphans = self.all_orphans();
        let mut sorted: Vec<BlockId> = Vec::new();
        let mut i: usize = 0;
        while i < chain.len()
            invariant
                i <= chain@.len(),
                sorted_by_key(self.store@, sorted@),
                forall|b: BlockId| #[trigger] sorted@.contains(b) <==> (self.store.has(b) && exists|q: int|
                    0 <= q < i && chain@[q] == b),
            decreases chain@.len() - i,
        {
            let b = chain[i];
            if b.0 < self.store.len() as u64 {
                insert_by_key(&self.store, &mut sorted, b);
            }
            proof {
                assert forall|x: BlockId| #[trigger] sorted@.contains(x) <==> (self.store.has(x) && exists|q: int|
                    0 <= q < i + 1 && chain@[q] == x) by {
                    if self.store.has(x) && exists|q: int| 0 <= q < i + 1 && chain@[q] == x {
                        let q = choose|q: int| 0 <= q < i + 1 && chain@[q] == x;
                        if q < i {
                            assert(exists|q: int| 0 <= q < i && chain@[q] == x);
                        }
                    }
                }
            }
            i += 1;
        }
        let mut i: usize = 0;
        while i < orphans.len()
            invariant
                i <= orphans@.len(),
                sorted_by_key(self.store@, sorted@),
                forall|b: BlockId| #[trigger] sorted@.contains(b) <==> (self.store.has(b) && (chain@.contains(b)
                    || exists|q: int| 0 <= q < i && orphans@[q] == b)),
            decreases orphans@.len() - i,
        {
            let b = orphans[i];
            if b.0 < self.store.len() as u64 {
                insert_by_key(&self.store, &mut sorted, b);
            }
            proof {
                assert forall|x: BlockId| #[trigger] sorted@.contains(x) <==> (self.store.has(x) && (chain@.contains(x)
                    || exists|q: int| 0 <= q < i + 1 && orphans@[q] == x)) by {
                    if self.store.has(x) && exists|q: int| 0 <= q < i + 1 && orphans@[q] == x {
                        let q = choose|q: int| 0 <= q < i + 1 && orphans@[q] == x;
                        if q < i {
                            assert(exists|q: int| 0 <= q < i && orphans@[q] == x);
                        }
                    }
                }
            }
            i += 1;
        }
        proof {
            assert forall|x: BlockId| #[trigger] sorted@.contains(x) <==> (self.store.has(x) && (self.on_main_chain(x)
                || self.is_orphan(x))) by {
                if self.is_orphan(x) && self.store.has(x) {
                    assert(orphans@.contains(x));
                    let q = choose|q: int| 0 <= q < orphans@.len() && orphans@[q] == x;
                    assert(exists|q: int| 0 <= q < orphans@.len() && orphans@[q] == x);
                }
                if sorted@.contains(x) && !chain@.contains(x) {
                    let q = choose|q: int| 0 <= q < orphans@.len() && orphans@[q] == x;
                    assert(orphans@.contains(x));
                }
            }
        }
        let mut v: Vec<BlockListEntry> = Vec::new();
        let mut k: usize = 0;
        while k < sorted.len()
            invariant
                k <= sorted@.len(),
                sorted_by_key(self.store@, sorted@),
                forall|x: BlockId| #[trigger] sorted@.contains(x) <==> (self.store.has(x) && (self.on_main_chain(x)
                    || self.is_orphan(x))),
                forall|x: BlockId| #[trigger] orphans@.contains(x) <==> self.is_orphan(x),
                v@.len() == k,
                forall|q: int|
                    #![trigger v@[q]]
                    0 <= q < k ==> {
                        let e = v@[q];
                        &&& e.id == sorted@[q]
                        &&& e.orphan == self.is_orphan(e.id)
                        &&& e.height == self.store.rec(e.id).height
                    },
            decreases sorted@.len() - k,
        {
            let b = sorted[k];
            let h = match self.store.get(b) {
                Some(r) => r.height,
                None => 0,
            };
            let orphan = block_list_contains(&orphans, b);
            v.push(BlockListEntry { orphan, height: h, id: b });
            k += 1;
        }
        proof {
            assert forall|i: int|
                #![trigger v@[i]]
                0 <= i < v@.len() implies {
                    let e = v@[i];
                    &&& self.store.has(e.id)
                    &&& (self.on_main_chain(e.id) || self.is_orphan(e.id))
                } by {
                assert(sorted@.contains(sorted@[i]));
            }
            assert forall|b: BlockId|
                #![trigger self.on_main_chain(b)]
                #![trigger self.is_orphan(b)]
                self.store.has(b) && (self.on_main_chain(b) || self.is_orphan(b)) implies exists|i: int|
                    0 <= i < v@.len() && (#[trigger] v@[i]).id == b by {
                assert(sorted@.contains(b));
                let q = choose|q: int| 0 <= q < sorted@.len() && sorted@[q] == b;
                assert(v@[q].id == b);
            }
        }
        v
    }
}

} // verus!
