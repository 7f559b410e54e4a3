//! Per-node mutable state, static init draws, and the per-peer block-send queue item.
use crate::routing::neighbor_ids;
use crate::types::{BlockId, NodeId};
use std::collections::VecDeque;
use vstd::prelude::*;

verus! {

/// Variant tag on a [`BlockSendJob`].
#[derive(Debug, Clone, Copy, PartialEq, Eq, Structural)]
pub enum BlockSendKind {
    /// Send a block payload in response to a received `rec` (compact if both peers are CBR-capable).
    Rec,
    /// Send a full block in response to `getblocktxn` (compact decode failed on receiver).
    GetBlockTxn,
}

/// Queued outbound block response after rec or `getblocktxn` (per-peer send queue).
#[derive(Debug, Clone, Copy, PartialEq, Eq, Structural)]
pub struct BlockSendJob {
    pub kind: BlockSendKind,
    pub requester: NodeId,
    pub block: BlockId,
}

pub struct NodeState {
    pub id: NodeId,
    pub region: usize,
    pub mining_power: u64,
    pub use_cbr: bool,
    pub is_churn: bool,
    pub max_outbound: usize,
    pub outbound: Vec<NodeId>,
    pub inbound: Vec<NodeId>,
    pub tip: Option<BlockId>,
    /// `(at_ms, seq)` of the single scheduled mining event for this node, if any.
    pub pending_mining: Option<(u64, u64)>,
    pub orphans: Vec<BlockId>,
    /// Serialized block / compact sends to peers (`sending_block` plus this queue).
    pub block_send_queue: VecDeque<BlockSendJob>,
    pub sending_block: bool,
    /// Blocks for which this node has sent `Rec` and not finished download (no repeats).
    pub downloading: Vec<BlockId>,
}

/// Neighbors in `outbound` then `inbound` order.
pub open spec fn neighbor_seq(n: &NodeState) -> Seq<NodeId> {
    n.outbound@ + n.inbound@
}

/// The outbound and inbound lists each hold no repeats and share no node (as
/// [`crate::routing::init_outbound_links`] builds them).
pub open spec fn links_distinct(n: &NodeState) -> bool {
    &&& n.outbound@.no_duplicates()
    &&& n.inbound@.no_duplicates()
    &&& n.outbound@.disjoint(n.inbound@)
}

/// For a node whose outbound and inbound lists hold no repeats and share no node, the neighbor
/// count, the neighbors in list order and the sorted neighbor list agree: the list-order
/// neighbors repeat nothing, and a strictly increasing list holding exactly the neighbors is as
/// long as the two lists together.
pub proof fn lemma_sorted_neighbors_len(n: &NodeState, v: Seq<NodeId>)
    requires
        links_distinct(n),
        crate::routing::strictly_increasing(v),
        forall|y: NodeId| #[trigger] v.contains(y) <==> neighbor_seq(n).contains(y),
    ensures
        neighbor_seq(n).no_duplicates(),
        neighbor_seq(n).len() == n.outbound@.len() + n.inbound@.len(),
        v.len() == neighbor_seq(n).len(),
{
    let s = neighbor_seq(n);
    let o = n.outbound@.len();
    assert forall|i: int, j: int| 0 <= i < s.len() && 0 <= j < s.len() && i != j implies s[i] != s[j] by {
        if i < o && j < o {
        } else if i >= o && j >= o {
            assert(s[i] == n.inbound@[i - o] && s[j] == n.inbound@[j - o]);
        } else if i < o {
            assert(s[j] == n.inbound@[j - o]);
        } else {
            assert(s[i] == n.inbound@[i - o]);
        }
    }
    assert forall|i: int, j: int| 0 <= i < v.len() && 0 <= j < v.len() && i != j implies v[i] != v[j] by {
        if i < j {
            assert(v[i] < v[j]);
        } else {
            assert(v[j] < v[i]);
        }
    }
    s.unique_seq_to_set();
    v.unique_seq_to_set();
    assert(s.to_set() =~= v.to_set());
}

impl NodeState {
    /// Sorted/deduplicated neighbor list; used by output paths that need a deterministic order.
    pub fn neighbors_sorted(&self) -> (v: Vec<NodeId>)
        ensures
            crate::routing::strictly_increasing(v@),
            forall|y: NodeId| #[trigger] v@.contains(y) <==> neighbor_seq(self).contains(y),
            links_distinct(self) ==> v@.len() == self.outbound@.len() + self.inbound@.len(),
    {
        let v = neighbor_ids(self.outbound.as_slice(), self.inbound.as_slice());
        proof {
            assert forall|y: NodeId| #[trigger] v@.contains(y) <==> neighbor_seq(self).contains(y) by {
                let s = neighbor_seq(self);
                if self.outbound@.contains(y) {
                    let k = choose|k: int| 0 <= k < self.outbound@.len() && self.outbound@[k] == y;
                    assert(s[k] == y);
                }
                if self.inbound@.contains(y) {
                    let k = choose|k: int| 0 <= k < self.inbound@.len() && self.inbound@[k] == y;
                    assert(s[self.outbound@.len() + k] == y);
                }
                if s.contains(y) {
                    let k = choose|k: int| 0 <= k < s.len() && s[k] == y;
                    if k < self.outbound@.len() {
                        assert(self.outbound@[k] == y);
                    } else {
                        assert(self.inbound@[k - self.outbound@.len()] == y);
                    }
                }
            }
            if links_distinct(self) {
                lemma_sorted_neighbors_len(self, v@);
            }
        }
        v
    }

    /// Sorted/deduplicated neighbor list (same as [`Self::neighbors_sorted`]).
    pub fn neighbors(&self) -> (v: Vec<NodeId>)
        ensures
            crate::routing::strictly_increasing(v@),
            forall|y: NodeId| #[trigger] v@.contains(y) <==> neighbor_seq(self).contains(y),
            links_distinct(self) ==> v@.len() == self.outbound@.len() + self.inbound@.len(),
    {
        self.neighbors_sorted()
    }

    /// Neighbors, outbound first, then inbound (no sorting).
    pub fn neighbors_iter(&self) -> (v: Vec<NodeId>)
        ensures
            v@ == neighbor_seq(self),
    {
        let mut v: Vec<NodeId> = Vec::new();
        let mut k: usize = 0;
        while k < self.outbound.len()
            invariant
                k <= self.outbound@.len(),
                v@ == self.outbound@.subrange(0, k as int),
            decreases self.outbound@.len() - k,
        {
            v.push(self.outbound[k]);
            k += 1;
            assert(v@ =~= self.outbound@.subrange(0, k as int));
        }
        let mut k: usize = 0;
        while k < self.inbound.len()
            invariant
                k <= self.inbound@.len(),
                v@ == self.outbound@ + self.inbound@.subrange(0, k as int),
            decreases self.inbound@.len() - k,
        {
            v.push(self.inbound[k]);
            k += 1;
            assert(v@ =~= self.outbound@ + self.inbound@.subrange(0, k as int));
        }
        assert(v@ =~= neighbor_seq(self));
        v
    }

    /// Number of neighbors (outbound plus inbound; the two lists are disjoint).
    pub fn neighbor_count(&self) -> (c: usize)
        requires
            self.outbound@.len() + self.inbound@.len() <= usize::MAX,
        ensures
            c == self.outbound@.len() + self.inbound@.len(),
    {
        self.outbound.len() + self.inbound.len()
    }
}

/// Per-node draws fixed at construction (region, degree cap, CBR/churn flags).
#[derive(Debug, Clone, Copy, PartialEq, Eq, Structural)]
pub struct NodeInit {
    pub region: usize,
    pub max_outbound: usize,
    pub use_cbr: bool,
    pub is_churn: bool,
}

/// Whether `v` holds `b`.
pub fn block_list_contains(v: &Vec<BlockId>, b: BlockId) -> (r: bool)
    ensures
        r == v@.contains(b),
{
    let mut i: usize = 0;
    while i < v.len()
        invariant
            i <= v@.len(),
            forall|k: int| 0 <= k < i ==> #[trigger] v@[k] != b,
        decreases v@.len() - i,
    {
        if v[i] == b {
            return true;
        }
        i += 1;
    }
    false
}

/// Removes `b` from `v` (a list without repeats).
pub fn block_list_remove(v: &mut Vec<BlockId>, b: BlockId)
    ensures
        forall|x: BlockId| #[trigger] final(v)@.contains(x) <==> (old(v)@.contains(x) && x != b),
        final(v)@.len() <= old(v)@.len(),
{
    let ghost v0 = v@;
    let mut i: usize = 0;
    while i < v.len()
        invariant
            i <= v@.len(),
            forall|k: int| 0 <= k < i ==> #[trigger] v@[k] != b,
            forall|x: BlockId| #[trigger] v@.contains(x) <==> (v0.contains(x) && (x != b || v@.contains(b))),
            forall|x: BlockId| x != b ==> (#[trigger] v@.contains(x) <==> v0.contains(x)),
            v@.len() <= v0.len(),
        decreases v@.len() - i,
    {
        if v[i] == b {
            let ghost before = v@;
            v.remove(i);
            proof {
                assert forall|x: BlockId| x != b implies (#[trigger] v@.contains(x) <==> v0.contains(x)) by {
                    if before.contains(x) {
                        let w = choose|w: int| 0 <= w < before.len() && before[w] == x;
                        if w < i {
                            assert(v@[w] == x);
                        } else {
                            assert(w != i);
                            assert(v@[w - 1] == x);
                        }
                    }
                    if v@.contains(x) {
                        let w = choose|w: int| 0 <= w < v@.len() && v@[w] == x;
                        if w < i {
                            assert(before[w] == x);
                        } else {
                            assert(before[w + 1] == x);
                        }
                    }
                }
                assert forall|x: BlockId| #[trigger] v@.contains(x) <==> (v0.contains(x) && (x != b || v@.contains(b))) by {
                    if x == b && v@.contains(b) {
                        let w = choose|w: int| 0 <= w < v@.len() && v@[w] == b;
                        if w < i {
                            assert(before[w] == b);
                        } else {
                            assert(before[w + 1] == b);
                        }
                        assert(before.contains(b));
                        assert(before.contains(b) ==> v0.contains(b));
                    }
                }
            }
        } else {
            i += 1;
        }
    }
    proof {
        assert(!v@.contains(b)) by {
            if v@.contains(b) {
                let w = choose|w: int| 0 <= w < v@.len() && v@[w] == b;
                assert(v@[w] != b);
            }
        }
    }
}

} // verus!
