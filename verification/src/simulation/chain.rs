//! Chain topology queries that run over [`BlockStore`].
use crate::block::{BlockRecord, BlockStore};
use crate::types::BlockId;
use vstd::prelude::*;

verus! {

/// One step towards genesis: the parent of `cur`, if `cur` is a stored block with a parent.
pub open spec fn parent_step(store: Seq<BlockRecord>, cur: Option<BlockId>) -> Option<BlockId> {
    match cur {
        Some(id) => if id.0 < store.len() {
            store[id.0 as int].parent
        } else {
            None
        },
        None => None,
    }
}

/// `k` parent steps from `cur`.
pub open spec fn walk(store: Seq<BlockRecord>, cur: Option<BlockId>, k: nat) -> Option<BlockId>
    decreases k,
{
    if k == 0 {
        cur
    } else {
        parent_step(store, walk(store, cur, (k - 1) as nat))
    }
}

/// Every stored block's parent was stored before it.
pub open spec fn parents_precede(store: Seq<BlockRecord>) -> bool {
    forall|i: int|
        0 <= i < store.len() ==> match (#[trigger] store[i]).parent {
            Some(p) => p.0 < i,
            None => true,
        }
}

/// Every stored block with a parent sits one above it.
pub open spec fn heights_consistent(store: Seq<BlockRecord>) -> bool {
    forall|i: int|
        0 <= i < store.len() ==> match (#[trigger] store[i]).parent {
            Some(p) => p.0 < store.len() && store[i].height == store[p.0 as int].height + 1,
            None => true,
        }
}

/// `block` and `tip` lie on one chain: walking down from the higher of the two to the height
/// of the lower one reaches the lower one.
pub open spec fn on_same_chain(store: Seq<BlockRecord>, block: BlockId, tip: BlockId) -> bool {
    &&& block.0 < store.len()
    &&& tip.0 < store.len()
    &&& {
        let hb = store[block.0 as int].height;
        let ht = store[tip.0 as int].height;
        if hb <= ht {
            walk(store, Some(tip), (ht - hb) as nat) == Some(block)
        } else {
            walk(store, Some(block), (hb - ht) as nat) == Some(tip)
        }
    }
}

/// Walking down from `tip` passes through `ancestor`.
pub open spec fn extends_from(store: Seq<BlockRecord>, tip: BlockId, ancestor: BlockId) -> bool {
    exists|k: nat| #[trigger] walk(store, Some(tip), k) == Some(ancestor)
}

fn step(store: &BlockStore, cur: Option<BlockId>) -> (r: Option<BlockId>)
    ensures
        r == parent_step(store@, cur),
{
    match cur {
        Some(id) => match store.get(id) {
            Some(rec) => rec.parent,
            None => None,
        },
        None => None,
    }
}

/// Whether `block` and `tip` are on the same chain (compare [`BlockId`] at the aligned height).
pub fn is_on_same_chain(store: &BlockStore, block: BlockId, tip: BlockId) -> (r: bool)
    ensures
        r == on_same_chain(store@, block, tip),
{
    let rb = match store.get(block) {
        Some(r) => r,
        None => return false,
    };
    let rt = match store.get(tip) {
        Some(r) => r,
        None => return false,
    };
    if rb.height <= rt.height {
        let d = rt.height - rb.height;
        let mut cur = Some(tip);
        let mut i: u32 = 0;
        while i < d
            invariant
                i <= d,
                cur == walk(store@, Some(tip), i as nat),
            decreases d - i,
        {
            cur = step(store, cur);
            i += 1;
        }
        cur == Some(block)
    } else {
        let d = rb.height - rt.height;
        let mut cur = Some(block);
        let mut i: u32 = 0;
        while i < d
            invariant
                i <= d,
                cur == walk(store@, Some(block), i as nat),
            decreases d - i,
        {
            cur = step(store, cur);
            i += 1;
        }
        cur == Some(tip)
    }
}

/// Once a walk has left the stored blocks it stays at `None`.
pub proof fn lemma_walk_none_stays(store: Seq<BlockRecord>, cur: Option<BlockId>, k: nat, m: nat)
    requires
        walk(store, cur, k) is None,
        k <= m,
    ensures
        walk(store, cur, m) is None,
    decreases m - k,
{
    if k < m {
        lemma_walk_none_stays(store, cur, k, (m - 1) as nat);
    }
}

/// True when walking parents from `tip` passes through `ancestor`.
pub fn block_extends_from(store: &BlockStore, tip: BlockId, ancestor: BlockId) -> (r: bool)
    requires
        parents_precede(store@),
    ensures
        r == extends_from(store@, tip, ancestor),
{
    let mut cur = Some(tip);
    let ghost mut i: nat = 0;
    loop
        invariant
            cur == walk(store@, Some(tip), i),
            forall|j: nat| j < i ==> #[trigger] walk(store@, Some(tip), j) != Some(ancestor),
            parents_precede(store@),
        decreases
            match cur {
                Some(id) => id.0 + 1,
                None => 0,
            },
    {
        match cur {
            Some(id) => {
                if id == ancestor {
                    assert(walk(store@, Some(tip), i) == Some(ancestor));
                    return true;
                }
                let next = step(store, cur);
                proof {
                    if id.0 < store@.len() {
                        assert(store@[id.0 as int] == store@[id.0 as int]);
                    }
                    assert(walk(store@, Some(tip), i + 1) == next);
                    i = i + 1;
                }
                cur = next;
            },
            None => {
                proof {
                    assert forall|k: nat| #[trigger] walk(store@, Some(tip), k) != Some(ancestor) by {
                        if k >= i {
                            lemma_walk_none_stays(store@, Some(tip), i, k);
                        }
                    }
                }
                return false;
            },
        }
    }
}

/// Walking `k` steps down from a block reaches a block `k` lower, when heights are consistent.
pub proof fn lemma_walk_height(store: Seq<BlockRecord>, start: BlockId, k: nat)
    requires
        heights_consistent(store),
        start.0 < store.len(),
        walk(store, Some(start), k) is Some,
    ensures
        walk(store, Some(start), k).unwrap().0 < store.len(),
        store[walk(store, Some(start), k).unwrap().0 as int].height + k == store[start.0 as int].height,
    decreases k,
{
    if k > 0 {
        let prev = walk(store, Some(start), (k - 1) as nat);
        if prev is None {
            lemma_walk_none_stays(store, Some(start), (k - 1) as nat, k);
        } else {
            lemma_walk_height(store, start, (k - 1) as nat);
            let pid = prev.unwrap();
            assert(store[pid.0 as int] == store[pid.0 as int]);
        }
    }
}

/// Lying on one chain does not depend on the order of the two blocks.
pub proof fn lemma_same_chain_symmetric(store: Seq<BlockRecord>, a: BlockId, b: BlockId)
    ensures
        on_same_chain(store, a, b) == on_same_chain(store, b, a),
{
}

/// A block lies on one chain with each of its ancestors.
pub proof fn lemma_ancestor_on_same_chain(store: Seq<BlockRecord>, tip: BlockId, ancestor: BlockId)
    requires
        heights_consistent(store),
        tip.0 < store.len(),
        extends_from(store, tip, ancestor),
    ensures
        on_same_chain(store, ancestor, tip),
{
    let k = choose|k: nat| #[trigger] walk(store, Some(tip), k) == Some(ancestor);
    lemma_walk_height(store, tip, k);
}

/// Over a store whose blocks sit one above their stored parents, two blocks lie on one chain
/// exactly when both are stored and one is reached from the other by parent links.
pub proof fn lemma_same_chain_iff_ancestry(store: Seq<BlockRecord>, a: BlockId, b: BlockId)
    requires
        heights_consistent(store),
    ensures
        on_same_chain(store, a, b) <==> (a.0 < store.len() && b.0 < store.len() && (extends_from(store, b, a)
            || extends_from(store, a, b))),
{
    if a.0 < store.len() && b.0 < store.len() {
        let ha = store[a.0 as int].height;
        let hb = store[b.0 as int].height;
        if on_same_chain(store, a, b) {
            if ha <= hb {
                assert(walk(store, Some(b), (hb - ha) as nat) == Some(a));
            } else {
                assert(walk(store, Some(a), (ha - hb) as nat) == Some(b));
            }
        }
        if extends_from(store, b, a) {
            let k = choose|k: nat| #[trigger] walk(store, Some(b), k) == Some(a);
            lemma_walk_height(store, b, k);
        } else if extends_from(store, a, b) {
            let k = choose|k: nat| #[trigger] walk(store, Some(a), k) == Some(b);
            lemma_walk_height(store, a, k);
        }
    }
}

} // verus!
