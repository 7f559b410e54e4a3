//! Block store and proof-of-work header fields.
use crate::difficulty::Work;
pub use crate::types::BlockId;
use crate::types::NodeId;
use vstd::prelude::*;

verus! {

/// One block: its place in the chain and the work it carries.
pub struct BlockRecord {
    pub parent: Option<BlockId>,
    pub height: u32,
    pub time_ms: u64,
    pub minter: NodeId,
    pub difficulty: Work,
    pub total_difficulty: Work,
    /// Minimum work required for the next child block (no retargeting in this model).
    pub next_difficulty: Work,
}

/// All blocks ever created; block `i` has the identifier `BlockId(i)`.
pub struct BlockStore {
    blocks: Vec<BlockRecord>,
}

impl View for BlockStore {
    type V = Seq<BlockRecord>;

    closed spec fn view(&self) -> Seq<BlockRecord> {
        self.blocks@
    }
}

impl Clone for BlockRecord {
    fn clone(&self) -> (r: Self)
        ensures
            r.parent == self.parent,
            r.height == self.height,
            r.time_ms == self.time_ms,
            r.minter == self.minter,
            r.difficulty@ == self.difficulty@,
            r.total_difficulty@ == self.total_difficulty@,
            r.next_difficulty@ == self.next_difficulty@,
    {
        BlockRecord {
            parent: self.parent,
            height: self.height,
            time_ms: self.time_ms,
            minter: self.minter,
            difficulty: self.difficulty.clone(),
            total_difficulty: self.total_difficulty.clone(),
            next_difficulty: self.next_difficulty.clone(),
        }
    }
}

impl Default for BlockStore {
    fn default() -> (s: Self)
        ensures
            s@ == Seq::<BlockRecord>::empty(),
    {
        BlockStore::new()
    }
}

impl BlockStore {
    /// Whether `id` names a stored block.
    pub open spec fn has(&self, id: BlockId) -> bool {
        id.0 < self@.len()
    }

    /// The record stored under `id` (meaningful when `self.has(id)`).
    pub open spec fn rec(&self, id: BlockId) -> BlockRecord {
        self@[id.0 as int]
    }

    /// An empty store.
    pub fn new() -> (s: BlockStore)
        ensures
            s@ == Seq::<BlockRecord>::empty(),
    {
        BlockStore { blocks: Vec::new() }
    }

    /// Stores `rec` under the next sequential identifier and returns that identifier.
    pub fn insert(&mut self, rec: BlockRecord) -> (id: BlockId)
        requires
            old(self)@.len() < u64::MAX,
        ensures
            id.0 == old(self)@.len(),
            final(self)@ == old(self)@.push(rec),
    {
        let id = BlockId(self.blocks.len() as u64);
        self.blocks.push(rec);
        id
    }

    /// The record stored under `id`, if any.
    pub fn get(&self, id: BlockId) -> (r: Option<&BlockRecord>)
        ensures
            self.has(id) ==> r == Some(&self.rec(id)),
            !self.has(id) ==> r.is_none(),
    {
        if id.0 < self.blocks.len() as u64 {
            Some(&self.blocks[id.0 as usize])
        } else {
            None
        }
    }

    /// Number of stored blocks.
    pub fn len(&self) -> (n: usize)
        ensures
            n == self@.len(),
    {
        self.blocks.len()
    }

    /// Whether no block is stored.
    pub fn is_empty(&self) -> (b: bool)
        ensures
            b == (self@.len() == 0),
    {
        self.blocks.len() == 0
    }

    /// Every stored block with its identifier, in identifier order.
    pub fn iter(&self) -> (v: Vec<(BlockId, &BlockRecord)>)
        ensures
            v@.len() == self@.len(),
            forall|i: int| #![trigger v@[i]] 0 <= i < v@.len() ==> v@[i].0 == BlockId(i as u64) && *v@[i].1 == self@[i],
    {
        let mut v: Vec<(BlockId, &BlockRecord)> = Vec::new();
        let n = self.blocks.len();
        let mut i: usize = 0;
        while i < n
            invariant
                n == self@.len(),
                i <= n,
                v@.len() == i,
                forall|k: int| #![trigger v@[k]] 0 <= k < i ==> v@[k].0 == BlockId(k as u64) && *v@[k].1 == self@[k],
            decreases n - i,
        {
            let r = &self.blocks[i];
            v.push((BlockId(i as u64), r));
            assert(v@[i as int].0 == BlockId(i as u64));
            i += 1;
        }
        v
    }
}

} // verus!
