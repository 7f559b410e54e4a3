//! Node and block identifiers.
use vstd::prelude::*;

verus! {

/// Node identifier; the nodes of a simulation are numbered `1..=N`.
pub type NodeId = u32;

/// Block identifier, assigned sequentially by the block store.
#[derive(Debug, Clone, Copy, PartialEq, Eq, Structural, Hash, PartialOrd, Ord)]
pub struct BlockId(pub u64);

} // verus!
