//! Event types scheduled by the simulator.
use crate::types::{BlockId, NodeId};
use vstd::prelude::*;

verus! {

/// Full block versus compact block relay payload.
#[derive(Debug, Clone, Copy, PartialEq, Eq, Structural)]
pub enum BlockPayloadKind {
    /// Compact block relay payload; decode success is decided on **receipt** (receiver churn flag).
    Compact,
    /// Full block: legacy relay or after `GetBlockTxn`.
    Full,
}

#[derive(Debug, Clone, Copy, PartialEq, Eq, Structural)]
pub enum SimEvent {
    /// Mining finished; mint a new block extending `parent`, carrying the work that `parent`
    /// requires of its children (its `next_difficulty`, read from the block store).
    MiningFinished { node: NodeId, parent: BlockId },
    /// Block inventory has arrived at `to` from neighbor `from`.
    InvArrive { to: NodeId, from: NodeId, block: BlockId },
    /// Post-inv receive step has arrived at `to` from `from` (the peer that sent `inv`).
    RecArrive { to: NodeId, from: NodeId, block: BlockId },
    /// `getblocktxn` has arrived at `to` from `from` (compact decode failed on receiver).
    GetBlockTxnArrive { to: NodeId, from: NodeId, block: BlockId },
    /// Block or compact payload has finished transmission to `recipient` from `sender`.
    BlockPayloadArrive {
        recipient: NodeId,
        sender: NodeId,
        block: BlockId,
        depart_ms: u64,
        kind: BlockPayloadKind,
    },
}

impl SimEvent {
    /// Every node the event names is one of `1..=n` and every block it names is below `nb`.
    pub open spec fn refs_ok(&self, n: nat, nb: nat) -> bool {
        match *self {
            SimEvent::MiningFinished { node, parent, .. } => 1 <= node <= n && parent.0 < nb,
            SimEvent::InvArrive { to, from, block } => 1 <= to <= n && 1 <= from <= n && block.0 < nb,
            SimEvent::RecArrive { to, from, block } => 1 <= to <= n && 1 <= from <= n && block.0 < nb,
            SimEvent::GetBlockTxnArrive { to, from, block } => 1 <= to <= n && 1 <= from <= n
                && block.0 < nb,
            SimEvent::BlockPayloadArrive { recipient, sender, block, .. } => 1 <= recipient <= n
                && 1 <= sender <= n && block.0 < nb,
        }
    }
}

} // verus!
