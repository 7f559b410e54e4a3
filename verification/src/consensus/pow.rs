//! Proof-of-work: work target and validation. Difficulty retargeting is not implemented.
use crate::block::{BlockRecord, BlockStore};
use crate::difficulty::Work;
use vstd::prelude::*;

verus! {

/// Whether `received` is a valid heavier extension than `tip`, read against the stored blocks.
pub open spec fn pow_valid(
    received: &BlockRecord,
    tip: Option<&BlockRecord>,
    store: &BlockStore,
) -> bool {
    if received.height == 0 {
        true
    } else {
        match received.parent {
            None => false,
            Some(pid) => {
                &&& store.has(pid)
                &&& store.rec(pid).next_difficulty@ <= received.difficulty@
                &&& match tip {
                    None => true,
                    Some(cur) => received.total_difficulty@ > cur.total_difficulty@,
                }
            },
        }
    }
}

/// Work required for the first block after genesis: total mining power times target interval.
pub fn work_target_for_genesis(total_mining_power: u128, target_interval_ms: u64) -> (w: Work)
    ensures
        w@ == total_mining_power as nat * target_interval_ms as nat,
{
    Work::product(total_mining_power, target_interval_ms)
}

/// Whether `received` is a valid heavier extension than `current_tip`.
pub fn validate_pow_received(
    received: &BlockRecord,
    current_tip: Option<&BlockRecord>,
    store: &BlockStore,
) -> (ok: bool)
    ensures
        ok == pow_valid(received, current_tip, store),
{
    if received.height == 0 {
        return true;
    }
    let pid = match received.parent {
        Some(p) => p,
        None => return false,
    };
    let parent = match store.get(pid) {
        Some(p) => p,
        None => return false,
    };
    if received.difficulty.lt(&parent.next_difficulty) {
        return false;
    }
    match current_tip {
        None => true,
        Some(cur) => cur.total_difficulty.lt(&received.total_difficulty),
    }
}

/// Total work of a child of `parent` that carries `block_difficulty`.
pub fn extend_total_difficulty(parent: &BlockRecord, block_difficulty: &Work) -> (w: Work)
    ensures
        w@ == parent.total_difficulty@ + block_difficulty@,
{
    parent.total_difficulty.add(block_difficulty)
}

} // verus!
