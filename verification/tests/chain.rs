use simblock::block::{BlockRecord, BlockStore};
use simblock::difficulty::Work;
use simblock::simulation::chain::{block_extends_from, is_on_same_chain};
use simblock::types::BlockId;

fn rec(parent: Option<BlockId>, height: u32, time_ms: u64, minter: u32, d: u64, total: u64, next: u64) -> BlockRecord {
    BlockRecord {
        parent,
        height,
        time_ms,
        minter,
        difficulty: Work::from_u64(d),
        total_difficulty: Work::from_u64(total),
        next_difficulty: Work::from_u64(next),
    }
}

fn same_block() -> bool {
    let mut store = BlockStore::default();
    let g = store.insert(rec(None, 0, 0, 1, 0, 0, 1));
    is_on_same_chain(&store, g, g)
}

fn ancestor_and_descendant() -> (bool, bool, bool) {
    let mut store = BlockStore::default();
    let g = store.insert(rec(None, 0, 0, 1, 0, 0, 10));
    let b1 = store.insert(rec(Some(g), 1, 1, 2, 10, 10, 10));
    let b2 = store.insert(rec(Some(b1), 2, 2, 2, 10, 20, 10));
    (is_on_same_chain(&store, g, b2), is_on_same_chain(&store, b1, b2), is_on_same_chain(&store, b2, g))
}

fn sibling_forks() -> bool {
    let mut store = BlockStore::default();
    let g = store.insert(rec(None, 0, 0, 1, 0, 0, 10));
    let left = store.insert(rec(Some(g), 1, 1, 2, 10, 10, 10));
    let right = store.insert(rec(Some(g), 1, 2, 3, 10, 10, 10));
    is_on_same_chain(&store, left, right)
}

#[test]
fn chain_is_on_same_chain_same_block() {
    assert!(same_block());
}

#[test]
fn chain_is_on_same_chain_ancestor_and_descendant() {
    let (a, b, c) = ancestor_and_descendant();
    assert!(a);
    assert!(b);
    assert!(c);
}

#[test]
fn chain_is_on_same_chain_false_for_sibling_forks() {
    assert!(!sibling_forks());
}

#[test]
fn simulation_is_on_same_chain_same_block() {
    assert!(same_block());
}

#[test]
fn simulation_is_on_same_chain_ancestor_and_descendant() {
    let (a, b, c) = ancestor_and_descendant();
    assert!(a);
    assert!(b);
    assert!(c);
}

#[test]
fn simulation_is_on_same_chain_false_for_sibling_forks() {
    assert!(!sibling_forks());
}

#[test]
fn unknown_blocks_are_on_no_chain_and_extension_follows_parents() {
    let mut store = BlockStore::default();
    let g = store.insert(rec(None, 0, 0, 1, 0, 0, 10));
    let b1 = store.insert(rec(Some(g), 1, 1, 2, 10, 10, 10));
    let b2 = store.insert(rec(Some(b1), 2, 2, 2, 10, 20, 10));
    let side = store.insert(rec(Some(g), 1, 3, 3, 10, 10, 10));
    assert!(!is_on_same_chain(&store, BlockId(40), g));
    assert!(!is_on_same_chain(&store, g, BlockId(40)));
    assert!(block_extends_from(&store, b2, g));
    assert!(block_extends_from(&store, b2, b1));
    assert!(block_extends_from(&store, b2, b2));
    assert!(!block_extends_from(&store, b2, side));
    assert!(!block_extends_from(&store, g, b1));
}
