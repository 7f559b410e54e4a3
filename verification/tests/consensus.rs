use num_bigint::BigUint;
use simblock::block::{BlockId, BlockRecord, BlockStore};
use simblock::consensus::{extend_total_difficulty, validate_pow_received, work_target_for_genesis};
use simblock::difficulty::Work;

fn big(w: &Work) -> BigUint {
    BigUint::from_slice(&w.to_digits())
}

fn rec(parent: Option<BlockId>, height: u32, time_ms: u64, minter: u32, d: u64, total: u64, next: u64) -> BlockRecord {
    BlockRecord {
        parent,
        height,
        time_ms,
        minter,
        difficulty: Work::from_u64(d),
        total_difficulty: Work::from_u64(total),
        next_difficulty: Work::from_u64(next),
    }
}

#[test]
fn work_target_for_genesis_scales_linearly() {
    let a = work_target_for_genesis(100, 1000);
    let b = work_target_for_genesis(200, 1000);
    assert_eq!(big(&b), big(&a.add(&a)));
}

#[test]
fn extend_total_difficulty_adds_work() {
    let parent = rec(None, 0, 0, 1, 0, 10, 5);
    let d = Work::from_u64(7);
    assert_eq!(big(&extend_total_difficulty(&parent, &d)), BigUint::from(17u32));
}

#[test]
fn validate_pow_height_zero_always_ok() {
    let store = BlockStore::default();
    let gen = rec(None, 0, 0, 1, 0, 0, 1);
    assert!(validate_pow_received(&gen, None, &store));
}

#[test]
fn validate_pow_rejects_unknown_parent() {
    let store = BlockStore::default();
    let bad_parent = BlockId(0);
    let child = rec(Some(bad_parent), 1, 1, 1, 1, 1, 1);
    assert!(!validate_pow_received(&child, None, &store));
}

#[test]
fn validate_pow_accepts_heavier_chain_extension() {
    let mut store = BlockStore::default();
    let gid = store.insert(rec(None, 0, 0, 1, 0, 0, 100));
    let id1 = store.insert(rec(Some(gid), 1, 1, 2, 100, 50, 100));
    let tip = store.get(id1).unwrap();
    let b2 = rec(Some(gid), 1, 2, 3, 100, 80, 100);
    assert!(validate_pow_received(&b2, Some(tip), &store));
}

#[test]
fn validate_pow_rejects_insufficient_difficulty_vs_parent_next() {
    let mut store = BlockStore::default();
    let gid = store.insert(rec(None, 0, 0, 1, 0, 0, 10));
    let child = rec(Some(gid), 1, 1, 2, 5, 5, 1);
    assert!(!validate_pow_received(&child, None, &store));
}

#[test]
fn validate_pow_rejects_child_without_parent_and_lighter_chain() {
    let mut store = BlockStore::default();
    let orphan_child = rec(None, 3, 1, 2, 5, 5, 1);
    assert!(!validate_pow_received(&orphan_child, None, &store));
    let gid = store.insert(rec(None, 0, 0, 1, 0, 0, 10));
    let tip = rec(Some(gid), 1, 1, 2, 10, 30, 10);
    let same = rec(Some(gid), 1, 2, 3, 10, 30, 10);
    assert!(!validate_pow_received(&same, Some(&tip), &store));
}

#[test]
fn work_target_for_genesis_is_exact_product_beyond_u128() {
    let w = work_target_for_genesis(u128::MAX, u64::MAX);
    assert_eq!(big(&w), BigUint::from(u128::MAX) * BigUint::from(u64::MAX));
    assert_eq!(big(&work_target_for_genesis(3, 7)), BigUint::from(21u32));
}

#[test]
fn work_addition_and_order_use_values() {
    let a = Work::from_u64(u64::MAX);
    let b = Work::from_u64(1);
    let s = a.add(&b);
    assert_eq!(big(&s), BigUint::from(u64::MAX) + BigUint::from(1u32));
    assert!(a.lt(&s));
    assert!(!s.lt(&a));
    assert!(!a.lt(&a));
    assert_eq!(big(&Work::zero()), BigUint::from(0u32));
    assert_eq!(big(&Work::from_digits(vec![5, 1])), BigUint::from(4294967301u64));
}
