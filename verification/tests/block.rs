use simblock::block::{BlockId, BlockRecord, BlockStore};
use simblock::difficulty::Work;

fn rec(minter: u32, next: u64) -> BlockRecord {
    BlockRecord {
        parent: None,
        height: 0,
        time_ms: 0,
        minter,
        difficulty: Work::from_u64(0),
        total_difficulty: Work::from_u64(0),
        next_difficulty: Work::from_u64(next),
    }
}

#[test]
fn block_store_insert_assigns_sequential_ids() {
    let mut s = BlockStore::default();
    let r = rec(1, 100);
    let a = s.insert(r.clone());
    let b = s.insert(r);
    assert_eq!(a.0, 0);
    assert_eq!(b.0, 1);
    assert_eq!(s.len(), 2);
    assert!(!s.is_empty());
    assert_eq!(s.get(a).unwrap().minter, 1);
    assert!(s.get(BlockId(99)).is_none());
}

#[test]
fn block_store_iter_lists_blocks_in_id_order() {
    let mut s = BlockStore::new();
    assert!(s.is_empty());
    s.insert(rec(4, 1));
    s.insert(rec(5, 1));
    let v = s.iter();
    assert_eq!(v.len(), 2);
    assert_eq!(v[0].0, BlockId(0));
    assert_eq!(v[1].0, BlockId(1));
    assert_eq!(v[1].1.minter, 5);
}

#[test]
fn cloned_record_keeps_every_field() {
    let mut r = rec(3, 77);
    r.parent = Some(BlockId(4));
    r.height = 9;
    r.time_ms = 12;
    let c = r.clone();
    assert_eq!(c.parent, Some(BlockId(4)));
    assert_eq!((c.height, c.time_ms, c.minter), (9, 12, 3));
    assert!(!c.next_difficulty.lt(&r.next_difficulty) && !r.next_difficulty.lt(&c.next_difficulty));
}
