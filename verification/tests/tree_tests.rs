use cell_sdk::tree::cache::CacheWrapper;
use cell_sdk::tree::common::Op;
use cell_sdk::tree::iter::{exclusive_range_from, Iter, KeyBound};
use cell_sdk::tree::keys::{compare_keys, concat_keys, starts_with, suffix_from, KeyOrder};
use cell_sdk::tree::kvmap::KvMap;
use cell_sdk::tree::mem::{MemDB, MOCK_ROOT_HASH};
use cell_sdk::tree::merkle::{merk_db_path, path_join, read_u64, snapshot_path, u64_to_be_bytes, MerkleRocksDBConfiguration};
use cell_sdk::tree::mpt::{build_height_key, build_root_key, key_decorator};
use cell_sdk::tree::operation::{Operation, RollBackOperation};
use cell_sdk::tree::prefix::PrefixWrapper;
use cell_sdk::tree::rocks::{commit_batches, sort_batch};
use cell_sdk::tree::smt::{smt_next_after, SMTIteratorAdapter};
use cell_sdk::tree::tree::{Batch, Read, Write, DB};

#[test]
pub fn mem_test_set() {
    let mut m = MemDB::default();
    m.set(vec![1, 2], vec![4, 5]).expect("fail to set");
    let res = m.get(vec![1, 2].as_slice()).expect("fail to get").unwrap();
    assert_eq!(res, vec![4, 5])
}

#[test]
fn mem_read_your_write_and_delete() {
    let mut db = MemDB::default();
    db.set(b"key1".to_vec(), b"value1".to_vec()).unwrap();
    assert_eq!(db.get(b"key1").unwrap().unwrap(), b"value1".to_vec());
    db.set(b"key1".to_vec(), b"value2".to_vec()).unwrap();
    assert_eq!(db.get(b"key1").unwrap().unwrap(), b"value2".to_vec());
    db.delete(b"key1".to_vec()).unwrap();
    assert_eq!(db.get(b"key1").unwrap(), None);
    assert_eq!(db.get(b"other").unwrap(), None);
}

#[test]
fn mem_commit_applies_operations() {
    let mut db = MemDB::default();
    let root = db.commit(vec![
        Operation::Put(b"key1".to_vec(), b"value1".to_vec()),
        Operation::Put(b"key2".to_vec(), b"value2".to_vec()),
        Operation::Delete(b"key2".to_vec()),
    ]);
    assert_eq!(root, MOCK_ROOT_HASH);
    assert_eq!(db.get(b"key1").unwrap().unwrap(), b"value1".to_vec());
    assert_eq!(db.get(b"key2").unwrap(), None);
    assert_eq!(db.height().unwrap(), 1);
}

#[test]
fn mem_get_next_is_strictly_after() {
    let mut db = MemDB::default();
    db.set(vec![0, 0], vec![0]).unwrap();
    db.set(vec![1, 0], vec![1]).unwrap();
    db.set(vec![1, 1], vec![2]).unwrap();
    db.set(vec![2, 0], vec![3]).unwrap();
    db.set(vec![4, 0], vec![4]).unwrap();
    db.set(vec![10, 0], vec![5]).unwrap();
    db.commit(vec![]);
    assert_eq!((vec![0, 0], vec![0]), db.get_next(&[0]).unwrap().unwrap());
    assert_eq!((vec![1, 0], vec![1]), db.get_next(&[1]).unwrap().unwrap());
    assert_eq!((vec![1, 1], vec![2]), db.get_next(&[1, 0]).unwrap().unwrap());
    assert_eq!((vec![10, 0], vec![5]), db.get_next(&[8]).unwrap().unwrap());
    assert_eq!(None, db.get_next(&[10, 0]).unwrap());
    assert_eq!((vec![1, 0], vec![1]), db.get_next_inclusive(&[1, 0]).unwrap().unwrap());
}

#[test]
fn mem_height_counts_commits() {
    let mut db = MemDB::default();
    for i in 1..10u64 {
        db.commit(vec![]);
        assert_eq!(i, db.height().unwrap());
    }
}

#[test]
fn mem_roll_back_restores_committed_state() {
    let mut db = MemDB::default();
    for i in 1..10 {
        let value = format!("value_{}", i);
        db.set(b"key1".to_vec(), value.as_bytes().to_vec()).unwrap();
        db.commit(vec![]);
    }
    db.roll_back(3).unwrap();
    assert_eq!(db.get(b"key1").unwrap().unwrap(), b"value_3".to_vec());
    db.roll_back(0).unwrap();
    assert_eq!(db.get(b"key1").unwrap(), None);
}

#[test]
fn roll_back_operation_height() {
    assert_eq!(RollBackOperation::MerkleHeight(7, None).get_height(), Some(7));
}

#[test]
fn cache_reads_through_pending_writes() {
    let mut inner = MemDB::default();
    inner.set(b"a".to_vec(), b"1".to_vec()).unwrap();
    inner.set(b"b".to_vec(), b"2".to_vec()).unwrap();
    let mut cache = CacheWrapper::wrap(inner);
    cache.set(b"c".to_vec(), b"3".to_vec()).unwrap();
    cache.delete(b"a".to_vec()).unwrap();
    assert_eq!(cache.get(b"a").unwrap(), None);
    assert_eq!(cache.get(b"b").unwrap().unwrap(), b"2".to_vec());
    assert_eq!(cache.get(b"c").unwrap().unwrap(), b"3".to_vec());
    assert_eq!(cache.get_next(b"").unwrap().unwrap(), (b"b".to_vec(), b"2".to_vec()));
    assert_eq!(cache.get_next(b"b").unwrap().unwrap(), (b"c".to_vec(), b"3".to_vec()));
    cache.flush().unwrap();
    assert_eq!(cache.get(b"a").unwrap(), None);
    assert_eq!(cache.get(b"c").unwrap().unwrap(), b"3".to_vec());
}

#[test]
fn cache_clean_drops_pending_writes() {
    let inner = MemDB::default();
    let mut cache = CacheWrapper::wrap(inner);
    cache.set(vec![1, 2], vec![0]).unwrap();
    assert_eq!(cache.get(&[1, 2]).unwrap().unwrap(), vec![0]);
    cache.clean().unwrap();
    assert!(cache.get(&[1, 2]).unwrap().is_none());
}

#[test]
fn prefix_wrapper_keeps_keys_apart() {
    let inner = MemDB::default();
    let mut p = PrefixWrapper::new(b"pre".to_vec(), inner);
    p.set(b"k".to_vec(), b"v".to_vec()).unwrap();
    assert_eq!(p.get(b"k").unwrap().unwrap(), b"v".to_vec());
    assert_eq!(p.get(b"prek").unwrap(), None);
    assert_eq!(p.get_next(b"").unwrap().unwrap(), (b"k".to_vec(), b"v".to_vec()));
    p.delete(b"k".to_vec()).unwrap();
    assert_eq!(p.get(b"k").unwrap(), None);
}

#[test]
fn kvmap_insert_get_remove() {
    let mut m = KvMap::new();
    assert!(m.is_empty());
    m.insert(vec![2], Some(vec![20]));
    m.insert(vec![1], None);
    m.insert(vec![3], Some(vec![30]));
    assert_eq!(m.len(), 3);
    assert_eq!(m.entry_at(0).0, vec![1]);
    assert_eq!(m.get(&[2]), Some(Some(vec![20])));
    assert_eq!(m.get(&[1]), Some(None));
    assert_eq!(m.get(&[9]), None);
    m.remove(&[2]);
    assert_eq!(m.get(&[2]), None);
    assert_eq!(m.pop_first(), Some((vec![1], None)));
    assert_eq!(m.len(), 1);
}

#[test]
fn key_order_is_lexicographic() {
    assert_eq!(compare_keys(&[1, 2], &[1, 3]), KeyOrder::Less);
    assert_eq!(compare_keys(&[1, 2], &[1]), KeyOrder::Greater);
    assert_eq!(compare_keys(&[], &[]), KeyOrder::Equal);
    assert_eq!(compare_keys(&[], &[0]), KeyOrder::Less);
    assert_eq!(concat_keys(&[1], &[2, 3]), vec![1, 2, 3]);
    assert!(starts_with(&[1, 2, 3], &[1, 2]));
    assert!(!starts_with(&[1], &[1, 2]));
    assert_eq!(suffix_from(&[1, 2, 3], 1), vec![2, 3]);
}

#[test]
fn sort_batch_is_stable_by_key() {
    let batch = vec![
        (vec![2u8], Op::Put(vec![1])),
        (vec![1u8], Op::Put(vec![2])),
        (vec![2u8], Op::Delete),
        (vec![0u8], Op::Put(vec![3])),
    ];
    let out = sort_batch(batch);
    let keys: Vec<Vec<u8>> = out.iter().map(|e| e.0.clone()).collect();
    assert_eq!(keys, vec![vec![0], vec![1], vec![2], vec![2]]);
    assert!(matches!(&out[2].1, Op::Put(v) if *v == vec![1]));
    assert!(matches!(&out[3].1, Op::Delete));
}

#[test]
fn commit_batches_record_next_height() {
    let mut pending = KvMap::new();
    pending.insert(vec![5], Some(vec![50]));
    pending.insert(vec![3], None);
    let (batch, aux) = commit_batches(vec![Operation::Put(vec![4], vec![40])], pending, 6);
    let keys: Vec<Vec<u8>> = batch.iter().map(|e| e.0.clone()).collect();
    assert_eq!(keys, vec![vec![3], vec![4], vec![5]]);
    assert!(matches!(&batch[0].1, Op::Delete));
    assert_eq!(aux.len(), 1);
    assert_eq!(aux[0].0, b"height".to_vec());
    assert!(matches!(&aux[0].1, Op::Put(v) if *v == vec![0, 0, 0, 0, 0, 0, 0, 7]));
}

#[test]
fn snapshot_policy() {
    let cfg = MerkleRocksDBConfiguration::new("./merk.db");
    assert_eq!(cfg.get_home(), "./merk.db".to_string());
    assert!(cfg.snapshot_due(5, false));
    assert!(!cfg.snapshot_due(5, true));
    assert!(!cfg.snapshot_due(0, false));
    assert_eq!(cfg.prune_height(1000), None);
    assert_eq!(cfg.prune_height(1005), Some(5));
}

#[test]
fn store_paths() {
    assert_eq!(path_join("./merk.db", "x"), "./merk.db/x");
    assert_eq!(path_join("home/", "x"), "home/x");
    assert_eq!(path_join("", "x"), "x");
    assert_eq!(path_join("home", "/abs/x"), "/abs/x");
    assert_eq!(path_join("home", ""), "home/");
    assert_eq!(merk_db_path("h"), "h/merk_db");
    assert_eq!(snapshot_path("h"), "h/snapshots");
}

#[test]
fn big_endian_height_bytes() {
    assert_eq!(u64_to_be_bytes(258), vec![0, 0, 0, 0, 0, 0, 1, 2]);
    assert_eq!(read_u64(&[0, 0, 0, 0, 0, 0, 1, 2]), 258);
    assert_eq!(read_u64(&u64_to_be_bytes(u64::MAX)), u64::MAX);
    let k = build_height_key(1);
    assert_eq!(&k[..11], b"height_hash");
    assert_eq!(&k[11..], &[0, 0, 0, 0, 0, 0, 0, 1]);
    assert_eq!(build_root_key(b"p"), b"pmpt_root".to_vec());
}

#[test]
fn keccak_key_decorator() {
    let expected = hex::decode("c5d2460186f7233c927e7db2dcc703c0e500b653ca82273b7bfad8045d85a470").unwrap();
    assert_eq!(key_decorator(vec![]), expected);
    assert_ne!(key_decorator(vec![1]), vec![1]);
    assert_eq!(key_decorator(vec![1]).len(), 32);
}

#[test]
fn smt_next_after_skips_start() {
    let kvs = vec![
        (vec![1u8], vec![10u8]),
        (vec![3u8], vec![30u8]),
        (vec![2u8], vec![20u8]),
    ];
    assert_eq!(smt_next_after(kvs.clone(), &[1]), Some((vec![2], vec![20])));
    assert_eq!(smt_next_after(kvs.clone(), &[0]), Some((vec![1], vec![10])));
    assert_eq!(smt_next_after(kvs.clone(), &[3]), None);
    let mut it = SMTIteratorAdapter::new(kvs);
    assert_eq!(it.next(), Some((vec![1], vec![10])));
    assert_eq!(it.next(), Some((vec![3], vec![30])));
    assert_eq!(it.next(), Some((vec![2], vec![20])));
    assert_eq!(it.next(), None);
}

#[test]
fn iter_walks_the_bounds_in_order() {
    let mut db = MemDB::default();
    for k in [5u8, 1, 9, 3, 7] {
        db.set(vec![k], vec![k * 10]).unwrap();
    }
    let mut it = Iter::new(&db, (KeyBound::Included(vec![3]), KeyBound::Excluded(vec![9])));
    let mut seen = Vec::new();
    while let Some(r) = it.next() {
        seen.push(r.unwrap());
    }
    assert_eq!(seen, vec![(vec![3], vec![30]), (vec![5], vec![50]), (vec![7], vec![70])]);
    assert!(it.next().is_none());
    let mut all = Iter::new(&db, (KeyBound::Unbounded, KeyBound::Unbounded));
    let mut n = 0;
    while let Some(r) = all.next() {
        r.unwrap();
        n += 1;
    }
    assert_eq!(n, 5);
}

#[test]
fn height_keys_order_as_heights() {
    assert!(build_height_key(1) < build_height_key(256));
    assert!(build_height_key(255) < build_height_key(256));
    assert!(build_height_key(u64::MAX - 1) < build_height_key(u64::MAX));
    assert_eq!(build_height_key(42), build_height_key(42));
}

#[test]
fn smt_adapter_walk_after_new() {
    let mut it = SMTIteratorAdapter::new(vec![(vec![2u8], vec![1u8]), (vec![1u8], vec![2u8])]);
    assert_eq!(it.next(), Some((vec![2], vec![1])));
    assert_eq!(it.next(), Some((vec![1], vec![2])));
    assert_eq!(it.next(), None);
    assert_eq!(it.next(), None);
}

#[test]
fn exclusive_range_starts_after_start() {
    let (lo, hi) = exclusive_range_from(&[1, 2]);
    assert!(matches!(lo, KeyBound::Excluded(ref x) if *x == vec![1, 2]));
    assert!(matches!(hi, KeyBound::Unbounded));
}

#[test]
fn cache_get_next_over_deleted_keys() {
    let mut inner = MemDB::default();
    inner.set(vec![1], vec![10]).unwrap();
    inner.set(vec![2], vec![20]).unwrap();
    inner.set(vec![3], vec![30]).unwrap();
    let mut cache = CacheWrapper::wrap(inner);
    cache.delete(vec![2]).unwrap();
    cache.set(vec![2, 5], vec![25]).unwrap();
    assert_eq!(cache.get_next(&[1]).unwrap(), Some((vec![2, 5], vec![25])));
    assert_eq!(cache.get_next(&[2, 5]).unwrap(), Some((vec![3], vec![30])));
    assert_eq!(cache.get_next(&[3]).unwrap(), None);
}
