//! Versions, the multi-version store, transactions, collection and expiry.

use raft::error::Error;
use raft::mvcc::gc::GarbageCollector;
use raft::mvcc::store::MvccStore;
use raft::mvcc::transaction::Transaction;
use raft::mvcc::ttl::TtlManager;
use raft::mvcc::version::{
    decode_key, encode_key, encode_key_prefix_end, encode_key_prefix_start, VersionedValue,
};
use raft::storage::bloom::BloomSize;
use raft::storage::lsm::{LsmConfig, LsmTree};

type Sizing = fn(usize) -> BloomSize;

fn filter_size(items: usize) -> BloomSize {
    BloomSize { num_bits: (items.max(1) * 10).max(8), num_hashes: 7 }
}

fn test_store() -> MvccStore<LsmTree<Sizing>> {
    let config =
        LsmConfig { memtable_size_limit: 64 * 1024, block_size: 256, ..Default::default() };
    let engine = LsmTree::open(
        config,
        None,
        "wal.log".to_string(),
        vec![],
        vec![],
        filter_size as Sizing,
    )
    .unwrap();
    MvccStore::new(engine)
}

#[test]
fn gc_removes_old_versions() {
    let mut store = test_store();
    store.put(b"key", b"v1").unwrap();
    store.put(b"key", b"v2").unwrap();
    store.put(b"key", b"v3").unwrap();
    let v1 = store.get_at_revision(b"key", 1).unwrap();
    assert!(v1.is_some());
    let gc = GarbageCollector::new();
    let removed = gc.collect(&mut store, 3).unwrap();
    assert_eq!(removed, 2);
    let latest = store.get(b"key").unwrap().unwrap();
    assert_eq!(latest.value, b"v3");
    let v1 = store.get_at_revision(b"key", 1).unwrap();
    assert!(v1.is_none());
}

#[test]
fn gc_keeps_latest_even_if_old() {
    let mut store = test_store();
    store.put(b"key", b"only-version").unwrap();
    let gc = GarbageCollector::new();
    let removed = gc.collect(&mut store, 100).unwrap();
    assert_eq!(removed, 0);
    assert_eq!(store.get(b"key").unwrap().unwrap().value, b"only-version");
}

#[test]
fn mvcc_basic_put_get() {
    let mut store = test_store();
    let rev = store.put(b"key1", b"val1").unwrap();
    assert_eq!(rev, 1);
    let kv = store.get(b"key1").unwrap().unwrap();
    assert_eq!(kv.value, b"val1");
    assert_eq!(kv.create_revision, 1);
    assert_eq!(kv.mod_revision, 1);
}

#[test]
fn overwrite_preserves_create_revision() {
    let mut store = test_store();
    store.put(b"key", b"v1").unwrap();
    let rev2 = store.put(b"key", b"v2").unwrap();
    let kv = store.get(b"key").unwrap().unwrap();
    assert_eq!(kv.value, b"v2");
    assert_eq!(kv.create_revision, 1);
    assert_eq!(kv.mod_revision, rev2);
}

#[test]
fn delete_returns_not_found() {
    let mut store = test_store();
    store.put(b"key", b"val").unwrap();
    let (_, existed) = store.delete(b"key").unwrap();
    assert!(existed);
    assert!(store.get(b"key").unwrap().is_none());
}

#[test]
fn mvcc_delete_nonexistent() {
    let mut store = test_store();
    let (_, existed) = store.delete(b"ghost").unwrap();
    assert!(!existed);
}

#[test]
fn snapshot_read() {
    let mut store = test_store();
    store.put(b"key", b"v1").unwrap();
    store.put(b"key", b"v2").unwrap();
    store.put(b"key", b"v3").unwrap();
    let kv = store.get_at_revision(b"key", 2).unwrap().unwrap();
    assert_eq!(kv.value, b"v2");
    let kv = store.get_at_revision(b"key", 1).unwrap().unwrap();
    assert_eq!(kv.value, b"v1");
    let kv = store.get(b"key").unwrap().unwrap();
    assert_eq!(kv.value, b"v3");
}

#[test]
fn mvcc_scan_range() {
    let mut store = test_store();
    store.put(b"a", b"1").unwrap();
    store.put(b"b", b"2").unwrap();
    store.put(b"c", b"3").unwrap();
    store.put(b"d", b"4").unwrap();
    let results = store.scan(b"b", b"d").unwrap();
    assert_eq!(results.len(), 2);
    assert_eq!(results[0].key, b"b");
    assert_eq!(results[1].key, b"c");
}

#[test]
fn scan_after_delete() {
    let mut store = test_store();
    store.put(b"a", b"1").unwrap();
    store.put(b"b", b"2").unwrap();
    store.put(b"c", b"3").unwrap();
    store.delete(b"b").unwrap();
    let results = store.scan(b"a", b"d").unwrap();
    assert_eq!(results.len(), 2);
    assert_eq!(results[0].key, b"a");
    assert_eq!(results[1].key, b"c");
}

#[test]
fn revision_increases() {
    let mut store = test_store();
    let r1 = store.put(b"a", b"1").unwrap();
    let r2 = store.put(b"b", b"2").unwrap();
    let (r3, _) = store.delete(b"a").unwrap();
    assert_eq!(r1, 1);
    assert_eq!(r2, 2);
    assert_eq!(r3, 3);
    assert_eq!(store.revision(), 3);
}

#[test]
fn keys_that_extend_each_other_stay_apart() {
    let mut store = test_store();
    store.put(b"a", b"short").unwrap();
    store.put(b"a\xff\xff\xff\xff\xff\xff\xff\xfe", b"long").unwrap();
    store.put(b"a\x00", b"zero").unwrap();
    assert_eq!(store.get(b"a").unwrap().unwrap().value, b"short");
    assert_eq!(store.get(b"a\x00").unwrap().unwrap().value, b"zero");
    store.delete(b"a").unwrap();
    assert!(store.get(b"a").unwrap().is_none());
    assert_eq!(
        store.get(b"a\xff\xff\xff\xff\xff\xff\xff\xfe").unwrap().unwrap().value,
        b"long"
    );
    assert_eq!(store.scan(b"a", b"b").unwrap().len(), 2);
}

#[test]
fn reads_after_a_restart_go_on_from_the_revision() {
    let mut store = test_store();
    store.set_revision(41);
    assert_eq!(store.put(b"k", b"v").unwrap(), 42);
    assert!(store.get_at_revision(b"k", 41).unwrap().is_none());
    assert_eq!(store.get_at_revision(b"k", 42).unwrap().unwrap().mod_revision, 42);
    assert_eq!(store.allocate_revision(), 43);
}

#[test]
fn basic_transaction() {
    let mut store = test_store();
    let mut txn = Transaction::begin(&store);
    txn.put(b"key1".to_vec(), b"val1".to_vec());
    txn.put(b"key2".to_vec(), b"val2".to_vec());
    let rev = txn.commit(&mut store).unwrap();
    assert!(rev > 0);
    assert_eq!(store.get(b"key1").unwrap().unwrap().value, b"val1");
    assert_eq!(store.get(b"key2").unwrap().unwrap().value, b"val2");
}

#[test]
fn read_own_writes() {
    let mut store = test_store();
    let mut txn = Transaction::begin(&store);
    txn.put(b"key".to_vec(), b"val".to_vec());
    let result = txn.get(&store, b"key").unwrap();
    assert_eq!(result, Some(b"val".to_vec()));
    txn.commit(&mut store).unwrap();
}

#[test]
fn conflict_detection() {
    let mut store = test_store();
    store.put(b"key", b"v1").unwrap();
    let mut txn = Transaction::begin(&store);
    txn.get(&store, b"key").unwrap();
    txn.put(b"key".to_vec(), b"txn-value".to_vec());
    store.put(b"key", b"v2").unwrap();
    let result = txn.commit(&mut store);
    assert!(matches!(result, Err(Error::TransactionConflict)));
    assert_eq!(store.get(b"key").unwrap().unwrap().value, b"v2");
}

#[test]
fn a_key_that_came_and_went_conflicts() {
    let mut store = test_store();
    let mut txn = Transaction::begin(&store);
    assert_eq!(txn.get(&store, b"key").unwrap(), None);
    txn.put(b"other".to_vec(), b"value".to_vec());
    store.put(b"key", b"v1").unwrap();
    store.delete(b"key").unwrap();
    let revision = store.revision();
    assert!(matches!(txn.commit(&mut store), Err(Error::TransactionConflict)));
    assert_eq!(store.revision(), revision);
    assert!(store.get(b"other").unwrap().is_none());
}

#[test]
fn no_conflict_on_different_keys() {
    let mut store = test_store();
    store.put(b"key-a", b"v1").unwrap();
    store.put(b"key-b", b"v1").unwrap();
    let mut txn = Transaction::begin(&store);
    txn.get(&store, b"key-a").unwrap();
    txn.put(b"key-a".to_vec(), b"txn-value".to_vec());
    store.put(b"key-b", b"v2").unwrap();
    txn.commit(&mut store).unwrap();
}

#[test]
fn read_only_transaction() {
    let mut store = test_store();
    store.put(b"key", b"val").unwrap();
    let mut txn = Transaction::begin(&store);
    let val = txn.get(&store, b"key").unwrap();
    assert_eq!(val, Some(b"val".to_vec()));
    let rev = txn.commit(&mut store).unwrap();
    assert_eq!(rev, 1);
}

#[test]
fn transaction_delete() {
    let mut store = test_store();
    store.put(b"key", b"val").unwrap();
    let mut txn = Transaction::begin(&store);
    txn.delete(b"key".to_vec());
    txn.commit(&mut store).unwrap();
    assert!(store.get(b"key").unwrap().is_none());
}

#[test]
fn multi_key_atomicity() {
    let mut store = test_store();
    let mut txn = Transaction::begin(&store);
    txn.put(b"a".to_vec(), b"1".to_vec());
    txn.put(b"b".to_vec(), b"2".to_vec());
    txn.put(b"c".to_vec(), b"3".to_vec());
    let rev = txn.commit(&mut store).unwrap();
    let a = store.get(b"a").unwrap().unwrap();
    let b = store.get(b"b").unwrap().unwrap();
    let c = store.get(b"c").unwrap().unwrap();
    assert_eq!(a.mod_revision, rev);
    assert_eq!(b.mod_revision, rev);
    assert_eq!(c.mod_revision, rev);
}

#[test]
fn expire_ttl_keys() {
    let mut store = test_store();
    store.put_with_options(b"expires", b"soon", 0, 5).unwrap();
    store.put(b"permanent", b"forever").unwrap();
    let ttl = TtlManager::new();
    let expired = ttl.sweep_expired(&mut store, 3).unwrap();
    assert_eq!(expired, 0);
    assert!(store.get(b"expires").unwrap().is_some());
    let expired = ttl.sweep_expired(&mut store, 7).unwrap();
    assert_eq!(expired, 1);
    assert!(store.get(b"expires").unwrap().is_none());
    assert!(store.get(b"permanent").unwrap().is_some());
}

#[test]
fn encode_decode_roundtrip() {
    let encoded = encode_key(b"hello", 42);
    let (user_key, revision) = decode_key(&encoded);
    assert_eq!(user_key, b"hello");
    assert_eq!(revision, 42);
}

#[test]
fn newest_first_ordering() {
    let v1 = encode_key(b"key", 1);
    let v5 = encode_key(b"key", 5);
    let v100 = encode_key(b"key", 100);
    assert!(v100 < v5);
    assert!(v5 < v1);
}

#[test]
fn different_keys_separate() {
    let a5 = encode_key(b"a", 5);
    let b1 = encode_key(b"b", 1);
    assert!(a5 < b1);
}

#[test]
fn versioned_value_roundtrip() {
    let vv = VersionedValue {
        value: Some(b"hello".to_vec()),
        create_revision: 1,
        mod_revision: 5,
        lease_id: 42,
        ttl_seconds: 300,
    };
    let encoded = vv.encode();
    let decoded = VersionedValue::decode(&encoded);
    assert_eq!(vv, decoded);
}

#[test]
fn versioned_value_delete_marker() {
    let vv = VersionedValue {
        value: None,
        create_revision: 1,
        mod_revision: 3,
        lease_id: 0,
        ttl_seconds: 0,
    };
    let encoded = vv.encode();
    let decoded = VersionedValue::decode(&encoded);
    assert_eq!(vv, decoded);
}

#[test]
fn prefix_range() {
    let start = encode_key_prefix_start(b"foo");
    let end = encode_key_prefix_end(b"foo");
    let foo_v1 = encode_key(b"foo", 1);
    let foo_v100 = encode_key(b"foo", 100);
    assert!(foo_v1 >= start);
    assert!(foo_v1 < end);
    assert!(foo_v100 >= start);
    assert!(foo_v100 < end);
    let fop = encode_key(b"fop", 1);
    assert!(fop >= end);
}

#[test]
fn every_key_has_an_upper_bound() {
    for key in [&b""[..], &b"\xff"[..], &b"\xff\xff"[..], &b"a\xff"[..], &b"\xffa"[..]] {
        let end = encode_key_prefix_end(key);
        for revision in [0, 5, u64::MAX] {
            assert!(encode_key(key, revision) < end);
        }
    }
    assert_eq!(encode_key_prefix_end(b"\xff"), vec![0xFF; 10]);
    assert_eq!(encode_key_prefix_end(b"a\xff"), [&b"b\x00"[..], &[0; 8][..]].concat());
}

#[test]
fn encoded_keys_have_the_expected_bytes() {
    let encoded = encode_key(b"k", 1);
    assert_eq!(encoded, [b"k".as_slice(), &(u64::MAX - 1).to_be_bytes()].concat());
}

#[test]
fn sweeps_reach_every_key() {
    let mut store = test_store();
    let top = vec![0xFF; 40];
    store.put(&top, b"v1").unwrap();
    store.put(&top, b"v2").unwrap();
    store.put(b"", b"v3").unwrap();
    store.put(b"", b"v4").unwrap();
    let gc = GarbageCollector::new();
    assert_eq!(gc.collect(&mut store, u64::MAX).unwrap(), 2);
    assert_eq!(gc.collect(&mut store, u64::MAX).unwrap(), 0);
    assert_eq!(store.get(&top).unwrap().unwrap().value, b"v2");
    store.put_with_options(&top, b"v5", 0, 1).unwrap();
    assert_eq!(TtlManager::new().sweep_expired(&mut store, 1000).unwrap(), 1);
    assert!(store.get(&top).unwrap().is_none());
}
