//! The memory table, the manifest, compaction and the tree.

use raft::storage::bloom::BloomSize;
use raft::storage::compaction::{CompactionConfig, LeveledCompaction, OpenTable, TableFile};
use raft::storage::disk::DiskAction;
use raft::storage::engine::StorageEngine;
use raft::storage::lsm::{LsmConfig, LsmTree};
use raft::storage::manifest::{Manifest, SSTableEntry};
use raft::storage::memtable::MemTable;
use raft::storage::sstable::{SSTableReader, SSTableWriter};
use std::collections::BTreeMap;

type Sizing = fn(usize) -> BloomSize;

fn filter_size(items: usize) -> BloomSize {
    let n = items.max(1);
    BloomSize { num_bits: (n * 10).max(8), num_hashes: 7 }
}

/// A disk in memory.
struct Disk {
    files: BTreeMap<String, Vec<u8>>,
    wal: Vec<u8>,
    manifest: Option<Manifest>,
}

impl Disk {
    fn new() -> Self {
        Disk { files: BTreeMap::new(), wal: Vec::new(), manifest: None }
    }

    fn carry_out(&mut self, actions: Vec<DiskAction>) {
        for action in actions {
            match action {
                DiskAction::WriteFile { name, data } => {
                    self.files.insert(name, data);
                }
                DiskAction::RemoveFile { name } => {
                    self.files.remove(&name);
                }
                DiskAction::AppendWal { data } => self.wal.extend_from_slice(&data),
                DiskAction::ResetWal => self.wal.clear(),
                DiskAction::SaveManifest { manifest } => self.manifest = Some(manifest),
            }
        }
    }

    fn open(&self) -> LsmTree<Sizing> {
        let config = LsmConfig {
            memtable_size_limit: 512,
            block_size: 128,
            l0_compaction_trigger: 4,
            level_size_ratio: 10,
        };
        let files = self
            .files
            .iter()
            .map(|(name, data)| TableFile { name: name.clone(), data: data.clone() })
            .collect();
        let manifest = self.manifest.as_ref().map(|m| m.copied());
        LsmTree::open(
            config,
            manifest,
            "wal.log".to_string(),
            self.wal.clone(),
            files,
            filter_size as Sizing,
        )
        .unwrap()
    }
}

fn write_test_sst(
    manifest: &mut Manifest,
    level: usize,
    entries: &[(&[u8], Option<&[u8]>)],
) -> OpenTable {
    let (id, name) = manifest.next_sst_filename();
    let mut writer = SSTableWriter::new(name.clone(), 256, filter_size(entries.len()));
    for (key, val) in entries {
        writer.add(key, *val);
    }
    let (info, data) = writer.finish();
    let entry = SSTableEntry {
        id,
        level,
        file_name: name.clone(),
        min_key: entries.first().unwrap().0.to_vec(),
        max_key: entries.last().unwrap().0.to_vec(),
        entry_count: info.entry_count,
        file_size: info.file_size,
    };
    manifest.add_sstable(entry.copied());
    OpenTable { entry, reader: SSTableReader::open(name, data).unwrap() }
}

#[test]
fn compact_l0_to_l1() {
    let mut manifest = Manifest::new(4);
    let compaction = LeveledCompaction::new(CompactionConfig {
        l0_compaction_trigger: 2,
        ..Default::default()
    });
    let a = write_test_sst(&mut manifest, 0, &[(b"a", Some(b"1")), (b"c", Some(b"3"))]);
    let b = write_test_sst(&mut manifest, 0, &[(b"b", Some(b"2")), (b"d", Some(b"4"))]);
    assert!(compaction.needs_compaction(&manifest).is_some());
    let tables = vec![b, a];
    let result = compaction.compact(&mut manifest, &tables, 0, &filter_size).unwrap();
    assert_eq!(result.removed_ids.len(), 2);
    assert_eq!(result.new_entries.len(), 1);
    assert_eq!(manifest.level_count(0), 0);
    assert_eq!(manifest.level_count(1), 1);
    let file = &result.new_files[0];
    assert_eq!(file.name, result.new_entries[0].file_name);
    let sst = SSTableReader::open(file.name.clone(), file.data.clone()).unwrap();
    assert_eq!(sst.get(b"a").unwrap(), Some(Some(b"1".to_vec())));
    assert_eq!(sst.get(b"b").unwrap(), Some(Some(b"2".to_vec())));
    assert_eq!(sst.get(b"c").unwrap(), Some(Some(b"3".to_vec())));
    assert_eq!(sst.get(b"d").unwrap(), Some(Some(b"4".to_vec())));
}

#[test]
fn dedup_on_compaction() {
    let mut manifest = Manifest::new(4);
    let compaction = LeveledCompaction::new(CompactionConfig {
        l0_compaction_trigger: 2,
        ..Default::default()
    });
    let old = write_test_sst(&mut manifest, 0, &[(b"key", Some(b"old"))]);
    let new = write_test_sst(&mut manifest, 0, &[(b"key", Some(b"new"))]);
    let tables = vec![new, old];
    let result = compaction.compact(&mut manifest, &tables, 0, &filter_size).unwrap();
    assert_eq!(manifest.level_count(1), 1);
    let file = &result.new_files[0];
    assert_eq!(file.name, manifest.level(1)[0].file_name);
    let sst = SSTableReader::open(file.name.clone(), file.data.clone()).unwrap();
    let entries = sst.iter().unwrap();
    assert_eq!(entries.len(), 1);
    assert_eq!(entries[0].value.as_deref(), Some(b"new".as_slice()));
}

#[test]
fn tombstones_go_at_the_deepest_level() {
    let mut manifest = Manifest::new(2);
    let compaction = LeveledCompaction::new(CompactionConfig::default());
    let old = write_test_sst(&mut manifest, 0, &[(b"a", Some(b"1")), (b"b", Some(b"2"))]);
    let new = write_test_sst(&mut manifest, 0, &[(b"a", None)]);
    let result = compaction.compact(&mut manifest, &vec![new, old], 0, &filter_size).unwrap();
    let file = &result.new_files[0];
    let sst = SSTableReader::open(file.name.clone(), file.data.clone()).unwrap();
    assert_eq!(sst.get(b"a").unwrap(), None);
    assert_eq!(sst.get(b"b").unwrap(), Some(Some(b"2".to_vec())));
    assert_eq!(result.removed_files.len(), 2);
}

#[test]
fn new_manifest() {
    let m = Manifest::new(7);
    assert_eq!(m.num_levels(), 7);
    assert_eq!(m.next_sst_id, 0);
    for i in 0..7 {
        assert_eq!(m.level_count(i), 0);
    }
}

#[test]
fn add_and_remove() {
    let mut m = Manifest::new(3);
    let (id, name) = m.next_sst_filename();
    m.add_sstable(SSTableEntry {
        id,
        level: 0,
        file_name: name,
        min_key: b"a".to_vec(),
        max_key: b"z".to_vec(),
        entry_count: 100,
        file_size: 4096,
    });
    assert_eq!(m.level_count(0), 1);
    m.remove_sstables(&[id]);
    assert_eq!(m.level_count(0), 0);
}

#[test]
fn table_files_are_named_by_number() {
    let mut m = Manifest::new(1);
    assert_eq!(m.next_sst_filename(), (0, "00000000.sst".to_string()));
    assert_eq!(m.next_sst_filename(), (1, "00000001.sst".to_string()));
    assert_eq!(m.next_sst_id, 2);
}

#[test]
fn mod_basic_put_get() {
    let mut mt = MemTable::new(1024);
    mt.put(b"key1".to_vec(), b"val1".to_vec());
    mt.put(b"key2".to_vec(), b"val2".to_vec());
    assert_eq!(mt.get(b"key1"), Some(Some(b"val1".as_slice())));
    assert_eq!(mt.get(b"key2"), Some(Some(b"val2".as_slice())));
    assert_eq!(mt.get(b"key3"), None);
}

#[test]
fn overwrite() {
    let mut mt = MemTable::new(1024);
    mt.put(b"key".to_vec(), b"old".to_vec());
    mt.put(b"key".to_vec(), b"new".to_vec());
    assert_eq!(mt.get(b"key"), Some(Some(b"new".as_slice())));
    assert_eq!(mt.len(), 1);
}

#[test]
fn delete_tombstone() {
    let mut mt = MemTable::new(1024);
    mt.put(b"key".to_vec(), b"val".to_vec());
    mt.delete(b"key".to_vec());
    assert_eq!(mt.get(b"key"), Some(None));
    assert_eq!(mt.get(b"other"), None);
}

#[test]
fn mod_delete_nonexistent() {
    let mut mt = MemTable::new(1024);
    mt.delete(b"ghost".to_vec());
    assert_eq!(mt.get(b"ghost"), Some(None));
    assert_eq!(mt.len(), 1);
}

#[test]
fn sorted_iteration() {
    let mut mt = MemTable::new(1024);
    mt.put(b"c".to_vec(), b"3".to_vec());
    mt.put(b"a".to_vec(), b"1".to_vec());
    mt.put(b"b".to_vec(), b"2".to_vec());
    let keys: Vec<&[u8]> = mt.iter().into_iter().map(|(k, _)| k).collect();
    assert_eq!(keys, vec![b"a".as_slice(), b"b", b"c"]);
}

#[test]
fn mod_scan_range() {
    let mut mt = MemTable::new(1024);
    for i in 0u8..10 {
        mt.put(vec![i], vec![i * 10]);
    }
    let results: Vec<(u8, u8)> =
        mt.scan(&[3], &[7]).into_iter().map(|(k, v)| (k[0], v.unwrap()[0])).collect();
    assert_eq!(results, vec![(3, 30), (4, 40), (5, 50), (6, 60)]);
}

#[test]
fn is_full() {
    let mut mt = MemTable::new(10);
    assert!(!mt.is_full());
    mt.put(b"12345".to_vec(), b"67890".to_vec());
    assert!(mt.is_full());
}

#[test]
fn size_tracking_with_overwrites() {
    let mut mt = MemTable::new(1024);
    mt.put(b"key".to_vec(), b"short".to_vec());
    let size1 = mt.size_bytes();
    mt.put(b"key".to_vec(), b"a longer value".to_vec());
    let size2 = mt.size_bytes();
    assert!(size2 > size1);
}

#[test]
fn iter_includes_tombstones() {
    let mut mt = MemTable::new(1024);
    mt.put(b"a".to_vec(), b"1".to_vec());
    mt.put(b"b".to_vec(), b"2".to_vec());
    mt.delete(b"a".to_vec());
    let entries: Vec<_> = mt.iter();
    assert_eq!(entries.len(), 2);
    assert_eq!(entries[0], (b"a".as_slice(), None));
    assert_eq!(entries[1], (b"b".as_slice(), Some(b"2".as_slice())));
}

#[test]
fn lsm_basic_put_get() {
    let mut lsm = Disk::new().open();
    lsm.put(b"hello", b"world").unwrap();
    assert_eq!(lsm.get(b"hello").unwrap(), Some(b"world".to_vec()));
    assert_eq!(lsm.get(b"missing").unwrap(), None);
}

#[test]
fn delete() {
    let mut lsm = Disk::new().open();
    lsm.put(b"key", b"val").unwrap();
    assert_eq!(lsm.get(b"key").unwrap(), Some(b"val".to_vec()));
    lsm.delete(b"key").unwrap();
    assert_eq!(lsm.get(b"key").unwrap(), None);
}

#[test]
fn lsm_scan_range() {
    let mut lsm = Disk::new().open();
    for i in 0u8..10 {
        lsm.put(&[i], &[i * 10]).unwrap();
    }
    let results = lsm.scan(&[3], &[7]).unwrap();
    assert_eq!(results.len(), 4);
    assert_eq!(results[0], (vec![3], vec![30]));
    assert_eq!(results[3], (vec![6], vec![60]));
}

#[test]
fn survives_flush() {
    let mut lsm = Disk::new().open();
    for i in 0..100u32 {
        let key = format!("key-{:04}", i);
        let val = format!("val-{:04}", i);
        lsm.put(key.as_bytes(), val.as_bytes()).unwrap();
    }
    for i in 0..100u32 {
        let key = format!("key-{:04}", i);
        let val = format!("val-{:04}", i);
        assert_eq!(lsm.get(key.as_bytes()).unwrap(), Some(val.into_bytes()), "missing key: {}", key);
    }
}

#[test]
fn crash_recovery_via_wal() {
    let mut disk = Disk::new();
    {
        let mut lsm = disk.open();
        lsm.put(b"persistent", b"data").unwrap();
        disk.carry_out(lsm.take_actions());
    }
    {
        let lsm = disk.open();
        assert_eq!(lsm.get(b"persistent").unwrap(), Some(b"data".to_vec()));
    }
}

#[test]
fn overwrite_across_flush() {
    let mut lsm = Disk::new().open();
    lsm.put(b"key", b"v1").unwrap();
    lsm.flush().unwrap();
    lsm.put(b"key", b"v2").unwrap();
    assert_eq!(lsm.get(b"key").unwrap(), Some(b"v2".to_vec()));
}

#[test]
fn delete_across_flush() {
    let mut lsm = Disk::new().open();
    lsm.put(b"key", b"val").unwrap();
    lsm.flush().unwrap();
    lsm.delete(b"key").unwrap();
    assert_eq!(lsm.get(b"key").unwrap(), None);
}

#[test]
fn restart_after_every_write_keeps_everything() {
    let mut disk = Disk::new();
    let mut expected: BTreeMap<Vec<u8>, Vec<u8>> = BTreeMap::new();
    for i in 0..300u32 {
        let mut lsm = disk.open();
        let key = format!("key-{:03}", (i * 37) % 50).into_bytes();
        if i % 7 == 3 {
            lsm.delete(&key).unwrap();
            expected.remove(&key);
        } else {
            let value = format!("value-{}", i).into_bytes();
            lsm.put(&key, &value).unwrap();
            expected.insert(key, value);
        }
        disk.carry_out(lsm.take_actions());
    }
    let lsm = disk.open();
    let rows = lsm.scan(b"", b"z").unwrap();
    let all: Vec<(Vec<u8>, Vec<u8>)> = expected.clone().into_iter().collect();
    assert_eq!(rows, all);
    for i in 0..50 {
        let key = format!("key-{:03}", i).into_bytes();
        assert_eq!(lsm.get(&key).unwrap(), expected.get(&key).cloned());
    }
    assert!(disk.files.len() > 0);
}

#[test]
fn a_full_memory_table_is_flushed() {
    let config = LsmConfig { memtable_size_limit: 4, block_size: usize::MAX, ..Default::default() };
    let mut tree =
        LsmTree::open(config, None, "wal.log".to_string(), vec![], vec![], filter_size as Sizing)
            .unwrap();
    tree.put(b"a", b"1").unwrap();
    assert_eq!(tree.take_actions().len(), 1);
    tree.put(b"b", b"2").unwrap();
    assert_eq!(tree.take_actions().len(), 4);
    assert_eq!(tree.get(b"a").unwrap(), Some(b"1".to_vec()));
    assert!(tree.upper_bound() > b"b".to_vec());
}

/// The disk after the first `n` of the actions.
fn cut_off(base: &Disk, actions: Vec<DiskAction>, n: usize) -> Disk {
    let mut disk = Disk {
        files: base.files.clone(),
        wal: base.wal.clone(),
        manifest: base.manifest.as_ref().map(|m| m.copied()),
    };
    disk.carry_out(actions.into_iter().take(n).collect());
    disk
}

fn pending_flush() -> (Disk, Vec<DiskAction>) {
    let mut disk = Disk::new();
    let mut lsm = disk.open();
    lsm.put(b"a", b"1").unwrap();
    lsm.put(b"b", b"2").unwrap();
    lsm.delete(b"a").unwrap();
    disk.carry_out(lsm.take_actions());
    lsm.flush().unwrap();
    (disk, lsm.take_actions())
}

#[test]
fn a_flush_can_be_cut_off_anywhere() {
    assert_eq!(pending_flush().1.len(), 3);
    for n in 0..=3 {
        let (disk, actions) = pending_flush();
        let lsm = cut_off(&disk, actions, n).open();
        assert_eq!(lsm.get(b"a").unwrap(), None);
        assert_eq!(lsm.get(b"b").unwrap(), Some(b"2".to_vec()));
        assert_eq!(lsm.scan(b"", b"z").unwrap(), vec![(b"b".to_vec(), b"2".to_vec())]);
    }
}

fn pending_compaction() -> (Disk, Vec<DiskAction>) {
    let mut disk = Disk::new();
    let mut lsm = disk.open();
    for i in 0..4u8 {
        lsm.put(&[b'k', i], &[i]).unwrap();
        lsm.flush().unwrap();
    }
    disk.carry_out(lsm.take_actions());
    lsm.maybe_compact().unwrap();
    (disk, lsm.take_actions())
}

#[test]
fn a_compaction_keeps_everything_at_its_ends() {
    let count = pending_compaction().1.len();
    assert_eq!(count, 6);
    for n in [0, 1, count] {
        let (disk, actions) = pending_compaction();
        let lsm = cut_off(&disk, actions, n).open();
        for i in 0..4u8 {
            assert_eq!(lsm.get(&[b'k', i]).unwrap(), Some(vec![i]));
        }
    }
}
