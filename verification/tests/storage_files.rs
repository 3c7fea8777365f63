//! Blocks, footers, Bloom filters, write-ahead logs and table files.

use raft::error::Error;
use raft::storage::block::{BlockBuilder, BlockReader};
use raft::storage::bloom::{BloomFilter, BloomSize};
use raft::storage::footer::{Footer, FOOTER_SIZE};
use raft::storage::sstable::{SSTableReader, SSTableWriter};
use raft::storage::wal::{ByteCursor, WalReader, WalRecord, WalWriter, HEADER_SIZE};
use raft::storage::wal_op::WalOp;
use std::collections::hash_map::DefaultHasher;
use std::hash::{Hash, Hasher};

/// The size of a filter for a number of items and a rate of false positives.
fn filter_size(expected_items: usize, rate: f64) -> BloomSize {
    let items = expected_items.max(1) as f64;
    let fp = rate.clamp(0.0001, 0.5);
    let num_bits = (-items * fp.ln() / (2.0_f64.ln().powi(2))).ceil() as usize;
    let num_bits = num_bits.max(8);
    let num_hashes = ((num_bits as f64 / items) * 2.0_f64.ln()).round() as u32;
    BloomSize { num_bits, num_hashes: num_hashes.max(1) }
}

fn filter(expected_items: usize, rate: f64) -> BloomFilter {
    BloomFilter::with_size(filter_size(expected_items, rate))
}

fn table(block_size: usize, entries: &[(&[u8], Option<&[u8]>)]) -> Vec<u8> {
    let mut writer =
        SSTableWriter::new("test.sst".to_string(), block_size, filter_size(entries.len(), 0.01));
    for (key, value) in entries {
        writer.add(key, *value);
    }
    let (info, data) = writer.finish();
    assert_eq!(info.entry_count, entries.len());
    assert_eq!(info.file_size, data.len() as u64);
    assert_eq!(info.path, "test.sst");
    data
}

fn open(data: Vec<u8>) -> SSTableReader {
    SSTableReader::open("test.sst".to_string(), data).unwrap()
}

fn message(e: Error) -> String {
    e.message()
}

#[test]
fn inserted_keys_found() {
    let mut bf = filter(100, 0.01);
    for i in 0..100 {
        bf.insert(format!("key-{}", i).as_bytes());
    }
    for i in 0..100 {
        assert!(bf.may_contain(format!("key-{}", i).as_bytes()), "key-{} should be found", i);
    }
}

#[test]
fn false_positive_rate() {
    let n = 10_000;
    let target_fpr = 0.01;
    let mut bf = filter(n, target_fpr);
    for i in 0..n {
        bf.insert(format!("inserted-{}", i).as_bytes());
    }
    let test_count = 100_000;
    let false_positives = (0..test_count)
        .filter(|i| bf.may_contain(format!("not-inserted-{}", i).as_bytes()))
        .count();
    let actual_fpr = false_positives as f64 / test_count as f64;
    assert!(actual_fpr < target_fpr * 3.0, "FPR {} exceeds 3x target {}", actual_fpr, target_fpr);
}

#[test]
fn empty_filter_returns_false() {
    let bf = filter(100, 0.01);
    assert!(!bf.may_contain(b"anything"));
}

#[test]
fn serialization_roundtrip() {
    let mut bf = filter(100, 0.01);
    for i in 0..50 {
        bf.insert(format!("key-{}", i).as_bytes());
    }
    let bytes = bf.as_bytes().to_vec();
    let num_hashes = bf.num_hashes();
    let num_bits = bf.num_bits();
    let restored = BloomFilter::from_raw(bytes, num_hashes, num_bits);
    for i in 0..50 {
        assert!(restored.may_contain(format!("key-{}", i).as_bytes()));
    }
}

#[test]
fn small_filter() {
    let mut bf = filter(1, 0.01);
    bf.insert(b"hello");
    assert!(bf.may_contain(b"hello"));
}

#[test]
fn filter_sets_the_expected_bits() {
    let mut bf = BloomFilter::with_size(BloomSize { num_bits: 64, num_hashes: 3 });
    let (h1, h2) = BloomFilter::hash_pair(b"key");
    bf.insert(b"key");
    let mut expected = [0u8; 8];
    for i in 0..3u64 {
        let at = (h1.wrapping_add(i.wrapping_mul(h2)) % 64) as usize;
        expected[at / 8] |= 1 << (at % 8);
    }
    assert_eq!(bf.as_bytes(), &expected);
    assert_eq!(bf.num_bits(), 64);
    assert_eq!(bf.num_hashes(), 3);
}

#[test]
fn keys_are_hashed_as_slices_are() {
    for key in [b"".as_slice(), b"k", b"a longer key than eight bytes"] {
        let mut first = DefaultHasher::new();
        key.hash(&mut first);
        let mut second = DefaultHasher::new();
        key.hash(&mut second);
        0xDEAD_BEEFu64.hash(&mut second);
        assert_eq!(BloomFilter::hash_pair(key), (first.finish(), second.finish()));
    }
}

#[test]
fn block_roundtrip() {
    let mut builder = BlockBuilder::new();
    builder.add(b"apple", Some(b"red"));
    builder.add(b"banana", Some(b"yellow"));
    builder.add(b"cherry", None);
    builder.add(b"date", Some(b"brown"));
    let data = builder.build();
    let entries = BlockReader::read_entries(&data).unwrap();
    assert_eq!(entries.len(), 4);
    assert_eq!(entries[0].key, b"apple");
    assert_eq!(entries[0].value.as_deref(), Some(b"red".as_slice()));
    assert_eq!(entries[2].key, b"cherry");
    assert!(entries[2].value.is_none());
}

#[test]
fn binary_search() {
    let mut builder = BlockBuilder::new();
    for i in 0..100 {
        builder.add(format!("key-{:04}", i).as_bytes(), Some(b"val"));
    }
    let data = builder.build();
    let entries = BlockReader::read_entries(&data).unwrap();
    assert_eq!(BlockReader::search(&entries, b"key-0050"), Some(50));
    assert!(BlockReader::search(&entries, b"nonexistent").is_none());
}

#[test]
fn empty_block() {
    let builder = BlockBuilder::new();
    let data = builder.build();
    let entries = BlockReader::read_entries(&data).unwrap();
    assert!(entries.is_empty());
}

#[test]
fn damaged_blocks_are_refused() {
    let why = |data: &[u8]| message(BlockReader::read_entries(data).unwrap_err());
    assert_eq!(why(&[0, 0]), "corruption: block too small");
    let mut builder = BlockBuilder::new();
    builder.add(b"k", Some(b"v"));
    let data = builder.build();
    assert!(BlockReader::read_entries(&data).is_ok());
    let cut: Vec<u8> = [&data[..3], &1u32.to_le_bytes()].concat();
    assert_eq!(why(&cut), "corruption: block entry truncated");
}

#[test]
fn footer_roundtrip() {
    let footer = Footer {
        index_offset: 1024,
        index_size: 256,
        bloom_offset: 1280,
        bloom_size: 128,
        bloom_num_hashes: 7,
    };
    let encoded = footer.encode();
    let decoded = Footer::decode(&encoded).unwrap();
    assert_eq!(decoded.index_offset, 1024);
    assert_eq!(decoded.index_size, 256);
    assert_eq!(decoded.bloom_offset, 1280);
    assert_eq!(decoded.bloom_size, 128);
    assert_eq!(decoded.bloom_num_hashes, 7);
}

#[test]
fn bad_magic() {
    let mut buf = [0u8; FOOTER_SIZE];
    buf[36..40].copy_from_slice(&0xDEAD_BEEFu32.to_le_bytes());
    assert!(Footer::decode(&buf).is_err());
}

#[test]
fn write_and_read() {
    let data = table(
        256,
        &[
            (b"apple", Some(b"red")),
            (b"banana", Some(b"yellow")),
            (b"cherry", Some(b"dark red")),
        ],
    );
    let reader = open(data);
    assert_eq!(reader.get(b"apple").unwrap(), Some(Some(b"red".to_vec())));
    assert_eq!(reader.get(b"banana").unwrap(), Some(Some(b"yellow".to_vec())));
    assert_eq!(reader.get(b"nonexistent").unwrap(), None);
    assert_eq!(reader.min_key(), Some(b"apple".as_slice()));
    assert_eq!(reader.path(), "test.sst");
}

#[test]
fn tombstone() {
    let data = table(256, &[(b"alive", Some(b"yes")), (b"dead", None)]);
    let reader = open(data);
    assert_eq!(reader.get(b"alive").unwrap(), Some(Some(b"yes".to_vec())));
    assert_eq!(reader.get(b"dead").unwrap(), Some(None));
}

#[test]
fn many_entries_across_blocks() {
    let n = 1000;
    let mut writer = SSTableWriter::new("large.sst".to_string(), 256, filter_size(n, 0.01));
    for i in 0..n {
        let key = format!("key-{:06}", i);
        let val = format!("value-{:06}", i);
        writer.add(key.as_bytes(), Some(val.as_bytes()));
    }
    let (_, data) = writer.finish();
    let reader = open(data);
    for i in [0, 100, 500, 999] {
        let key = format!("key-{:06}", i);
        let expected_val = format!("value-{:06}", i);
        assert_eq!(reader.get(key.as_bytes()).unwrap(), Some(Some(expected_val.into_bytes())));
    }
    assert_eq!(reader.get(b"key-999999").unwrap(), None);
}

#[test]
fn iter_sorted() {
    let data = table(256, &[(b"a", Some(b"1")), (b"b", Some(b"2")), (b"c", Some(b"3"))]);
    let reader = open(data);
    let entries = reader.iter().unwrap();
    assert_eq!(entries.len(), 3);
    assert_eq!(entries[0].key, b"a");
    assert_eq!(entries[2].key, b"c");
}

#[test]
fn reader_scan_range() {
    let mut writer = SSTableWriter::new("scan.sst".to_string(), 4096, filter_size(10, 0.01));
    for i in 0u8..10 {
        writer.add(&[i], Some(&[i * 10]));
    }
    let (_, data) = writer.finish();
    let reader = open(data);
    let results = reader.scan(&[3], &[7]).unwrap();
    assert_eq!(results.len(), 4);
    assert_eq!(results[0].key, vec![3]);
    assert_eq!(results[3].key, vec![6]);
}

#[test]
fn damaged_tables_are_refused() {
    assert!(SSTableReader::open("x".to_string(), vec![0; 10]).is_err());
    let mut data = table(256, &[(b"a", Some(b"1"))]);
    let last = data.len() - 1;
    data[last] ^= 0xFF;
    assert!(matches!(SSTableReader::open("x".to_string(), data), Err(Error::Corruption(_))));
}

fn log_of(records: &[&[u8]]) -> Vec<u8> {
    let mut writer = WalWriter::open("test.wal".to_string(), 0);
    for r in records {
        writer.append(r);
    }
    writer.sync()
}

#[test]
fn recover_from_truncated_tail() {
    let mut writer = WalWriter::open("test.wal".to_string(), 0);
    for i in 0..5 {
        writer.append(format!("record-{}", i).as_bytes());
    }
    let mut bytes = writer.sync();
    bytes.extend_from_slice(&[0xDE, 0xAD, 0xBE, 0xEF, 0x00, 0x00, 0x00, 0x05, 0x01, 0x02]);
    let records = WalReader::open(bytes).read_all().unwrap();
    assert_eq!(records.len(), 5);
    for (i, r) in records.iter().enumerate() {
        assert_eq!(r.data, format!("record-{}", i).as_bytes());
    }
}

#[test]
fn strict_mode_fails_on_corruption() {
    let mut bytes = log_of(&[b"valid"]);
    bytes.extend_from_slice(&[0xFF; 20]);
    let result = WalReader::open(bytes).read_all_strict();
    assert!(result.is_err());
}

#[test]
fn empty_file() {
    let records = WalReader::open(vec![]).read_all().unwrap();
    assert!(records.is_empty());
}

#[test]
fn record_roundtrip() {
    let record = WalRecord::new(b"hello world".to_vec());
    let mut buf = Vec::new();
    record.encode(&mut buf);
    let mut cursor = ByteCursor::new(buf);
    let decoded = WalRecord::decode(&mut cursor).unwrap().unwrap();
    assert_eq!(record, decoded);
}

#[test]
fn record_layout() {
    let mut buf = Vec::new();
    let written = WalRecord::new(b"123456789".to_vec()).encode(&mut buf);
    assert_eq!(written, 17);
    assert_eq!(buf.len(), 17);
    let mut summed = 9u32.to_le_bytes().to_vec();
    summed.extend_from_slice(b"123456789");
    assert_eq!(&buf[0..4], crc32fast::hash(&summed).to_le_bytes().as_slice());
    assert_eq!(&buf[4..8], 9u32.to_le_bytes().as_slice());
    assert_eq!(&buf[8..], b"123456789");
}

#[test]
fn empty_data() {
    let record = WalRecord::new(vec![]);
    let mut buf = Vec::new();
    record.encode(&mut buf);
    let mut cursor = ByteCursor::new(buf);
    let decoded = WalRecord::decode(&mut cursor).unwrap().unwrap();
    assert_eq!(record, decoded);
}

#[test]
fn eof_returns_none() {
    let mut cursor = ByteCursor::new(Vec::<u8>::new());
    assert!(WalRecord::decode(&mut cursor).unwrap().is_none());
}

#[test]
fn partial_header_returns_none() {
    let mut cursor = ByteCursor::new(vec![0u8; 3]);
    assert!(WalRecord::decode(&mut cursor).unwrap().is_none());
}

#[test]
fn crc_corruption_detected() {
    let record = WalRecord::new(b"data".to_vec());
    let mut buf = Vec::new();
    record.encode(&mut buf);
    let last = buf.len() - 1;
    buf[last] ^= 0xFF;
    let mut cursor = ByteCursor::new(buf);
    let result = WalRecord::decode(&mut cursor);
    assert!(matches!(result, Err(Error::Corruption(_))));
}

#[test]
fn truncated_data_detected() {
    let record = WalRecord::new(b"hello".to_vec());
    let mut buf = Vec::new();
    record.encode(&mut buf);
    buf.truncate(HEADER_SIZE + 2);
    let mut cursor = ByteCursor::new(buf);
    let result = WalRecord::decode(&mut cursor);
    assert!(matches!(result, Err(Error::Corruption(_))));
}

#[test]
fn multiple_records() {
    let records: Vec<WalRecord> =
        (0..100).map(|i| WalRecord::new(format!("record-{}", i).into_bytes())).collect();
    let mut buf = Vec::new();
    for r in &records {
        r.encode(&mut buf);
    }
    let mut cursor = ByteCursor::new(buf);
    for expected in &records {
        let decoded = WalRecord::decode(&mut cursor).unwrap().unwrap();
        assert_eq!(expected, &decoded);
    }
    assert!(WalRecord::decode(&mut cursor).unwrap().is_none());
}

#[test]
fn write_and_read_back() {
    let bytes = log_of(&[b"first", b"second", b"third"]);
    let records = WalReader::open(bytes).read_all().unwrap();
    assert_eq!(records.len(), 3);
    assert_eq!(records[0].data, b"first");
    assert_eq!(records[1].data, b"second");
    assert_eq!(records[2].data, b"third");
}

#[test]
fn append_to_existing() {
    let mut bytes = log_of(&[b"one"]);
    let mut writer = WalWriter::open("test.wal".to_string(), bytes.len() as u64);
    writer.append(b"two");
    bytes.extend_from_slice(&writer.sync());
    assert_eq!(writer.bytes_written(), bytes.len() as u64);
    let records = WalReader::open(bytes).read_all().unwrap();
    assert_eq!(records.len(), 2);
    assert_eq!(records[0].data, b"one");
    assert_eq!(records[1].data, b"two");
}

#[test]
fn logged_operations_round_trip() {
    let put = WalOp::Put { key: b"k".to_vec(), value: b"v".to_vec() };
    match WalOp::decode(&put.encode()).unwrap() {
        WalOp::Put { key, value } => {
            assert_eq!(key, b"k");
            assert_eq!(value, b"v");
        }
        WalOp::Delete { .. } => panic!("expected a write"),
    }
    let delete = WalOp::Delete { key: b"gone".to_vec() };
    match WalOp::decode(&delete.encode()).unwrap() {
        WalOp::Delete { key } => assert_eq!(key, b"gone"),
        WalOp::Put { .. } => panic!("expected a deletion"),
    }
    assert!(WalOp::decode(&[]).is_err());
    assert!(WalOp::decode(&[9, 0, 0, 0, 0]).is_err());
}

#[test]
fn a_damaged_record_is_consumed() {
    let mut buf = Vec::new();
    WalRecord::new(b"abc".to_vec()).encode(&mut buf);
    let whole = buf.len();
    let mut damaged = buf.clone();
    damaged[whole - 1] ^= 1;
    damaged.push(9);
    let mut cursor = ByteCursor::new(damaged);
    assert!(WalRecord::decode(&mut cursor).is_err());
    assert_eq!(cursor.position, whole);
    assert!(WalRecord::decode(&mut cursor).unwrap().is_none());
    assert_eq!(cursor.position, whole + 1);
    let mut long = buf.clone();
    long[7] = 0xFF;
    let mut cursor = ByteCursor::new(long);
    assert!(WalRecord::decode(&mut cursor).is_err());
    assert_eq!(cursor.position, HEADER_SIZE);
    buf.pop();
    let mut cursor = ByteCursor::new(buf);
    assert!(WalRecord::decode(&mut cursor).is_err());
    assert_eq!(cursor.position, whole - 1);
}

#[test]
fn a_filter_without_bits_is_refused_at_lookup() {
    let mut block = BlockBuilder::new();
    block.add(b"k", Some(b"v"));
    let size = block.estimated_size();
    let data = block.build();
    assert_eq!(data.len(), size);
    let mut file = data.clone();
    file.extend_from_slice(&1u32.to_le_bytes());
    file.extend_from_slice(&1u32.to_le_bytes());
    file.extend_from_slice(b"k");
    file.extend_from_slice(&0u64.to_le_bytes());
    file.extend_from_slice(&(data.len() as u64).to_le_bytes());
    let index_size = file.len() - data.len();
    file.extend_from_slice(&0u64.to_le_bytes());
    let footer = Footer {
        index_offset: data.len() as u64,
        index_size: index_size as u64,
        bloom_offset: (data.len() + index_size) as u64,
        bloom_size: 8,
        bloom_num_hashes: 7,
    };
    file.extend_from_slice(&footer.encode());
    let table = SSTableReader::open("t.sst".to_string(), file).unwrap();
    assert_eq!(table.iter().unwrap().len(), 1);
    assert!(matches!(table.get(b"k"), Err(Error::Corruption(_))));
}
