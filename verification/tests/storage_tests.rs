//! The storage engine from the outside: point reads and writes, range
//! scans, batch writes and compaction.

use caskraft::bit_cask::{build_dir_from_scans, new_bit_cask};
use caskraft::segment::ScanRecord;
use caskraft::storage::KV;
use std::time::Instant;

#[test]
fn insert_retrieve_test() {
    let storage = new_bit_cask("test-data");
    assert!(storage.is_ok());
    let mut storage = storage.unwrap();
    let put_result = storage.put(123, "my-value".to_string());
    assert!(put_result.is_ok());
    let get_result = storage.get(123);
    assert!(get_result.is_ok());
    assert_eq!("my-value", get_result.unwrap());
}

#[test]
fn bulk_insert_retrieve_test() {
    let storage = new_bit_cask("test-data");
    assert!(storage.is_ok());
    let mut storage = storage.unwrap();
    let put_result = storage.batch_put(vec![
        KV {
            key: 456,
            value: "456 my value".to_string(),
        },
        KV {
            key: 789,
            value: "789 my value".to_string(),
        },
        KV {
            key: 1111,
            value: "1111 my value".to_string(),
        },
    ]);
    assert!(put_result.is_ok());
    let get_result = storage.range(400, 900);
    assert!(get_result.is_ok());
    let r = get_result.unwrap();
    assert_eq!(2, r.len());
    let f = r.first().unwrap();
    assert_eq!(456, f.key);
    assert_eq!("456 my value", f.value);
    let s = r.last().unwrap();
    assert_eq!(789, s.key);
    assert_eq!("789 my value", s.value);
}

#[test]
fn timing_bulk_insert() {
    let record_count = 1_000_000;
    let mut records = Vec::with_capacity(record_count);
    for i in 1..record_count {
        let v = std::time::SystemTime::now()
            .duration_since(std::time::UNIX_EPOCH)
            .unwrap()
            .as_nanos()
            .to_string();
        records.push(KV { key: i, value: v })
    }

    let now = Instant::now();
    let storage = new_bit_cask("test-data");
    assert!(storage.is_ok());
    let mut storage = storage.unwrap();
    let put_result = storage.batch_put(records);

    let elapsed = now.elapsed();
    println!(
        "Inserted {} records. Elapsed: {:.2?}",
        record_count, elapsed
    );
    assert!(put_result.is_ok());
}

#[test]
fn timing_single_insert() {
    let record_count = 1_000_000;
    let now = Instant::now();
    let storage = new_bit_cask("test-data");
    assert!(storage.is_ok());
    let mut storage = storage.unwrap();

    for i in 1..record_count {
        let _ = storage.put(i, "my-value".to_string());
    }

    let elapsed = now.elapsed();
    println!(
        "Inserted {} records. Elapsed: {:.2?}",
        record_count, elapsed
    );
}

#[test]
fn fresh_engine_reads_and_range() {
    let mut storage = new_bit_cask("test-data").unwrap();
    storage.put(1, "a".to_string()).unwrap();
    storage.put(2, "b".to_string()).unwrap();
    assert_eq!("a", storage.get(1).unwrap());
    assert_eq!("b", storage.get(2).unwrap());
    assert_eq!("", storage.get(3).unwrap());
    let r = storage.range(0, 10).unwrap();
    assert_eq!(2, r.len());
    assert_eq!(1, r[0].key);
    assert_eq!("a", r[0].value);
    assert_eq!(2, r[1].key);
    assert_eq!("b", r[1].value);
}

#[test]
fn overwrite_and_delete() {
    let mut storage = new_bit_cask("test-data").unwrap();
    storage.put(1, "a".to_string()).unwrap();
    storage.put(1, "b".to_string()).unwrap();
    assert_eq!("b", storage.get(1).unwrap());
    storage.delete(1).unwrap();
    assert_eq!("", storage.get(1).unwrap());
}

#[test]
fn compaction_preserves_contents() {
    let mut storage = new_bit_cask("test-data").unwrap();
    for i in 1..1000usize {
        let v = format!("value-{}-{}", i, i * 31 % 257);
        storage.put(i, v).unwrap();
    }
    // overwrite some keys so that garbage exists
    for i in 1..500usize {
        let v = format!("fresh-{}", i);
        storage.put(i, v).unwrap();
    }
    storage.compact_files().unwrap();
    for i in 1..1000usize {
        let expected = if i < 500 {
            format!("fresh-{}", i)
        } else {
            format!("value-{}-{}", i, i * 31 % 257)
        };
        assert_eq!(expected, storage.get(i).unwrap());
    }
    // after the delete step at most the compaction output remains sealed
    assert!(storage.sealed.len() <= 1);
    // compaction again changes nothing
    storage.compact_files().unwrap();
    for i in 1..1000usize {
        let expected = if i < 500 {
            format!("fresh-{}", i)
        } else {
            format!("value-{}-{}", i, i * 31 % 257)
        };
        assert_eq!(expected, storage.get(i).unwrap());
    }
}

#[test]
fn batch_put_later_duplicate_wins() {
    let mut storage = new_bit_cask("test-data").unwrap();
    storage
        .batch_put(vec![
            KV {
                key: 7,
                value: "first".to_string(),
            },
            KV {
                key: 7,
                value: "second".to_string(),
            },
        ])
        .unwrap();
    assert_eq!("second", storage.get(7).unwrap());
}

#[test]
fn scan_rebuild_tie_breaks_to_last_writer() {
    // two records of one key with equal timestamps: the record scanned
    // later is the later writer's and must win
    let scans = vec![
        (
            10u64,
            vec![ScanRecord {
                ts: 5,
                key: 1,
                offset: 0,
                vlen: 3,
            }],
        ),
        (
            11u64,
            vec![ScanRecord {
                ts: 5,
                key: 1,
                offset: 64,
                vlen: 4,
            }],
        ),
    ];
    let dir = build_dir_from_scans(&scans);
    assert_eq!(1, dir.entries.len());
    assert_eq!(11, dir.entries[0].file_tag);
    assert_eq!(64, dir.entries[0].offset);
    assert_eq!(4, dir.entries[0].length);
}

#[test]
fn empty_range_and_bounds() {
    let mut storage = new_bit_cask("test-data").unwrap();
    storage.put(5, "five".to_string()).unwrap();
    assert_eq!(0, storage.range(6, 10).unwrap().len());
    assert_eq!(1, storage.range(5, 5).unwrap().len());
    assert_eq!(0, storage.range(0, 4).unwrap().len());
}
