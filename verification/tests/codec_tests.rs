//! The codecs from the outside: segment records, hint records, applied-log
//! records and the textual command grammar.

use caskraft::command::LogEntry;
use caskraft::error::KvError;
use caskraft::hint::{decode_hint_records, encode_hint_records, HintRecord};
use caskraft::logfile::{decode_log_records, encode_log_records, get_log_filename};
use caskraft::segment::{encode_records, scan_records, ScanRecord, SegmentRecord};

#[test]
fn segment_roundtrip_with_offsets() {
    let recs = vec![
        SegmentRecord {
            ts: 7,
            key: 1,
            value: b"alpha".to_vec(),
        },
        SegmentRecord {
            ts: 8,
            key: 2,
            value: Vec::new(),
        },
        SegmentRecord {
            ts: 9,
            key: 3,
            value: vec![0u8; 300],
        },
    ];
    let bytes = encode_records(&recs);
    let found = scan_records(&bytes);
    assert_eq!(
        found,
        vec![
            ScanRecord {
                ts: 7,
                key: 1,
                offset: 0,
                vlen: 5
            },
            ScanRecord {
                ts: 8,
                key: 2,
                offset: 29,
                vlen: 0
            },
            ScanRecord {
                ts: 9,
                key: 3,
                offset: 53,
                vlen: 300
            },
        ]
    );
}

#[test]
fn segment_scan_stops_at_truncated_tail() {
    let recs = vec![SegmentRecord {
        ts: 1,
        key: 42,
        value: b"value".to_vec(),
    }];
    let mut bytes = encode_records(&recs);
    // a second record whose value bytes are cut off
    let more = encode_records(&vec![SegmentRecord {
        ts: 2,
        key: 43,
        value: b"next".to_vec(),
    }]);
    bytes.extend_from_slice(&more[..more.len() - 2]);
    let found = scan_records(&bytes);
    assert_eq!(1, found.len());
    assert_eq!(42, found[0].key);
}

#[test]
fn hint_roundtrip() {
    let recs = vec![
        HintRecord {
            ts: 5,
            vlen: 3,
            key: 9,
            filename: b"data-file123".to_vec(),
            offset: 77,
        },
        HintRecord {
            ts: 6,
            vlen: 0,
            key: 10,
            filename: Vec::new(),
            offset: 0,
        },
    ];
    let bytes = encode_hint_records(&recs);
    let back = decode_hint_records(&bytes);
    assert_eq!(2, back.len());
    assert_eq!(5, back[0].ts);
    assert_eq!(3, back[0].vlen);
    assert_eq!(9, back[0].key);
    assert_eq!(b"data-file123".to_vec(), back[0].filename);
    assert_eq!(77, back[0].offset);
    assert_eq!(10, back[1].key);
}

#[test]
fn logfile_roundtrip_and_truncation() {
    let recs = vec![
        (3u64, b"PUT:1.a".to_vec()),
        (4u64, b"DELETE:1".to_vec()),
    ];
    let bytes = encode_log_records(&recs);
    let back = decode_log_records(&bytes).unwrap();
    assert_eq!(recs, back);

    // a record whose entry bytes are cut off is an error
    let cut = bytes[..bytes.len() - 1].to_vec();
    assert_eq!(Err(KvError::InvalidData), decode_log_records(&cut));

    // a tail too short for a header just ends the file
    let short = bytes[..bytes.len() - recs[1].1.len() - 10].to_vec();
    let back = decode_log_records(&short).unwrap();
    assert_eq!(1, back.len());
}

#[test]
fn log_filename_carries_the_id() {
    assert_eq!("log/file-4000", get_log_filename(4000));
    assert_eq!("log/file-0", get_log_filename(0));
}

#[test]
fn command_roundtrip_put() {
    let le = LogEntry {
        term: 0,
        entry: String::new(),
        entry_idx: 0,
    };
    let text = le.format_command(
        "PUT",
        vec![caskraft::storage::KV {
            key: 12,
            value: "hello world".to_string(),
        }],
    );
    assert_eq!("PUT:12.hello world", text);
    let (cmd, kvs) = le.parse_command(&text).unwrap();
    assert_eq!("PUT", cmd);
    assert_eq!(1, kvs.len());
    assert_eq!(12, kvs[0].key);
    assert_eq!("hello world", kvs[0].value);
}

#[test]
fn command_roundtrip_batch_put() {
    let le = LogEntry {
        term: 0,
        entry: String::new(),
        entry_idx: 0,
    };
    let text = le.format_command(
        "BATCH PUT",
        vec![
            caskraft::storage::KV {
                key: 1,
                value: "a".to_string(),
            },
            caskraft::storage::KV {
                key: 2,
                value: "b c".to_string(),
            },
        ],
    );
    assert_eq!("BATCH PUT:1.a;2.b c", text);
    let (cmd, kvs) = le.parse_command(&text).unwrap();
    assert_eq!("BATCH PUT", cmd);
    assert_eq!(2, kvs.len());
    assert_eq!(1, kvs[0].key);
    assert_eq!("a", kvs[0].value);
    assert_eq!(2, kvs[1].key);
    assert_eq!("b c", kvs[1].value);
}

#[test]
fn command_roundtrip_delete() {
    let le = LogEntry {
        term: 0,
        entry: String::new(),
        entry_idx: 0,
    };
    let text = le.format_command(
        "DELETE",
        vec![caskraft::storage::KV {
            key: 99,
            value: String::new(),
        }],
    );
    assert_eq!("DELETE:99", text);
    let (cmd, kvs) = le.parse_command(&text).unwrap();
    assert_eq!("DELETE", cmd);
    assert_eq!(1, kvs.len());
    assert_eq!(99, kvs[0].key);
    assert_eq!("", kvs[0].value);
}

#[test]
fn command_parse_rejects_malformed_text() {
    let le = LogEntry {
        term: 0,
        entry: String::new(),
        entry_idx: 0,
    };
    assert_eq!(
        KvError::InvalidInput,
        le.parse_command("no separator at all").unwrap_err()
    );
    assert_eq!(
        KvError::InvalidInput,
        le.parse_command("DELETE:abc").unwrap_err()
    );
    assert_eq!(
        KvError::InvalidInput,
        le.parse_command("PUT:novalue").unwrap_err()
    );
    assert_eq!(
        KvError::InvalidInput,
        le.parse_command("PUT:x.y").unwrap_err()
    );
}

#[test]
fn timer_is_id_biased() {
    assert_eq!(5, caskraft::node::get_timer_reset(0));
    assert_eq!(5, caskraft::node::get_timer_reset(3000));
    assert_eq!(10, caskraft::node::get_timer_reset(4000));
    assert_eq!(20, caskraft::node::get_timer_reset(5000));
    assert_eq!(30, caskraft::node::get_timer_reset(6000));
}
