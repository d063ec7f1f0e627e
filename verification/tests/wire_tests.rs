//! The wire forms from the outside: log entries, the two requests, the
//! reply, and the HTTP text helpers.

use caskraft::command::LogEntry;
use caskraft::error::KvError;
use caskraft::http_text::{default_response, format_response, parse_kv_body, parse_path};
use caskraft::wire::{AppendEntriesRequest, NodeResponse, VoteRequest};

#[test]
fn log_entry_wire_roundtrip() {
    let e = LogEntry {
        term: 3,
        entry: "PUT:1.a".to_string(),
        entry_idx: 7,
    };
    let text = e.encode();
    assert_eq!("3|PUT:1.a|7", text);
    let back = LogEntry::decode(&text).unwrap();
    assert_eq!(3, back.term);
    assert_eq!("PUT:1.a", back.entry);
    assert_eq!(7, back.entry_idx);
}

#[test]
fn log_entry_lenient_numbers_strict_shape() {
    let back = LogEntry::decode("x|payload|y").unwrap();
    assert_eq!(0, back.term);
    assert_eq!("payload", back.entry);
    assert_eq!(0, back.entry_idx);
    assert_eq!(
        KvError::InvalidInput,
        LogEntry::decode("only|two").unwrap_err()
    );
}

#[test]
fn append_entries_wire_roundtrip() {
    let req = AppendEntriesRequest {
        node: 6000,
        term: 2,
        leader_id: 5000,
        prev_log_idx: 0,
        prev_log_term: 0,
        entries: vec![
            LogEntry {
                term: 2,
                entry: "PUT:1.a".to_string(),
                entry_idx: 0,
            },
            LogEntry {
                term: 2,
                entry: "DELETE:9".to_string(),
                entry_idx: 1,
            },
        ],
        lead_commit: 1,
    };
    let text = req.encode();
    assert_eq!("6000,2,5000,0,0,+2|PUT:1.a|0+2|DELETE:9|1,1", text);
    let back = AppendEntriesRequest::decode(&text).unwrap();
    assert_eq!(6000, back.node);
    assert_eq!(2, back.term);
    assert_eq!(5000, back.leader_id);
    assert_eq!(0, back.prev_log_idx);
    assert_eq!(0, back.prev_log_term);
    assert_eq!(2, back.entries.len());
    assert_eq!("PUT:1.a", back.entries[0].entry);
    assert_eq!(1, back.entries[1].entry_idx);
    assert_eq!(1, back.lead_commit);
}

#[test]
fn append_entries_heartbeat_roundtrip() {
    let req = AppendEntriesRequest {
        node: 6000,
        term: 2,
        leader_id: 5000,
        prev_log_idx: 0,
        prev_log_term: 0,
        entries: vec![],
        lead_commit: 0,
    };
    let text = req.encode();
    assert_eq!("6000,2,5000,0,0,,0", text);
    let back = AppendEntriesRequest::decode(&text).unwrap();
    assert_eq!(0, back.entries.len());
}

#[test]
fn append_entries_rejects_malformed_bodies() {
    assert_eq!(
        KvError::InvalidInput,
        AppendEntriesRequest::decode("1,2,3").unwrap_err()
    );
    assert_eq!(
        KvError::InvalidInput,
        AppendEntriesRequest::decode("a,2,3,4,5,,6").unwrap_err()
    );
    assert_eq!(
        KvError::InvalidInput,
        AppendEntriesRequest::decode("1,2,3,4,5,+badentry,6").unwrap_err()
    );
}

#[test]
fn vote_request_wire_roundtrip() {
    let req = VoteRequest {
        node: 5000,
        term: 9,
        candidate_id: 4000,
        last_log_idx: 3,
        last_log_term: 8,
    };
    let text = req.encode();
    assert_eq!("5000,9,4000,3,8", text);
    let back = VoteRequest::decode(&text).unwrap();
    assert_eq!(req, back);
    assert_eq!(
        KvError::InvalidInput,
        VoteRequest::decode("5000,9,4000,3").unwrap_err()
    );
}

#[test]
fn response_wire_roundtrip() {
    let ok = NodeResponse {
        term: 4,
        accepted: true,
    };
    assert_eq!("4,true", ok.encode());
    assert_eq!(ok, NodeResponse::decode("4,true").unwrap());
    let no = NodeResponse {
        term: 4,
        accepted: false,
    };
    assert_eq!("4,false", no.encode());
    assert_eq!(no, NodeResponse::decode("4,false").unwrap());
    assert_eq!(
        KvError::InvalidInput,
        NodeResponse::decode("4,maybe").unwrap_err()
    );
}

#[test]
fn path_parsing() {
    let (route, params) = parse_path("/?key=1");
    assert_eq!("/", route);
    assert_eq!(1, params.len());
    assert_eq!("key", params[0].0);
    assert_eq!("1", params[0].1);

    let (route, params) = parse_path("/append-entries");
    assert_eq!("/append-entries", route);
    assert_eq!(0, params.len());

    let (route, params) = parse_path("/?start_key=1&end_key=10&junk");
    assert_eq!("/", route);
    assert_eq!(2, params.len());
    assert_eq!("start_key", params[0].0);
    assert_eq!("1", params[0].1);
    assert_eq!("end_key", params[1].0);
    assert_eq!("10", params[1].1);
}

#[test]
fn response_formatting() {
    let r = format_response("hello".to_string());
    assert_eq!("HTTP/1.1 200 OK\r\nContent-Length: 5\r\n\r\nhello", r);
    let d = default_response();
    assert!(d.starts_with("HTTP/1.1 200 OK\r\nContent-Length: "));
    assert!(d.contains("Usage:"));
}

#[test]
fn kv_body_parsing() {
    let kvs = parse_kv_body("1,alpha\n2,beta").unwrap();
    assert_eq!(2, kvs.len());
    assert_eq!(1, kvs[0].key);
    assert_eq!("alpha", kvs[0].value);
    assert_eq!(2, kvs[1].key);
    assert_eq!("beta", kvs[1].value);

    // a line without a comma is skipped
    let kvs = parse_kv_body("nocomma\n3,gamma").unwrap();
    assert_eq!(1, kvs.len());
    assert_eq!(3, kvs[0].key);

    // a non-numeric key is refused
    assert_eq!(
        KvError::InvalidInput,
        parse_kv_body("x,gamma").unwrap_err()
    );
}
