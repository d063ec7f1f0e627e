//! The node state machine from the outside: the follower's two handlers,
//! the election decisions and the leader's log.

use caskraft::bit_cask::new_bit_cask;
use caskraft::command::LogEntry;
use caskraft::error::KvError;
use caskraft::node::{get_timer_reset, new_node, Node, State};
use caskraft::wire::{AppendEntriesRequest, VoteRequest};

fn fresh_node(id: u64) -> Node {
    let storage = new_bit_cask("test-data").unwrap();
    new_node(id, Vec::new(), storage, Vec::new()).unwrap()
}

#[test]
fn test_get_random() {
    let r4000 = get_timer_reset(4000);
    let r5000 = get_timer_reset(5000);
    let r6000 = get_timer_reset(6000);
    assert!(r4000 > 0);
    assert!(r5000 > 0);
    assert!(r6000 > 0);

    assert!(r4000 + 5 < r5000);
    assert!(r5000 + 5 < r6000);
}

#[test]
fn test_follower_insert_new_entries() {
    let mut node = fresh_node(1);
    let entries = vec![LogEntry {
        term: 1,
        entry: "first entry".to_string(),
        entry_idx: 0,
    }];
    let req = AppendEntriesRequest {
        node: 1,
        term: 1,
        leader_id: 154,
        prev_log_idx: 0,
        entries,
        prev_log_term: 0,
        lead_commit: 0,
    };
    let (current_term, result) = node.append_entries(req).unwrap();
    assert_eq!(current_term, 1);
    assert!(result);

    let l = node.get_log();
    assert_eq!(l.len(), 1);
    assert_eq!(l[0].entry, "first entry");
}

#[test]
fn test_follower_reject_old_leader() {
    let mut node = fresh_node(2);
    let req = AppendEntriesRequest {
        node: 2,
        term: 2,
        leader_id: 154,
        prev_log_idx: 0,
        entries: vec![],
        prev_log_term: 0,
        lead_commit: 0,
    };
    let (current_term, result) = node.append_entries(req).unwrap();
    assert_eq!(current_term, 2);
    assert!(result);

    let req2 = AppendEntriesRequest {
        node: 2,
        term: 1,
        leader_id: 700,
        prev_log_idx: 0,
        entries: vec![],
        prev_log_term: 0,
        lead_commit: 0,
    };
    let (current_term, result) = node.append_entries(req2).unwrap();
    assert_eq!(current_term, 2);
    assert!(!result);
}

#[test]
fn test_follower_reject_inconsistent_log() {
    let mut node = fresh_node(3);
    let req = AppendEntriesRequest {
        node: 3,
        term: 1,
        leader_id: 154,
        prev_log_idx: 10,
        entries: vec![],
        prev_log_term: 1,
        lead_commit: 0,
    };
    let (_, result) = node.append_entries(req).unwrap();
    assert!(!result);
}

#[test]
fn test_follower_override_entries() {
    let mut node = fresh_node(4);
    let entries = vec![LogEntry {
        term: 1,
        entry: "first entry".to_string(),
        entry_idx: 0,
    }];
    let req = AppendEntriesRequest {
        node: 4,
        term: 1,
        leader_id: 154,
        prev_log_idx: 0,
        entries,
        prev_log_term: 0,
        lead_commit: 0,
    };
    let (current_term, result) = node.append_entries(req).unwrap();
    assert_eq!(current_term, 1);
    assert!(result);

    let new_entries = vec![LogEntry {
        term: 1,
        entry: "second entry".to_string(),
        entry_idx: 0,
    }];
    let req2 = AppendEntriesRequest {
        node: 4,
        term: 1,
        leader_id: 154,
        prev_log_idx: 0,
        entries: new_entries,
        prev_log_term: 0,
        lead_commit: 0,
    };
    let (current_term, result) = node.append_entries(req2).unwrap();
    assert_eq!(current_term, 1);
    assert!(result);

    let l = node.get_log();
    assert_eq!(l.len(), 1);
    assert_eq!(l[0].entry, "second entry");
}

#[test]
fn test_follower_vote() {
    let mut node = fresh_node(5);
    let req = VoteRequest {
        node: 5,
        term: 1,
        candidate_id: 154,
        last_log_idx: 0,
        last_log_term: 0,
    };
    let (current_term, result) = node.vote(req).unwrap();
    assert_eq!(current_term, 1);
    assert!(result);
}

#[test]
fn test_follower_vote_rejected() {
    let mut node = fresh_node(6);
    let req = AppendEntriesRequest {
        node: 4,
        term: 10,
        leader_id: 154,
        prev_log_idx: 0,
        entries: vec![],
        prev_log_term: 0,
        lead_commit: 0,
    };
    let _ = node.append_entries(req).unwrap();

    let req = VoteRequest {
        node: 6,
        term: 1,
        candidate_id: 700,
        last_log_idx: 0,
        last_log_term: 0,
    };
    let (current_term, result) = node.vote(req).unwrap();
    assert_eq!(current_term, 10);
    assert!(!result);
}

#[test]
fn test_follower_vote_rejected_already_voted() {
    let mut node = fresh_node(7);
    let req = VoteRequest {
        node: 7,
        term: 1,
        candidate_id: 200,
        last_log_idx: 0,
        last_log_term: 0,
    };
    let (_, result) = node.vote(req).unwrap();
    assert!(result);

    let req2 = VoteRequest {
        node: 7,
        term: 1,
        candidate_id: 700,
        last_log_idx: 0,
        last_log_term: 0,
    };
    let (current_term, result) = node.vote(req2).unwrap();
    assert_eq!(current_term, 1);
    assert!(!result);
}

#[test]
fn test_follower_vote_rejected_outdated_candidate() {
    let mut node = fresh_node(8);
    let entries = vec![LogEntry {
        term: 1,
        entry: "first entry".to_string(),
        entry_idx: 0,
    }];
    let req = AppendEntriesRequest {
        node: 4,
        term: 10,
        leader_id: 154,
        prev_log_idx: 0,
        entries,
        prev_log_term: 0,
        lead_commit: 0,
    };
    let _ = node.append_entries(req).unwrap();

    let req = VoteRequest {
        node: 8,
        term: 1,
        candidate_id: 700,
        last_log_idx: 0,
        last_log_term: 0,
    };
    let (current_term, result) = node.vote(req).unwrap();
    assert_eq!(current_term, 10);
    assert!(!result);
}

#[test]
fn follower_rejects_vote_when_log_ahead() {
    let mut node = fresh_node(9);
    let entries = vec![LogEntry {
        term: 10,
        entry: "entry at a high term".to_string(),
        entry_idx: 0,
    }];
    let req = AppendEntriesRequest {
        node: 9,
        term: 10,
        leader_id: 154,
        prev_log_idx: 0,
        entries,
        prev_log_term: 0,
        lead_commit: 0,
    };
    let _ = node.append_entries(req).unwrap();

    let req = VoteRequest {
        node: 9,
        term: 1,
        candidate_id: 700,
        last_log_idx: 0,
        last_log_term: 0,
    };
    let (current_term, result) = node.vote(req).unwrap();
    assert_eq!(current_term, 10);
    assert!(!result);
}

#[test]
fn term_never_decreases() {
    let mut node = fresh_node(11);
    let mut highest = 0u64;
    let terms = [3u64, 1, 7, 2, 7, 9, 4];
    for (i, t) in terms.iter().enumerate() {
        if i % 2 == 0 {
            let req = AppendEntriesRequest {
                node: 11,
                term: *t,
                leader_id: 154,
                prev_log_idx: 0,
                entries: vec![],
                prev_log_term: 0,
                lead_commit: 0,
            };
            let _ = node.append_entries(req).unwrap();
        } else {
            let req = VoteRequest {
                node: 11,
                term: *t,
                candidate_id: 154,
                last_log_idx: 0,
                last_log_term: 0,
            };
            let _ = node.vote(req).unwrap();
        }
        assert!(node.current_term >= highest);
        highest = node.current_term;
    }
}

#[test]
fn committed_entries_reach_the_engine() {
    let mut node = fresh_node(12);
    let entries = vec![
        LogEntry {
            term: 1,
            entry: "PUT:1.alpha".to_string(),
            entry_idx: 0,
        },
        LogEntry {
            term: 1,
            entry: "BATCH PUT:2.beta;3.gamma".to_string(),
            entry_idx: 1,
        },
        LogEntry {
            term: 1,
            entry: "DELETE:2".to_string(),
            entry_idx: 2,
        },
    ];
    let req = AppendEntriesRequest {
        node: 12,
        term: 1,
        leader_id: 154,
        prev_log_idx: 0,
        entries,
        prev_log_term: 0,
        lead_commit: 3,
    };
    let (term, ok) = node.append_entries(req).unwrap();
    assert_eq!(term, 1);
    assert!(ok);
    assert_eq!("alpha", node.storage.get(1).unwrap());
    assert_eq!("", node.storage.get(2).unwrap());
    assert_eq!("gamma", node.storage.get(3).unwrap());
    assert_eq!(3, node.last_applied);
}

#[test]
fn malformed_committed_entry_is_an_error() {
    let mut node = fresh_node(13);
    let entries = vec![LogEntry {
        term: 1,
        entry: "no colon here".to_string(),
        entry_idx: 0,
    }];
    let req = AppendEntriesRequest {
        node: 13,
        term: 1,
        leader_id: 154,
        prev_log_idx: 0,
        entries,
        prev_log_term: 0,
        lead_commit: 1,
    };
    let r = node.append_entries(req);
    assert_eq!(r, Err(KvError::InvalidInput));
}

#[test]
fn election_walkthrough() {
    let storage = new_bit_cask("test-data").unwrap();
    let mut node = new_node(4000, vec![4000, 5000, 6000], storage, Vec::new()).unwrap();
    node.begin_election();
    assert_eq!(node.state, State::CANDIDATE);
    assert_eq!(node.current_term, 1);
    assert_eq!(node.voted_for, 4000);
    let req = node.make_vote_request(5000);
    assert_eq!(req.term, 1);
    assert_eq!(req.candidate_id, 4000);
    assert_eq!(req.last_log_idx, 0);
    assert_eq!(req.last_log_term, 0);
    let majority = caskraft::node::majority_of(3) as u64;
    let step = node.handle_vote_response(
        caskraft::wire::NodeResponse {
            term: 1,
            accepted: true,
        },
        1,
        majority,
    );
    assert_eq!(step, caskraft::node::ElectionStep::Elected);
    assert_eq!(node.state, State::LEADER);

    node.add_request_to_log("PUT:7.seven").unwrap();
    let areq = node.build_append_request(1);
    assert_eq!(areq.term, 1);
    assert_eq!(areq.leader_id, 4000);
    assert_eq!(areq.entries.len(), 1);
    assert_eq!(areq.entries[0].entry, "PUT:7.seven");

    let pairs = node.leader_commit(2, majority).unwrap();
    assert_eq!(pairs.len(), 1);
    assert_eq!(pairs[0].0, 1);
    assert_eq!(pairs[0].1, "PUT:7.seven");
    assert_eq!("seven", node.storage.get(7).unwrap());

    // short of a majority nothing commits
    node.add_request_to_log("PUT:8.eight").unwrap();
    assert_eq!(
        node.leader_commit(1, majority),
        Err(KvError::NotReplicated)
    );
    assert_eq!("", node.storage.get(8).unwrap());
}

#[test]
fn front_end_refuses_mutations_off_leader() {
    let mut ds =
        caskraft::distributed::new_distributed_storage(5000, "test-data", true).unwrap();
    let r = ds.put(1, "x".to_string());
    assert_eq!(r, Err(KvError::NotLeader(0)));
    let r = ds.delete(1);
    assert_eq!(r, Err(KvError::NotLeader(0)));
}

#[test]
fn front_end_standalone_mode() {
    let mut ds =
        caskraft::distributed::new_distributed_storage(4000, "test-data", false).unwrap();
    ds.put(1, "a".to_string()).unwrap();
    ds.put(2, "b".to_string()).unwrap();
    assert_eq!("a", ds.get(1).unwrap());
    let r = ds.range(0, 10).unwrap();
    assert_eq!(2, r.len());
    ds.delete(1).unwrap();
    assert_eq!("", ds.get(1).unwrap());
}
