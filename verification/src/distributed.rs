//! The front-end adapter over one node.
//!
//! Reads go straight to the local storage engine.  In distributed mode a
//! mutation is accepted only on the leader: it is encoded as a textual
//! command and appended to the replicated log, to reach the engine once
//! committed; on any other node it fails with the known leader's id.  In
//! standalone mode mutations go straight to the engine.

use vstd::prelude::*;
use crate::bit_cask::{VALUE_MAX, byte_len, new_bit_cask};
use crate::command::{LogEntry, format_command_chars, kv_views};
use crate::error::KvError;
use crate::node::{Node, State, new_node};
use crate::storage::KV;

verus! {

/// One node with its storage, as the request layer sees it.
pub struct DistributedStorage {
    pub node: Node,
    pub distributed: bool,
}

impl DistributedStorage {
    /// The adapter's representation invariant.
    pub open spec fn wf(&self) -> bool {
        self.node.wf()
    }

    /// What the local engine stores.
    pub open spec fn view_map(&self) -> Map<usize, Seq<char>> {
        self.node.storage.view_map()
    }

    /// The value of `key` in the local engine, or the empty string.
    pub fn get(&self, key: usize) -> (r: Result<String, KvError>)
        requires
            self.wf(),
        ensures
            match r {
                Ok(v) => v@ == if self.view_map().contains_key(key) {
                    self.view_map()[key]
                } else {
                    Seq::<char>::empty()
                },
                Err(_) => false,
            },
    {
        self.node.storage.get(key)
    }

    /// Every stored key of `start ..= end` with its value, in key order.
    pub fn range(&self, start: usize, end: usize) -> (r: Result<Vec<KV>, KvError>)
        requires
            self.wf(),
        ensures
            match r {
                Ok(out) => {
                    &&& forall|l: int|
                        0 <= l < out@.len() ==> start <= (#[trigger] out@[l]).key <= end
                            && self.view_map().contains_key(out@[l].key) && out@[l].value@
                            == self.view_map()[out@[l].key]
                    &&& forall|l1: int, l2: int|
                        0 <= l1 < l2 < out@.len() ==> (#[trigger] out@[l1]).key < (
                        #[trigger] out@[l2]).key
                    &&& forall|k: usize|
                        self.view_map().contains_key(k) && start <= k <= end ==> exists|l: int|
                            0 <= l < out@.len() && (#[trigger] out@[l]).key == k
                },
                Err(_) => false,
            },
    {
        self.node.storage.range(start, end)
    }

    /// Stores `value` under `key`: straight into the engine in standalone
    /// mode; in distributed mode, only on the leader, as a `PUT` command
    /// appended to the replicated log.
    pub fn put(&mut self, key: usize, value: String) -> (r: Result<(), KvError>)
        requires
            old(self).wf(),
        ensures
            final(self).wf(),
            final(self).distributed == old(self).distributed,
            old(self).distributed && old(self).node.state != State::LEADER ==> r == Err::<
                (),
                KvError,
            >(KvError::NotLeader(old(self).node.leader_id)) && *final(self) == *old(self),
            old(self).distributed && old(self).node.state == State::LEADER ==> r is Ok && final(self).node.log@ == old(self).node.log@.push(final(self).node.log@.last()) && final(self).node.log@.last().entry@ == format_command_chars(
                "PUT"@,
                seq![(key, value@)],
            ) && final(self).view_map() == old(self).view_map(),
            !old(self).distributed ==> match r {
                Ok(()) => {
                    &&& byte_len(value@) as u64 <= VALUE_MAX
                    &&& old(self).node.storage.clock < u64::MAX
                    &&& old(self).node.storage.next_tag < u64::MAX
                    &&& final(self).view_map() == old(self).view_map().insert(key, value@)
                },
                Err(KvError::ValueTooLarge) => byte_len(value@) as u64 > VALUE_MAX && *final(self)
                    == *old(self),
                Err(KvError::Io) => byte_len(value@) as u64 <= VALUE_MAX && (old(
                    self,
                ).node.storage.clock == u64::MAX || old(self).node.storage.next_tag == u64::MAX)
                    && *final(self) == *old(self),
                Err(_) => false,
            },
    {
        if self.distributed {
            if !self.node.can_accept_requests() {
                return Err(KvError::NotLeader(self.node.get_leader()));
            }
            let le = LogEntry { term: 0, entry: String::new(), entry_idx: 0 };
            let ghost value_v = value@;
            let kvs_vec = vec![KV { key, value }];
            let ghost kvs_g = kvs_vec@;
            let request = le.format_command("PUT", kvs_vec);
            proof {
                reveal_strlit("PUT");
                reveal_strlit("DELETE");
                assert(kv_views(kvs_g) =~= seq![(key, value_v)]);
                assert(request@ == format_command_chars("PUT"@, seq![(key, value_v)]));
            }
            self.node.add_request_to_log(request.as_str())?;
            return Ok(());
        }
        match self.node.storage.put(key, value) {
            Ok(()) => Ok(()),
            Err(e) => Err(e),
        }
    }

    /// Removes `key`: from the engine in standalone mode; in distributed
    /// mode, only on the leader, as a `DELETE` command appended to the
    /// replicated log.
    pub fn delete(&mut self, key: usize) -> (r: Result<(), KvError>)
        requires
            old(self).wf(),
        ensures
            final(self).wf(),
            final(self).distributed == old(self).distributed,
            old(self).distributed && old(self).node.state != State::LEADER ==> r == Err::<
                (),
                KvError,
            >(KvError::NotLeader(old(self).node.leader_id)) && *final(self) == *old(self),
            old(self).distributed && old(self).node.state == State::LEADER ==> r is Ok && final(self).node.log@ == old(self).node.log@.push(final(self).node.log@.last()) && final(self).node.log@.last().entry@ == format_command_chars(
                "DELETE"@,
                seq![(key, Seq::<char>::empty())],
            ) && final(self).view_map() == old(self).view_map(),
            !old(self).distributed ==> r is Ok && final(self).view_map() == old(self).view_map().remove(key),
    {
        if self.distributed {
            if !self.node.can_accept_requests() {
                return Err(KvError::NotLeader(self.node.get_leader()));
            }
            let le = LogEntry { term: 0, entry: String::new(), entry_idx: 0 };
            let empty_value = String::new();
            let kvs_vec = vec![KV { key, value: empty_value }];
            let ghost kvs_g = kvs_vec@;
            let request = le.format_command("DELETE", kvs_vec);
            proof {
                reveal_strlit("DELETE");
                assert(kv_views(kvs_g) =~= seq![(key, Seq::<char>::empty())]);
                assert(request@ == format_command_chars(
                    "DELETE"@,
                    seq![(key, Seq::<char>::empty())],
                ));
            }
            self.node.add_request_to_log(request.as_str())?;
            return Ok(());
        }
        match self.node.storage.delete(key) {
            Ok(()) => Ok(()),
            Err(e) => Err(e),
        }
    }

    /// Stores every pair: straight into the engine in standalone mode; in
    /// distributed mode, only on the leader, as one `BATCH PUT` command.
    pub fn batch_put(&mut self, kvs: Vec<KV>) -> (r: Result<(), KvError>)
        requires
            old(self).wf(),
        ensures
            final(self).wf(),
            final(self).distributed == old(self).distributed,
            old(self).distributed && old(self).node.state != State::LEADER ==> r == Err::<
                (),
                KvError,
            >(KvError::NotLeader(old(self).node.leader_id)) && *final(self) == *old(self),
            old(self).distributed && old(self).node.state == State::LEADER ==> r is Ok && final(self).node.log@ == old(self).node.log@.push(final(self).node.log@.last()) && final(self).node.log@.last().entry@ == format_command_chars("BATCH PUT"@, kv_views(kvs@))
                && final(self).view_map() == old(self).view_map(),
            !old(self).distributed ==> (r is Ok ==> final(self).view_map()
                == crate::storage::put_all(old(self).view_map(), kvs@)) && (r is Err ==> final(self).view_map() == old(self).view_map()),
    {
        if self.distributed {
            if !self.node.can_accept_requests() {
                return Err(KvError::NotLeader(self.node.get_leader()));
            }
            let le = LogEntry { term: 0, entry: String::new(), entry_idx: 0 };
            proof {
                reveal_strlit("DELETE");
                reveal_strlit("BATCH PUT");
                assert("BATCH PUT"@ != "DELETE"@) by {
                    assert("BATCH PUT"@.len() == 9);
                    assert("DELETE"@.len() == 6);
                }
            }
            let request = le.format_command("BATCH PUT", kvs);
            self.node.add_request_to_log(request.as_str())?;
            return Ok(());
        }
        match self.node.storage.batch_put(kvs) {
            Ok(()) => Ok(()),
            Err(e) => Err(e),
        }
    }
}

/// A fresh node over a fresh engine for `data_dir`, in the fixed cluster
/// of the three well-known peers; the port doubles as the node id.
pub fn new_distributed_storage(port: u16, data_dir: &str, distributed: bool) -> (r: Result<
    DistributedStorage,
    KvError,
>)
    ensures
        match r {
            Ok(ds) => {
                &&& ds.wf()
                &&& ds.distributed == distributed
                &&& ds.node.node_id == port as u64
                &&& ds.node.state == State::FOLLOWER
                &&& ds.view_map() == Map::<usize, Seq<char>>::empty()
                &&& ds.node.storage.clock == 0
                &&& ds.node.storage.next_tag == 1
            },
            Err(_) => false,
        },
{
    let mut nodes: Vec<u64> = Vec::new();
    nodes.push(4000);
    nodes.push(5000);
    nodes.push(6000);
    let storage = new_bit_cask(data_dir)?;
    let node = new_node(port as u64, nodes, storage, Vec::new())?;
    Ok(DistributedStorage { node, distributed })
}

} // verus!
