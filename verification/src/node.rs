//! The per-node replicated-log state machine.
//!
//! A node is a follower, candidate or leader.  Followers answer
//! `AppendEntries` and `RequestVote` per the consistency rules; a candidate
//! drives an election from the decisions here; a leader appends client
//! commands to its log, slices it per peer, and advances its commit index
//! on majority acknowledgement.  Committed entries are decoded and applied,
//! in index order, to the node's local storage engine.
//!
//! Sending to peers, sleeping and persisting are the surrounding program's
//! work: it calls the decision functions here and performs the I/O they
//! ask for.

use vstd::prelude::*;
use crate::bit_cask::{BitCask, VALUE_MAX, byte_len};
use crate::command::{LogEntry, kv_views, parse_command_chars};
use crate::error::KvError;
use crate::storage::KV;
use crate::text::str_eq;
use crate::wire::{AppendEntriesRequest, VoteRequest, NodeResponse};

verus! {

/// The role a node is playing.
#[derive(Clone, Copy, Debug, PartialEq, Eq, Structural)]
pub enum State {
    FOLLOWER,
    LEADER,
    CANDIDATE,
}

/// The deterministic election-timer reset of a node, biased by its id so
/// that the well-known nodes time out apart from one another.
pub open spec fn timer_reset_spec(id: u64) -> int {
    let m = if id > 3000 {
        id as int
    } else {
        3000
    };
    if m / 100 - 30 < 5 {
        5
    } else {
        m / 100 - 30
    }
}

/// The election-timer reset value of node `id`.
pub fn get_timer_reset(id: u64) -> (t: i64)
    ensures
        t == timer_reset_spec(id),
{
    let m: u64 = if id > 3000 {
        id
    } else {
        3000
    };
    let raw: u64 = m / 100 - 30;
    if raw < 5 {
        5
    } else {
        raw as i64
    }
}

/// One node of the cluster.
pub struct Node {
    pub node_id: u64,
    pub state: State,
    pub current_term: u64,
    pub voted_for: u64,
    pub log: Vec<LogEntry>,
    pub commit_idx: u64,
    pub last_applied: u64,
    pub election_timer: i64,
    pub leader_id: u64,
    /// Every node of the fixed cluster, this one included.
    pub other_nodes: Vec<u64>,
    /// Per peer (parallel to `other_nodes`): the next log position to send.
    pub next_idx: Vec<u64>,
    /// Per peer: the highest log position known replicated.
    pub match_idx: Vec<u64>,
    /// The local storage engine committed commands are applied to.
    pub storage: BitCask,
}

/// The map after storing each `(key, value)` view in order.
pub open spec fn put_all_views(m: Map<usize, Seq<char>>, kvs: Seq<(usize, Seq<char>)>) -> Map<
    usize,
    Seq<char>,
>
    decreases kvs.len(),
{
    if kvs.len() == 0 {
        m
    } else {
        put_all_views(m.insert(kvs[0].0, kvs[0].1), kvs.drop_first())
    }
}

/// What applying one committed command does to the stored map: a parse
/// failure applies nothing, an unknown command word is skipped, and the
/// three known commands store or remove their pairs.
pub open spec fn apply_one(m: Map<usize, Seq<char>>, s: Seq<char>) -> Option<
    Map<usize, Seq<char>>,
> {
    match parse_command_chars(s) {
        None => None,
        Some((c, kvs)) => if c == "BATCH PUT"@ {
            Some(put_all_views(m, kvs))
        } else if c == "PUT"@ {
            if kvs.len() >= 1 {
                Some(m.insert(kvs[0].0, kvs[0].1))
            } else {
                None
            }
        } else if c == "DELETE"@ {
            if kvs.len() >= 1 {
                Some(m.remove(kvs[0].0))
            } else {
                None
            }
        } else {
            Some(m)
        },
    }
}

/// The map after applying the commands of `log[from .. to]` in order, or
/// nothing when one of them cannot be applied.
pub open spec fn apply_window(
    m: Map<usize, Seq<char>>,
    log: Seq<LogEntry>,
    from: int,
    to: int,
) -> Option<Map<usize, Seq<char>>>
    decreases to - from,
{
    if from >= to {
        Some(m)
    } else {
        match apply_one(m, log[from].entry@) {
            None => None,
            Some(m2) => apply_window(m2, log, from + 1, to),
        }
    }
}

/// Applying one more entry folds onto the end of a window.
proof fn lemma_apply_window_snoc(m: Map<usize, Seq<char>>, log: Seq<LogEntry>, from: int, j: int)
    requires
        from <= j,
    ensures
        apply_window(m, log, from, j + 1) == match apply_window(m, log, from, j) {
            None => None::<Map<usize, Seq<char>>>,
            Some(mj) => apply_one(mj, log[j].entry@),
        },
    decreases j - from,
{
    reveal_with_fuel(apply_window, 3);
    if from < j {
        match apply_one(m, log[from].entry@) {
            None => {},
            Some(m2) => {
                lemma_apply_window_snoc(m2, log, from + 1, j);
            },
        }
    } else {
        match apply_one(m, log[j].entry@) {
            None => {},
            Some(m2) => {},
        }
    }
}

/// `put_all` over pairs equals `put_all_views` over their views.
proof fn lemma_put_all_views(m: Map<usize, Seq<char>>, kvs: Seq<KV>)
    ensures
        crate::storage::put_all(m, kvs) == put_all_views(m, kv_views(kvs)),
    decreases kvs.len(),
{
    if kvs.len() > 0 {
        lemma_put_all_views(m.insert(kvs[0].key, kvs[0].value@), kvs.drop_first());
        assert(kv_views(kvs).drop_first() =~= kv_views(kvs.drop_first()));
        assert(kv_views(kvs)[0] == (kvs[0].key, kvs[0].value@));
    }
}

/// Why applying the command `s` was genuinely refused with error `e`,
/// given the engine's counters at the point of failure: the command does
/// not parse (or names no pair), one of its values exceeds the record
/// size limit, or the engine lacks timestamps or segment tags for its
/// records.  Success is owed whenever none of these holds for any
/// command in the window.
pub open spec fn apply_refused(e: KvError, s: Seq<char>, clock: u64, next_tag: u64) -> bool {
    &&& (e == KvError::InvalidInput || e == KvError::ValueTooLarge || e == KvError::Io)
    &&& (e == KvError::InvalidInput ==> match parse_command_chars(s) {
        None => true,
        Some((c, kvs)) => (c == "PUT"@ || c == "DELETE"@) && kvs.len() == 0,
    })
    &&& (e == KvError::ValueTooLarge ==> match parse_command_chars(s) {
        None => false,
        Some((c, kvs)) => exists|i: int|
            0 <= i < kvs.len() && byte_len((#[trigger] kvs[i]).1) as u64 > VALUE_MAX,
    })
    &&& (e == KvError::Io ==> match parse_command_chars(s) {
        None => false,
        Some((c, kvs)) => if c == "BATCH PUT"@ {
            clock + kvs.len() > u64::MAX || next_tag + kvs.len() > u64::MAX
        } else {
            clock == u64::MAX || next_tag == u64::MAX
        },
    })
}

impl Node {
    /// The node's representation invariant.
    pub open spec fn wf(&self) -> bool {
        &&& self.storage.wf()
        &&& self.last_applied <= self.log@.len()
        &&& self.commit_idx >= self.last_applied
        &&& self.next_idx@.len() == self.other_nodes@.len()
        &&& self.match_idx@.len() == self.other_nodes@.len()
    }

    /// The log position up to which committed entries can be applied.
    pub open spec fn apply_target(&self) -> int {
        if self.commit_idx <= self.log@.len() {
            self.commit_idx as int
        } else {
            self.log@.len() as int
        }
    }

    /// Applies every committed, not yet applied entry to the storage
    /// engine, in index order, and returns the `(term, entry)` pairs
    /// applied so that the caller can persist them.  Fails on a command
    /// that does not parse or that the engine refuses; the entries before
    /// it stay applied.
    pub fn apply_committed(&mut self) -> (r: Result<Vec<(u64, String)>, KvError>)
        requires
            old(self).wf(),
        ensures
            final(self).wf(),
            final(self).node_id == old(self).node_id,
            final(self).state == old(self).state,
            final(self).current_term == old(self).current_term,
            final(self).voted_for == old(self).voted_for,
            final(self).log == old(self).log,
            final(self).commit_idx == old(self).commit_idx,
            final(self).leader_id == old(self).leader_id,
            final(self).election_timer == old(self).election_timer,
            final(self).other_nodes == old(self).other_nodes,
            final(self).next_idx == old(self).next_idx,
            final(self).match_idx == old(self).match_idx,
            old(self).last_applied <= final(self).last_applied <= old(self).apply_target() || (
            old(self).last_applied == final(self).last_applied && old(self).apply_target() < old(self).last_applied),
            Some(final(self).storage.view_map()) == apply_window(
                old(self).storage.view_map(),
                old(self).log@,
                old(self).last_applied as int,
                final(self).last_applied as int,
            ),
            match r {
                Ok(applied) => {
                    &&& final(self).last_applied as int == if old(self).apply_target() > old(self).last_applied {
                        old(self).apply_target()
                    } else {
                        old(self).last_applied as int
                    }
                    &&& applied@.len() == final(self).last_applied - old(self).last_applied
                    &&& forall|l: int|
                        0 <= l < applied@.len() ==> (#[trigger] applied@[l]).0 == old(self).log@[old(self).last_applied + l].term && applied@[l].1@ == old(self).log@[old(self).last_applied + l].entry@
                },
                Err(e) => final(self).last_applied < old(self).apply_target() && apply_refused(
                    e,
                    old(self).log@[final(self).last_applied as int].entry@,
                    final(self).storage.clock,
                    final(self).storage.next_tag,
                ),
            },
    {
        let len64 = self.log.len() as u64;
        let cap: u64 = if self.commit_idx < len64 {
            self.commit_idx
        } else {
            len64
        };
        let mut applied: Vec<(u64, String)> = Vec::new();
        let ghost base_la = self.last_applied;
        let ghost base_view = self.storage.view_map();
        if self.last_applied >= cap {
            return Ok(applied);
        }
        while self.last_applied < cap
            invariant
                self.wf(),
                old(self).wf(),
                self.node_id == old(self).node_id,
                self.state == old(self).state,
                self.current_term == old(self).current_term,
                self.voted_for == old(self).voted_for,
                self.log == old(self).log,
                self.commit_idx == old(self).commit_idx,
                self.leader_id == old(self).leader_id,
                self.election_timer == old(self).election_timer,
                self.other_nodes == old(self).other_nodes,
                self.next_idx == old(self).next_idx,
                self.match_idx == old(self).match_idx,
                base_la == old(self).last_applied,
                base_view == old(self).storage.view_map(),
                cap as int == old(self).apply_target(),
                cap <= self.log@.len(),
                base_la <= self.last_applied <= cap,
                Some(self.storage.view_map()) == apply_window(
                    base_view,
                    self.log@,
                    base_la as int,
                    self.last_applied as int,
                ),
                applied@.len() == self.last_applied - base_la,
                forall|l: int|
                    0 <= l < applied@.len() ==> (#[trigger] applied@[l]).0 == self.log@[base_la
                        + l].term && applied@[l].1@ == self.log@[base_la + l].entry@,
            decreases cap - self.last_applied,
        {
            let lcur = self.log.len();
            proof {
                assert(self.last_applied < cap && cap <= lcur as u64);
            }
            let idx = self.last_applied as usize;
            proof {
                assert(idx as int == self.last_applied as int);
            }
            let ghost pre_view = self.storage.view_map();
            let entry_text = self.log[idx].entry.clone();
            let term = self.log[idx].term;
            let parsed = self.log[idx].parse_command(entry_text.as_str());
            let ghost s_cur = self.log@[self.last_applied as int].entry@;
            match parsed {
                Err(e) => {
                    proof {
                        assert(parse_command_chars(s_cur) is None);
                        assert(apply_refused(
                            e,
                            s_cur,
                            self.storage.clock,
                            self.storage.next_tag,
                        ));
                    }
                    return Err(e);
                },
                Ok((c, kvs)) => {
                    proof {
                        assert(parse_command_chars(s_cur) == Some((c@, kv_views(kvs@))));
                    }
                    if str_eq(c.as_str(), "BATCH PUT") {
                        let ghost kvs_v = kvs@;
                        match self.storage.batch_put(kvs) {
                            Err(e) => {
                                proof {
                                    if e == KvError::ValueTooLarge {
                                        let w = choose|i: int|
                                            0 <= i < kvs_v.len() && byte_len(
                                                (#[trigger] kvs_v[i]).value@,
                                            ) as u64 > VALUE_MAX;
                                        assert(kv_views(kvs_v)[w].1 == kvs_v[w].value@);
                                    }
                                    assert(apply_refused(
                                        e,
                                        s_cur,
                                        self.storage.clock,
                                        self.storage.next_tag,
                                    ));
                                }
                                return Err(e);
                            },
                            Ok(()) => {
                                proof {
                                    lemma_put_all_views(pre_view, kvs_v);
                                }
                            },
                        }
                    } else if str_eq(c.as_str(), "PUT") {
                        if kvs.len() == 0 {
                            proof {
                                assert(apply_refused(
                                    KvError::InvalidInput,
                                    s_cur,
                                    self.storage.clock,
                                    self.storage.next_tag,
                                ));
                            }
                            return Err(KvError::InvalidInput);
                        }
                        let ghost kvs_v = kvs@;
                        let value = kvs[0].value.clone();
                        match self.storage.put(kvs[0].key, value) {
                            Err(e) => {
                                proof {
                                    if e == KvError::ValueTooLarge {
                                        assert(kv_views(kvs_v)[0].1 == kvs_v[0].value@);
                                    }
                                    assert(apply_refused(
                                        e,
                                        s_cur,
                                        self.storage.clock,
                                        self.storage.next_tag,
                                    ));
                                }
                                return Err(e);
                            },
                            Ok(()) => {},
                        }
                    } else if str_eq(c.as_str(), "DELETE") {
                        if kvs.len() == 0 {
                            proof {
                                assert(apply_refused(
                                    KvError::InvalidInput,
                                    s_cur,
                                    self.storage.clock,
                                    self.storage.next_tag,
                                ));
                            }
                            return Err(KvError::InvalidInput);
                        }
                        match self.storage.delete(kvs[0].key) {
                            Err(_) => {},
                            Ok(()) => {},
                        }
                    } else {
                        // an unknown command word is skipped, as nothing
                        // can be done with it
                    }
                    proof {
                        assert(apply_one(pre_view, self.log@[self.last_applied as int].entry@)
                            == Some(self.storage.view_map()));
                        lemma_apply_window_snoc(
                            base_view,
                            self.log@,
                            base_la as int,
                            self.last_applied as int,
                        );
                    }
                    applied.push((term, entry_text));
                    self.last_applied = self.last_applied + 1;
                },
            }
        }
        Ok(applied)
    }

    /// The node's replicated log, as the surrounding program reads it.
    pub fn get_log(&self) -> (l: Vec<LogEntry>)
        ensures
            l@ == self.log@,
    {
        let mut l: Vec<LogEntry> = Vec::new();
        let mut i: usize = 0;
        while i < self.log.len()
            invariant
                i <= self.log@.len(),
                l@ =~= self.log@.take(i as int),
            decreases self.log@.len() - i,
        {
            l.push(self.log[i].dup());
            proof {
                assert(self.log@.take(i + 1) =~= self.log@.take(i as int).push(
                    self.log@[i as int],
                ));
            }
            i = i + 1;
        }
        proof {
            assert(self.log@.take(self.log@.len() as int) =~= self.log@);
        }
        l
    }

    /// Whether this node may take client mutations: only a leader may.
    pub fn can_accept_requests(&self) -> (r: bool)
        ensures
            r <==> self.state == State::LEADER,
    {
        self.state == State::LEADER
    }

    /// The id of the leader this node knows of.
    pub fn get_leader(&self) -> (r: u64)
        ensures
            r == self.leader_id,
    {
        self.leader_id
    }
}

/// Whether the log holds an entry at `idx` with term `term`.
pub open spec fn prev_matches(log: Seq<LogEntry>, idx: u64, term: u64) -> bool {
    idx < log.len() && log[idx as int].term == term
}

/// One step of the follower's log rewrite: an entry whose index lies below
/// the length the log had when the request arrived overwrites in place,
/// any other is appended.
pub open spec fn entry_step(log: Seq<LogEntry>, e: LogEntry, n: nat) -> Seq<LogEntry> {
    if e.entry_idx < n {
        log.update(e.entry_idx as int, e)
    } else {
        log.push(e)
    }
}

/// The log after taking in each entry of `entries`, against the original
/// length `n`.
pub open spec fn apply_entries_from(log: Seq<LogEntry>, entries: Seq<LogEntry>, n: nat) -> Seq<
    LogEntry,
>
    decreases entries.len(),
{
    if entries.len() == 0 {
        log
    } else {
        apply_entries_from(entry_step(log, entries[0], n), entries.drop_first(), n)
    }
}

/// The follower's log after an accepted `AppendEntries` request.
pub open spec fn apply_entries_spec(log: Seq<LogEntry>, entries: Seq<LogEntry>) -> Seq<LogEntry> {
    apply_entries_from(log, entries, log.len())
}

/// Taking one more entry folds onto the end.
proof fn lemma_apply_entries_snoc(log: Seq<LogEntry>, entries: Seq<LogEntry>, e: LogEntry, n: nat)
    ensures
        apply_entries_from(log, entries.push(e), n) == entry_step(
            apply_entries_from(log, entries, n),
            e,
            n,
        ),
    decreases entries.len(),
{
    reveal_with_fuel(apply_entries_from, 3);
    if entries.len() == 0 {
        assert(entries.push(e)[0] == e);
        assert(entries.push(e).drop_first() =~= Seq::<LogEntry>::empty());
    } else {
        assert(entries.push(e)[0] == entries[0]);
        assert(entries.push(e).drop_first() =~= entries.drop_first().push(e));
        lemma_apply_entries_snoc(entry_step(log, entries[0], n), entries.drop_first(), e, n);
    }
}

impl Node {
    /// The follower's `AppendEntries` handler.  A request from a stale term
    /// is refused outright.  Otherwise the node becomes a follower of the
    /// sender, adopts its term, resets its election timer, checks that its
    /// log agrees at the request's previous position, takes the entries in
    /// (overwriting at their indices, appending past the end), advances its
    /// commit index to the leader's, and applies what became committed.
    pub fn append_entries(&mut self, req: AppendEntriesRequest) -> (r: Result<(u64, bool), KvError>)
        requires
            old(self).wf(),
        ensures
            final(self).wf(),
            final(self).current_term >= old(self).current_term,
            final(self).node_id == old(self).node_id,
            final(self).other_nodes == old(self).other_nodes,
            final(self).next_idx == old(self).next_idx,
            final(self).match_idx == old(self).match_idx,
            final(self).voted_for == old(self).voted_for,
            req.term < old(self).current_term ==> r == Ok::<(u64, bool), KvError>(
                (old(self).current_term, false),
            ) && *final(self) == *old(self),
            req.term >= old(self).current_term ==> {
                &&& final(self).state == State::FOLLOWER
                &&& final(self).current_term == req.term
                &&& final(self).leader_id == req.leader_id
                &&& final(self).election_timer == timer_reset_spec(old(self).node_id)
                &&& req.prev_log_idx > 0 && !prev_matches(
                    old(self).log@,
                    req.prev_log_idx,
                    req.prev_log_term,
                ) ==> {
                    &&& r == Ok::<(u64, bool), KvError>((req.term, false))
                    &&& final(self).log == old(self).log
                    &&& final(self).commit_idx == old(self).commit_idx
                    &&& final(self).last_applied == old(self).last_applied
                    &&& final(self).storage == old(self).storage
                }
                &&& !(req.prev_log_idx > 0 && !prev_matches(
                    old(self).log@,
                    req.prev_log_idx,
                    req.prev_log_term,
                )) ==> {
                    &&& final(self).log@ == apply_entries_spec(old(self).log@, req.entries@)
                    &&& final(self).commit_idx == (if req.lead_commit > old(self).commit_idx {
                        req.lead_commit
                    } else {
                        old(self).commit_idx
                    })
                    &&& req.lead_commit <= old(self).commit_idx ==> final(self).last_applied
                        == old(self).last_applied && final(self).storage == old(self).storage
                    &&& Some(final(self).storage.view_map()) == apply_window(
                        old(self).storage.view_map(),
                        final(self).log@,
                        old(self).last_applied as int,
                        final(self).last_applied as int,
                    )
                    &&& r is Ok ==> r == Ok::<(u64, bool), KvError>((req.term, true))
                    &&& (r is Ok && req.lead_commit > old(self).commit_idx
                        ==> final(self).last_applied as int == final(self).apply_target())
                    &&& match r {
                        Ok(_) => true,
                        Err(e) => req.lead_commit > old(self).commit_idx && final(self).last_applied < final(self).apply_target() && apply_refused(
                            e,
                            final(self).log@[final(self).last_applied as int].entry@,
                            final(self).storage.clock,
                            final(self).storage.next_tag,
                        ),
                    }
                }
            },
    {
        if req.term < self.current_term {
            return Ok((self.current_term, false));
        }
        self.election_timer = get_timer_reset(self.node_id);
        self.state = State::FOLLOWER;
        self.current_term = req.term;
        self.leader_id = req.leader_id;
        if req.prev_log_idx > 0 {
            if !(req.prev_log_idx < self.log.len() as u64) {
                return Ok((self.current_term, false));
            }
            let pi = req.prev_log_idx as usize;
            if self.log[pi].term != req.prev_log_term {
                return Ok((self.current_term, false));
            }
        }
        let ghost old_log = self.log@;
        let n0 = self.log.len();
        let ghost n0n = n0 as nat;
        let mut i: usize = 0;
        proof {
            assert(req.entries@.take(0) =~= Seq::<LogEntry>::empty());
        }
        while i < req.entries.len()
            invariant
                i <= req.entries@.len(),
                n0 == old_log.len(),
                n0n == n0 as nat,
                self.log@ == apply_entries_from(old_log, req.entries@.take(i as int), n0n),
                self.log@.len() >= old_log.len(),
                self.node_id == old(self).node_id,
                self.state == State::FOLLOWER,
                self.current_term == req.term,
                req.term >= old(self).current_term,
                self.leader_id == req.leader_id,
                self.election_timer == timer_reset_spec(old(self).node_id),
                self.voted_for == old(self).voted_for,
                self.other_nodes == old(self).other_nodes,
                self.next_idx == old(self).next_idx,
                self.match_idx == old(self).match_idx,
                self.storage == old(self).storage,
                self.storage.wf(),
                self.last_applied == old(self).last_applied,
                self.last_applied <= old_log.len(),
                self.commit_idx == old(self).commit_idx,
                self.commit_idx >= self.last_applied,
                self.next_idx@.len() == self.other_nodes@.len(),
                self.match_idx@.len() == self.other_nodes@.len(),
            decreases req.entries@.len() - i,
        {
            let e = req.entries[i].dup();
            let ghost e_g = e;
            if e.entry_idx < n0 as u64 {
                let at = e.entry_idx as usize;
                self.log.set(at, e);
            } else {
                self.log.push(e);
            }
            proof {
                lemma_apply_entries_snoc(old_log, req.entries@.take(i as int), e_g, n0n);
                assert(req.entries@.take(i + 1) =~= req.entries@.take(i as int).push(
                    req.entries@[i as int],
                ));
            }
            i = i + 1;
        }
        proof {
            assert(req.entries@.take(req.entries@.len() as int) =~= req.entries@);
        }
        if req.lead_commit > self.commit_idx {
            self.commit_idx = req.lead_commit;
            match self.apply_committed() {
                Err(e) => {
                    return Err(e);
                },
                Ok(_) => {},
            }
        }
        Ok((req.term, true))
    }
}

/// Whether a follower in state `pre` grants `req`: the request's term is
/// current, the node has not yet voted for someone else, and the
/// candidate's log is at least as up to date as the node's own.
pub open spec fn vote_grant(pre: Node, req: VoteRequest) -> bool {
    &&& req.term >= pre.current_term
    &&& (pre.voted_for == 0 || pre.voted_for == req.candidate_id)
    &&& (pre.log@.len() == 0 || (req.last_log_idx >= pre.log@.last().entry_idx
        && req.last_log_term >= pre.log@.last().term))
}

impl Node {
    /// The follower's `RequestVote` handler: refuse a stale term, adopt the
    /// request's term, and grant the vote exactly under `vote_grant`.
    pub fn vote(&mut self, req: VoteRequest) -> (r: Result<(u64, bool), KvError>)
        requires
            old(self).wf(),
        ensures
            final(self).wf(),
            final(self).current_term >= old(self).current_term,
            r == Ok::<(u64, bool), KvError>(
                (
                    if req.term < old(self).current_term {
                        old(self).current_term
                    } else {
                        req.term
                    },
                    vote_grant(*old(self), req),
                ),
            ),
            final(self).current_term == (if req.term < old(self).current_term {
                old(self).current_term
            } else {
                req.term
            }),
            final(self).voted_for == (if vote_grant(*old(self), req) {
                req.candidate_id
            } else {
                old(self).voted_for
            }),
            final(self).node_id == old(self).node_id,
            final(self).state == old(self).state,
            final(self).log == old(self).log,
            final(self).commit_idx == old(self).commit_idx,
            final(self).last_applied == old(self).last_applied,
            final(self).election_timer == old(self).election_timer,
            final(self).leader_id == old(self).leader_id,
            final(self).other_nodes == old(self).other_nodes,
            final(self).next_idx == old(self).next_idx,
            final(self).match_idx == old(self).match_idx,
            final(self).storage == old(self).storage,
    {
        if req.term < self.current_term {
            return Ok((self.current_term, false));
        }
        self.current_term = req.term;
        if self.voted_for != 0 && self.voted_for != req.candidate_id {
            return Ok((self.current_term, false));
        }
        let n = self.log.len();
        if n == 0 {
            self.voted_for = req.candidate_id;
            return Ok((self.current_term, true));
        }
        let last = &self.log[n - 1];
        proof {
            assert(self.log@[n - 1] == self.log@.last());
        }
        if req.last_log_idx >= last.entry_idx && req.last_log_term >= last.term {
            self.voted_for = req.candidate_id;
            return Ok((self.current_term, true));
        }
        Ok((self.current_term, false))
    }
}

/// A node grants at most one vote per term: once it has granted its vote
/// in the current term, any request of that same term from a different
/// candidate is refused.
pub proof fn lemma_one_vote_per_term(post: Node, req1: VoteRequest, req2: VoteRequest)
    requires
        post.voted_for == req1.candidate_id,
        req1.candidate_id != 0,
        req2.term == post.current_term,
        req2.candidate_id != req1.candidate_id,
    ensures
        !vote_grant(post, req2),
{
}

/// What one vote reply means for a running election.
#[derive(Clone, Copy, Debug, PartialEq, Eq, Structural)]
pub enum ElectionStep {
    /// The reply carried a newer term: the node reverted to follower.
    SteppedDown,
    /// The vote reached a majority: the node is now the leader.
    Elected,
    /// The election goes on with this many votes.
    Continue(u64),
}

/// What one append reply means for the leader.
#[derive(Clone, Copy, Debug, PartialEq, Eq, Structural)]
pub enum AppendStep {
    /// The reply carried a newer term: the node reverted to follower.
    SteppedDown,
    /// The peer accepted; its progress was advanced.
    Acked,
    /// The peer refused; its next index was moved back for the next try.
    Rejected,
}

/// The number of nodes that forms a majority of `n`.
pub fn majority_of(n: usize) -> (m: usize)
    ensures
        m == n / 2 + 1,
{
    n / 2 + 1
}

impl Node {
    /// Starts an election: the node becomes a candidate, advances its
    /// term, resets its timer and votes for itself.
    pub fn begin_election(&mut self)
        requires
            old(self).wf(),
            old(self).current_term < u64::MAX,
        ensures
            final(self).wf(),
            final(self).state == State::CANDIDATE,
            final(self).current_term == old(self).current_term + 1,
            final(self).voted_for == old(self).node_id,
            final(self).election_timer == timer_reset_spec(old(self).node_id),
            final(self).node_id == old(self).node_id,
            final(self).log == old(self).log,
            final(self).commit_idx == old(self).commit_idx,
            final(self).last_applied == old(self).last_applied,
            final(self).leader_id == old(self).leader_id,
            final(self).other_nodes == old(self).other_nodes,
            final(self).next_idx == old(self).next_idx,
            final(self).match_idx == old(self).match_idx,
            final(self).storage == old(self).storage,
    {
        self.state = State::CANDIDATE;
        self.current_term = self.current_term + 1;
        self.election_timer = get_timer_reset(self.node_id);
        self.voted_for = self.node_id;
    }

    /// The vote request this candidate sends to `peer`: its current term
    /// and the index and term of its last log entry (zero for an empty
    /// log).
    pub fn make_vote_request(&self, peer: u64) -> (r: VoteRequest)
        ensures
            r.node == peer,
            r.term == self.current_term,
            r.candidate_id == self.node_id,
            r.last_log_idx == if self.log@.len() == 0 {
                0
            } else {
                self.log@.last().entry_idx
            },
            r.last_log_term == if self.log@.len() == 0 {
                0
            } else {
                self.log@.last().term
            },
    {
        let n = self.log.len();
        let mut last_log_idx: u64 = 0;
        let mut last_log_term: u64 = 0;
        if n > 0 {
            proof {
                assert(self.log@[n - 1] == self.log@.last());
            }
            last_log_idx = self.log[n - 1].entry_idx;
            last_log_term = self.log[n - 1].term;
        }
        VoteRequest {
            node: peer,
            term: self.current_term,
            candidate_id: self.node_id,
            last_log_idx,
            last_log_term,
        }
    }

    /// Takes one vote reply: a newer term ends the candidacy, a majority
    /// makes this node the leader (with every peer's next index at the end
    /// of the log), anything else continues the count.
    pub fn handle_vote_response(&mut self, resp: NodeResponse, votes: u64, majority: u64) -> (r:
        ElectionStep)
        requires
            old(self).wf(),
            votes < u64::MAX,
        ensures
            final(self).wf(),
            final(self).current_term >= old(self).current_term,
            final(self).node_id == old(self).node_id,
            final(self).log == old(self).log,
            final(self).commit_idx == old(self).commit_idx,
            final(self).last_applied == old(self).last_applied,
            final(self).other_nodes == old(self).other_nodes,
            final(self).storage == old(self).storage,
            resp.term > old(self).current_term ==> r == ElectionStep::SteppedDown && final(self).state == State::FOLLOWER && final(self).current_term == resp.term && final(self).voted_for == 0 && final(self).election_timer == timer_reset_spec(
                old(self).node_id,
            ) && final(self).next_idx == old(self).next_idx && final(self).match_idx == old(self).match_idx,
            resp.term <= old(self).current_term ==> {
                let v = if resp.accepted {
                    (votes + 1) as u64
                } else {
                    votes
                };
                &&& final(self).current_term == old(self).current_term
                &&& final(self).voted_for == old(self).voted_for
                &&& (v >= majority ==> r == ElectionStep::Elected && final(self).state
                    == State::LEADER && (forall|i: int|
                    0 <= i < final(self).next_idx@.len() ==> (#[trigger] final(self).next_idx@[i]) == final(self).log@.len()) && (forall|i: int|
                    0 <= i < final(self).match_idx@.len() ==> (#[trigger] final(self).match_idx@[i]) == 0))
                &&& (v < majority ==> r == ElectionStep::Continue(v) && *final(self) == *old(self))
            },
    {
        if resp.term > self.current_term {
            self.voted_for = 0;
            self.current_term = resp.term;
            self.election_timer = get_timer_reset(self.node_id);
            self.state = State::FOLLOWER;
            return ElectionStep::SteppedDown;
        }
        let v = if resp.accepted {
            votes + 1
        } else {
            votes
        };
        if v >= majority {
            self.state = State::LEADER;
            let len64 = self.log.len() as u64;
            let peers = self.other_nodes.len();
            let mut next_idx: Vec<u64> = Vec::new();
            let mut match_idx: Vec<u64> = Vec::new();
            let mut j: usize = 0;
            while j < peers
                invariant
                    j <= peers,
                    next_idx@.len() == j,
                    match_idx@.len() == j,
                    forall|i: int| 0 <= i < j ==> (#[trigger] next_idx@[i]) == len64,
                    forall|i: int| 0 <= i < j ==> (#[trigger] match_idx@[i]) == 0,
                decreases peers - j,
            {
                next_idx.push(len64);
                match_idx.push(0);
                j = j + 1;
            }
            self.next_idx = next_idx;
            self.match_idx = match_idx;
            return ElectionStep::Elected;
        }
        ElectionStep::Continue(v)
    }

    /// Ends a failed election: the node reverts to follower and clears its
    /// vote.
    pub fn election_failed(&mut self)
        requires
            old(self).wf(),
        ensures
            final(self).wf(),
            final(self).state == State::FOLLOWER,
            final(self).voted_for == 0,
            final(self).current_term == old(self).current_term,
            final(self).node_id == old(self).node_id,
            final(self).log == old(self).log,
            final(self).commit_idx == old(self).commit_idx,
            final(self).last_applied == old(self).last_applied,
            final(self).election_timer == old(self).election_timer,
            final(self).leader_id == old(self).leader_id,
            final(self).other_nodes == old(self).other_nodes,
            final(self).next_idx == old(self).next_idx,
            final(self).match_idx == old(self).match_idx,
            final(self).storage == old(self).storage,
    {
        self.state = State::FOLLOWER;
        self.voted_for = 0;
    }

    /// Appends one client command to the leader's own log, with the
    /// current term and the next index.  The commit index does not move:
    /// it advances only once a majority has acknowledged replication.
    pub fn add_request_to_log(&mut self, req: &str) -> (r: Result<(), KvError>)
        requires
            old(self).wf(),
        ensures
            final(self).wf(),
            r is Ok,
            final(self).log@.len() == old(self).log@.len() + 1,
            final(self).log@ == old(self).log@.push(final(self).log@.last()),
            final(self).log@.last().term == old(self).current_term,
            final(self).log@.last().entry@ == req@,
            final(self).log@.last().entry_idx == old(self).log@.len(),
            final(self).current_term == old(self).current_term,
            final(self).state == old(self).state,
            final(self).voted_for == old(self).voted_for,
            final(self).commit_idx == old(self).commit_idx,
            final(self).last_applied == old(self).last_applied,
            final(self).node_id == old(self).node_id,
            final(self).leader_id == old(self).leader_id,
            final(self).election_timer == old(self).election_timer,
            final(self).other_nodes == old(self).other_nodes,
            final(self).next_idx == old(self).next_idx,
            final(self).match_idx == old(self).match_idx,
            final(self).storage == old(self).storage,
    {
        let idx = self.log.len() as u64;
        let entry = LogEntry { term: self.current_term, entry: req.to_owned(), entry_idx: idx };
        self.log.push(entry);
        Ok(())
    }

    /// The append request for the peer at `peer_index`: the log sliced
    /// from that peer's next index on, with the entry just before the
    /// slice as the consistency check (zero fields when there is none).
    pub fn build_append_request(&self, peer_index: usize) -> (r: AppendEntriesRequest)
        requires
            self.wf(),
            peer_index < self.other_nodes@.len(),
        ensures
            r.node == self.other_nodes@[peer_index as int],
            r.term == self.current_term,
            r.leader_id == self.node_id,
            r.lead_commit == self.commit_idx,
            ({
                let next = self.next_idx@[peer_index as int];
                &&& (self.log@.len() > next ==> r.entries@ == self.log@.subrange(
                    next as int,
                    self.log@.len() as int,
                ))
                &&& (self.log@.len() <= next ==> r.entries@ == Seq::<LogEntry>::empty())
                &&& (next > 0 && next <= self.log@.len() ==> r.prev_log_idx == self.log@[next
                    - 1].entry_idx && r.prev_log_term == self.log@[next - 1].term)
                &&& (next == 0 || next > self.log@.len() ==> r.prev_log_idx == 0
                    && r.prev_log_term == 0)
            }),
    {
        let next = self.next_idx[peer_index];
        let len = self.log.len();
        let mut entries: Vec<LogEntry> = Vec::new();
        if (len as u64) > next {
            let start = next as usize;
            let mut i: usize = start;
            while i < len
                invariant
                    start <= i <= len,
                    len == self.log@.len(),
                    entries@ =~= self.log@.subrange(start as int, i as int),
                decreases len - i,
            {
                entries.push(self.log[i].dup());
                proof {
                    assert(self.log@.subrange(start as int, i + 1) =~= self.log@.subrange(
                        start as int,
                        i as int,
                    ).push(self.log@[i as int]));
                }
                i = i + 1;
            }
        }
        let mut prev_log_idx: u64 = 0;
        let mut prev_log_term: u64 = 0;
        if next > 0 && next <= len as u64 {
            let pi = (next - 1) as usize;
            prev_log_idx = self.log[pi].entry_idx;
            prev_log_term = self.log[pi].term;
        }
        AppendEntriesRequest {
            node: self.other_nodes[peer_index],
            term: self.current_term,
            leader_id: self.node_id,
            prev_log_idx,
            prev_log_term,
            entries,
            lead_commit: self.commit_idx,
        }
    }

    /// Takes one append reply for the peer at `peer_index`: a newer term
    /// dethrones the leader; acceptance advances the peer's progress when
    /// entries were sent; rejection moves its next index back one step,
    /// but not below its match index.
    pub fn handle_append_response(
        &mut self,
        peer_index: usize,
        entries_len: u64,
        resp: NodeResponse,
    ) -> (r: AppendStep)
        requires
            old(self).wf(),
            peer_index < old(self).other_nodes@.len(),
        ensures
            final(self).wf(),
            final(self).current_term >= old(self).current_term,
            final(self).node_id == old(self).node_id,
            final(self).log == old(self).log,
            final(self).commit_idx == old(self).commit_idx,
            final(self).last_applied == old(self).last_applied,
            final(self).voted_for == old(self).voted_for,
            final(self).leader_id == old(self).leader_id,
            final(self).election_timer == old(self).election_timer,
            final(self).other_nodes == old(self).other_nodes,
            final(self).storage == old(self).storage,
            resp.term > old(self).current_term ==> r == AppendStep::SteppedDown && final(self).state == State::FOLLOWER && final(self).current_term == resp.term && final(self).next_idx == old(self).next_idx && final(self).match_idx == old(self).match_idx,
            resp.term <= old(self).current_term ==> {
                &&& final(self).state == old(self).state
                &&& final(self).current_term == old(self).current_term
                &&& (resp.accepted ==> r == AppendStep::Acked && final(self).match_idx@.len()
                    == old(self).match_idx@.len() && (entries_len > 0 && old(self).log@.len() > 0
                    ==> final(self).next_idx@ == old(self).next_idx@.update(
                    peer_index as int,
                    old(self).log@.len() as u64,
                ) && final(self).match_idx@ == old(self).match_idx@.update(
                    peer_index as int,
                    (old(self).log@.len() - 1) as u64,
                )) && (!(entries_len > 0 && old(self).log@.len() > 0) ==> final(self).next_idx
                    == old(self).next_idx && final(self).match_idx == old(self).match_idx))
                &&& (!resp.accepted ==> r == AppendStep::Rejected && final(self).match_idx == old(self).match_idx && final(self).next_idx@ == old(self).next_idx@.update(
                    peer_index as int,
                    ({
                        let next = old(self).next_idx@[peer_index as int];
                        let mtch = old(self).match_idx@[peer_index as int];
                        if next > 0 {
                            if next - 1 > mtch {
                                (next - 1) as u64
                            } else {
                                mtch
                            }
                        } else {
                            0u64
                        }
                    }),
                ))
            },
    {
        if resp.term > self.current_term {
            self.state = State::FOLLOWER;
            self.current_term = resp.term;
            return AppendStep::SteppedDown;
        }
        if resp.accepted {
            if entries_len > 0 && self.log.len() > 0 {
                let len64 = self.log.len() as u64;
                self.next_idx.set(peer_index, len64);
                self.match_idx.set(peer_index, len64 - 1);
            }
            return AppendStep::Acked;
        }
        let next = self.next_idx[peer_index];
        let mtch = self.match_idx[peer_index];
        let ni: u64 = if next > 0 {
            if next - 1 > mtch {
                next - 1
            } else {
                mtch
            }
        } else {
            0
        };
        self.next_idx.set(peer_index, ni);
        AppendStep::Rejected
    }

    /// Commits the leader's log once `acks` acknowledgements have arrived:
    /// with a majority the commit index advances to the end of the log and
    /// the committed entries are applied; short of one the attempt fails
    /// as not replicated, to be retried on a later heartbeat.
    pub fn leader_commit(&mut self, acks: u64, majority: u64) -> (r: Result<
        Vec<(u64, String)>,
        KvError,
    >)
        requires
            old(self).wf(),
        ensures
            final(self).wf(),
            final(self).current_term == old(self).current_term,
            final(self).log == old(self).log,
            final(self).state == old(self).state,
            final(self).node_id == old(self).node_id,
            final(self).voted_for == old(self).voted_for,
            final(self).other_nodes == old(self).other_nodes,
            final(self).next_idx == old(self).next_idx,
            final(self).match_idx == old(self).match_idx,
            acks < majority ==> r == Err::<Vec<(u64, String)>, KvError>(KvError::NotReplicated)
                && *final(self) == *old(self),
            acks >= majority ==> {
                &&& final(self).commit_idx == old(self).log@.len()
                &&& final(self).commit_idx >= old(self).commit_idx || old(self).commit_idx > old(self).log@.len()
                &&& Some(final(self).storage.view_map()) == apply_window(
                    old(self).storage.view_map(),
                    old(self).log@,
                    old(self).last_applied as int,
                    final(self).last_applied as int,
                )
                &&& match r {
                    Ok(pairs) => {
                        &&& final(self).last_applied == old(self).log@.len()
                        &&& pairs@.len() == final(self).last_applied - old(self).last_applied
                        &&& forall|l: int|
                            0 <= l < pairs@.len() ==> (#[trigger] pairs@[l]).0 == old(
                                self,
                            ).log@[old(self).last_applied + l].term && pairs@[l].1@ == old(
                                self,
                            ).log@[old(self).last_applied + l].entry@
                    },
                    Err(e) => final(self).last_applied < old(self).log@.len() && apply_refused(
                        e,
                        old(self).log@[final(self).last_applied as int].entry@,
                        final(self).storage.clock,
                        final(self).storage.next_tag,
                    ),
                }
            },
    {
        if acks >= majority {
            let len64 = self.log.len() as u64;
            self.commit_idx = len64;
            let pairs = self.apply_committed()?;
            Ok(pairs)
        } else {
            Err(KvError::NotReplicated)
        }
    }
}

/// A committed entry is never overwritten on the leader that committed
/// it: of the leader's operations, only appending a client command
/// changes the log at all, and a push leaves every position below the
/// commit index exactly as it was; the replication bookkeeping and the
/// commit step leave the log untouched, as their contracts state.
pub proof fn lemma_leader_completeness(pre_log: Seq<LogEntry>, e: LogEntry, commit: u64)
    requires
        commit <= pre_log.len(),
    ensures
        pre_log.push(e).take(commit as int) == pre_log.take(commit as int),
{
    assert(pre_log.push(e).take(commit as int) =~= pre_log.take(commit as int));
}

/// Whether every log entry sits at the position its index names.
pub open spec fn well_indexed(log: Seq<LogEntry>) -> bool {
    forall|i: int| 0 <= i < log.len() ==> (#[trigger] log[i]).entry_idx == i
}

/// Whether two logs agree below every position where they share a term:
/// the log-matching property.
pub open spec fn logs_match(a: Seq<LogEntry>, b: Seq<LogEntry>) -> bool {
    forall|i: int|
        0 <= i < a.len() && i < b.len() && (#[trigger] a[i]).term == (#[trigger] b[i]).term
            ==> a.take(i + 1) == b.take(i + 1)
}

/// The shape of the follower's log after taking in a contiguous slice:
/// the slice lands at its own indices, everything else stays.
proof fn lemma_apply_entries_shape(log: Seq<LogEntry>, entries: Seq<LogEntry>, next: int, n0: nat)
    requires
        0 <= next,
        n0 <= log.len(),
        log.len() == if next > n0 {
            next
        } else {
            n0 as int
        },
        forall|j: int| 0 <= j < entries.len() ==> (#[trigger] entries[j]).entry_idx == next + j,
        next + entries.len() <= u64::MAX,
    ensures
        apply_entries_from(log, entries, n0).len() == if next + entries.len() > log.len() {
            next + entries.len()
        } else {
            log.len() as int
        },
        forall|i: int|
            0 <= i < log.len() && !(next <= i < next + entries.len())
                ==> apply_entries_from(log, entries, n0)[i] == log[i],
        forall|j: int|
            0 <= j < entries.len() ==> apply_entries_from(log, entries, n0)[next + j]
                == entries[j],
    decreases entries.len(),
{
    if entries.len() > 0 {
        let e = entries[0];
        let log2 = entry_step(log, e, n0);
        let rest = entries.drop_first();
        assert(forall|j: int|
            0 <= j < rest.len() ==> rest[j] == entries[j + 1] && (#[trigger] rest[j]).entry_idx
                == next + 1 + j);
        if e.entry_idx < n0 {
            assert(log2 =~= log.update(next, e));
        } else {
            assert(next >= n0);
            assert(log.len() == next);
            assert(log2 =~= log.push(e));
        }
        lemma_apply_entries_shape(log2, rest, next + 1, n0);
        let r = apply_entries_from(log, entries, n0);
        assert(r == apply_entries_from(log2, rest, n0));
        assert forall|i: int|
            0 <= i < log.len() && !(next <= i < next + entries.len()) implies r[i] == log[i] by {
            assert(r[i] == log2[i]);
            assert(log2[i] == log[i]);
        }
        assert forall|j: int| 0 <= j < entries.len() implies r[next + j] == entries[j] by {
            if j == 0 {
                assert(r[next] == log2[next]);
                assert(log2[next] == e);
            } else {
                assert(r[next + j] == rest[j - 1]);
                assert(rest[j - 1] == entries[j]);
            }
        }
    }
}

/// The log-matching step: a follower whose log matched the leader's, and
/// which accepted a slice of the leader's log after checking the entry
/// just before the slice, matches the leader's log afterwards too.  (The
/// hypothesis on the entry before the slice is the handler's consistency
/// check; when the slice starts at position one, the wire form cannot
/// express that check, so the hypothesis is required here directly.)
pub proof fn lemma_log_matching(leader: Seq<LogEntry>, follower: Seq<LogEntry>, next: int)
    requires
        well_indexed(leader),
        0 <= next <= leader.len(),
        next <= follower.len(),
        leader.len() <= u64::MAX,
        logs_match(leader, follower),
        next > 0 ==> next - 1 < follower.len() && follower[next - 1].term == leader[next
            - 1].term,
    ensures
        logs_match(
            leader,
            apply_entries_spec(follower, leader.subrange(next, leader.len() as int)),
        ),
{
    let entries = leader.subrange(next, leader.len() as int);
    let f2 = apply_entries_spec(follower, entries);
    assert(forall|j: int|
        0 <= j < entries.len() ==> (#[trigger] entries[j]).entry_idx == next + j);
    lemma_apply_entries_shape(follower, entries, next, follower.len() as nat);
    if next > 0 {
        assert(follower.take(next) == leader.take(next)) by {
            assert(follower[next - 1].term == leader[next - 1].term);
        }
    }
    assert forall|i: int|
        0 <= i < leader.len() && i < f2.len() && (#[trigger] leader[i]).term == (
        #[trigger] f2[i]).term implies leader.take(i + 1) == f2.take(i + 1) by {
        if i < next {
            assert(f2[i] == follower[i]);
            assert(leader.take(i + 1) == follower.take(i + 1));
            assert(f2.take(i + 1) =~= follower.take(i + 1));
        } else {
            assert forall|j: int| next <= j <= i implies f2[j] == leader[j] by {
                assert(f2[j] == entries[j - next]);
                assert(entries[j - next] == leader[j]);
            }
            assert(f2.take(i + 1) =~= leader.take(i + 1)) by {
                if next > 0 {
                    assert(forall|j: int|
                        0 <= j < next ==> f2[j] == follower[j] && follower.take(next)[j]
                            == leader.take(next)[j]);
                }
            }
        }
    }
}

/// What a follower answers: the two RPCs.  At this level the contract
/// states the term's monotonicity; `Node`'s own methods carry the full
/// contracts.
pub trait Follower: Sized {
    spec fn fol_wf(&self) -> bool;

    spec fn fol_term(&self) -> u64;

    fn append_entries(&mut self, req: AppendEntriesRequest) -> (r: Result<(u64, bool), KvError>)
        requires
            old(self).fol_wf(),
        ensures
            final(self).fol_wf(),
            final(self).fol_term() >= old(self).fol_term(),
    ;

    fn vote(&mut self, req: VoteRequest) -> (r: Result<(u64, bool), KvError>)
        requires
            old(self).fol_wf(),
        ensures
            final(self).fol_wf(),
            final(self).fol_term() >= old(self).fol_term(),
    ;
}

/// What a leader accepts from clients: a command to append to its log.
pub trait Leader: Sized {
    spec fn lead_wf(&self) -> bool;

    fn add_request_to_log(&mut self, req: &str) -> (r: Result<(), KvError>)
        requires
            old(self).lead_wf(),
        ensures
            final(self).lead_wf(),
    ;
}

impl Follower for Node {
    open spec fn fol_wf(&self) -> bool {
        self.wf()
    }

    open spec fn fol_term(&self) -> u64 {
        self.current_term
    }

    fn append_entries(&mut self, req: AppendEntriesRequest) -> Result<(u64, bool), KvError> {
        Node::append_entries(self, req)
    }

    fn vote(&mut self, req: VoteRequest) -> Result<(u64, bool), KvError> {
        Node::vote(self, req)
    }
}

impl Leader for Node {
    open spec fn lead_wf(&self) -> bool {
        self.wf()
    }

    fn add_request_to_log(&mut self, req: &str) -> Result<(), KvError> {
        Node::add_request_to_log(self, req)
    }
}

/// A fresh follower for node `id` in a cluster of `nodes` over the given
/// storage engine, with the saved applied-log records reloaded: the log is
/// rebuilt with sequential indices and both the commit index and the
/// applied index stand at its length, as everything persisted was applied
/// before it was written.
pub fn new_node(id: u64, nodes: Vec<u64>, storage: BitCask, saved: Vec<(u64, String)>) -> (r:
    Result<Node, KvError>)
    requires
        storage.wf(),
    ensures
        match r {
            Ok(n) => {
                &&& n.wf()
                &&& n.node_id == id
                &&& n.state == State::FOLLOWER
                &&& n.current_term == 0
                &&& n.voted_for == 0
                &&& n.leader_id == 0
                &&& n.election_timer == timer_reset_spec(id)
                &&& n.other_nodes@ == nodes@
                &&& n.log@.len() == saved@.len()
                &&& forall|i: int|
                    0 <= i < saved@.len() ==> (#[trigger] n.log@[i]).term == saved@[i].0
                        && n.log@[i].entry@ == saved@[i].1@ && n.log@[i].entry_idx == i
                &&& n.commit_idx == saved@.len()
                &&& n.last_applied == saved@.len()
                &&& n.storage == storage
                &&& forall|i: int| 0 <= i < nodes@.len() ==> (#[trigger] n.next_idx@[i]) == 0
                &&& forall|i: int| 0 <= i < nodes@.len() ==> (#[trigger] n.match_idx@[i]) == 0
            },
            Err(_) => false,
        },
{
    let mut log: Vec<LogEntry> = Vec::new();
    let mut i: usize = 0;
    while i < saved.len()
        invariant
            i <= saved@.len(),
            log@.len() == i,
            forall|j: int|
                0 <= j < i ==> (#[trigger] log@[j]).term == saved@[j].0 && log@[j].entry@
                    == saved@[j].1@ && log@[j].entry_idx == j,
        decreases saved@.len() - i,
    {
        log.push(
            LogEntry { term: saved[i].0, entry: saved[i].1.clone(), entry_idx: i as u64 },
        );
        i = i + 1;
    }
    let n = saved.len() as u64;
    let mut next_idx: Vec<u64> = Vec::new();
    let mut match_idx: Vec<u64> = Vec::new();
    let mut j: usize = 0;
    while j < nodes.len()
        invariant
            j <= nodes@.len(),
            next_idx@.len() == j,
            match_idx@.len() == j,
            forall|i: int| 0 <= i < j ==> (#[trigger] next_idx@[i]) == 0,
            forall|i: int| 0 <= i < j ==> (#[trigger] match_idx@[i]) == 0,
        decreases nodes@.len() - j,
    {
        next_idx.push(0);
        match_idx.push(0);
        j = j + 1;
    }
    let timer = get_timer_reset(id);
    Ok(
        Node {
            node_id: id,
            state: State::FOLLOWER,
            current_term: 0,
            voted_for: 0,
            log,
            commit_idx: n,
            last_applied: n,
            election_timer: timer,
            leader_id: 0,
            other_nodes: nodes,
            next_idx,
            match_idx,
            storage,
        },
    )
}

} // verus!
