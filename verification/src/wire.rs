//! The peer RPC shapes and their text forms.
//!
//! An `AppendEntries` body is five comma-separated integers, a `+`-joined
//! list of log-entry texts and the leader's commit index; a `RequestVote`
//! body is five comma-separated integers; a reply is `term,accepted`.  A
//! log entry's own text is `term|entry|entry_idx`.

use vstd::prelude::*;
use crate::command::LogEntry;
use crate::error::KvError;
use crate::text::{all_digits, dec_digits, dec_val, parse_dec_u64, push_dec_u64, split_at,
    split_chars, str_to_chars, chars_to_string, eq_chars};

verus! {

/// The number a field denotes, or zero when it is no valid number: how
/// the log-entry text form reads its integer fields.
pub open spec fn dec_or_zero(s: Seq<char>) -> u64 {
    if s.len() >= 1 && all_digits(s) && dec_val(s) <= u64::MAX {
        dec_val(s) as u64
    } else {
        0
    }
}

/// The number a field denotes, when it is one: how the request forms read
/// their integer fields.
pub open spec fn parse_u64_strict(s: Seq<char>) -> Option<u64> {
    if s.len() >= 1 && all_digits(s) && dec_val(s) <= u64::MAX {
        Some(dec_val(s) as u64)
    } else {
        None
    }
}

/// The text of one log entry: `term|entry|entry_idx`.
pub open spec fn log_entry_chars(term: u64, entry: Seq<char>, idx: u64) -> Seq<char> {
    dec_digits(term as nat) + seq!['|'] + entry + seq!['|'] + dec_digits(idx as nat)
}

/// What parsing a log entry text yields: its first three `|`-separated
/// fields, the numeric ones read leniently (zero when malformed), or
/// nothing when there are fewer than three fields.
pub open spec fn parse_log_entry_chars(s: Seq<char>) -> Option<(u64, Seq<char>, u64)> {
    let p = split_at(s, '|');
    if p.len() < 3 {
        None
    } else {
        Some((dec_or_zero(p[0]), p[1], dec_or_zero(p[2])))
    }
}

impl LogEntry {
    /// The entry's text form `term|entry|entry_idx`.
    pub fn encode(&self) -> (r: String)
        ensures
            r@ == log_entry_chars(self.term, self.entry@, self.entry_idx),
    {
        let mut out: Vec<char> = Vec::new();
        push_dec_u64(&mut out, self.term);
        out.push('|');
        let mut ec = str_to_chars(self.entry.as_str());
        let mut j: usize = 0;
        while j < ec.len()
            invariant
                j <= ec@.len(),
                ec@ == self.entry@,
                out@ =~= dec_digits(self.term as nat) + seq!['|'] + ec@.take(j as int),
            decreases ec@.len() - j,
        {
            let c = ec[j];
            out.push(c);
            proof {
                assert(ec@.take(j + 1) =~= ec@.take(j as int).push(c));
            }
            j = j + 1;
        }
        proof {
            assert(ec@.take(ec@.len() as int) =~= ec@);
        }
        out.push('|');
        push_dec_u64(&mut out, self.entry_idx);
        proof {
            assert(out@ =~= log_entry_chars(self.term, self.entry@, self.entry_idx));
        }
        chars_to_string(&out)
    }

    /// Parses an entry's text form back.  Numeric fields that are not
    /// numbers read as zero; fewer than three fields is `InvalidInput`.
    pub fn decode(s: &str) -> (r: Result<LogEntry, KvError>)
        ensures
            match r {
                Ok(e) => parse_log_entry_chars(s@) == Some((e.term, e.entry@, e.entry_idx)),
                Err(er) => parse_log_entry_chars(s@) is None && er == KvError::InvalidInput,
            },
    {
        let chars = str_to_chars(s);
        let parts = split_chars(&chars, '|');
        if parts.len() < 3 {
            return Err(KvError::InvalidInput);
        }
        proof {
            assert(parts.deep_view()[0] == parts@[0]@);
            assert(parts.deep_view()[1] == parts@[1]@);
            assert(parts.deep_view()[2] == parts@[2]@);
        }
        let term = parse_dec_u64_or_zero(&parts[0]);
        let idx = parse_dec_u64_or_zero(&parts[2]);
        let entry = chars_to_string(&parts[1]);
        Ok(LogEntry { term, entry, entry_idx: idx })
    }
}

/// The number the whole vector denotes, or zero when it is not a number.
fn parse_dec_u64_or_zero(v: &Vec<char>) -> (r: u64)
    ensures
        r == dec_or_zero(v@),
{
    proof {
        assert(v@.subrange(0, v@.len() as int) =~= v@);
    }
    match parse_dec_u64(v, 0, v.len()) {
        Some(x) => x,
        None => 0,
    }
}

/// The number the whole vector denotes, if it is one.
fn parse_dec_u64_strict(v: &Vec<char>) -> (r: Option<u64>)
    ensures
        r == parse_u64_strict(v@),
{
    proof {
        assert(v@.subrange(0, v@.len() as int) =~= v@);
    }
    parse_dec_u64(v, 0, v.len())
}

/// A leader's request that a follower append entries (or a bare
/// heartbeat).
#[derive(Debug)]
pub struct AppendEntriesRequest {
    pub node: u64,
    pub term: u64,
    pub leader_id: u64,
    pub prev_log_idx: u64,
    pub prev_log_term: u64,
    pub entries: Vec<LogEntry>,
    pub lead_commit: u64,
}

/// A candidate's request for a vote.
#[derive(Clone, Copy, Debug, PartialEq, Eq, Structural)]
pub struct VoteRequest {
    pub node: u64,
    pub term: u64,
    pub candidate_id: u64,
    pub last_log_idx: u64,
    pub last_log_term: u64,
}

/// A peer's reply to either request.
#[derive(Clone, Copy, Debug, PartialEq, Eq, Structural)]
pub struct NodeResponse {
    pub term: u64,
    pub accepted: bool,
}

/// The fields of a list of log entries.
pub open spec fn entry_views(es: Seq<LogEntry>) -> Seq<(u64, Seq<char>, u64)> {
    Seq::new(es.len(), |i: int| (es[i].term, es[i].entry@, es[i].entry_idx))
}

/// The text of a request's entries: each entry's text prefixed with `+`.
pub open spec fn entries_blob_chars(es: Seq<LogEntry>) -> Seq<char>
    decreases es.len(),
{
    if es.len() == 0 {
        Seq::empty()
    } else {
        seq!['+'] + log_entry_chars(es[0].term, es[0].entry@, es[0].entry_idx)
            + entries_blob_chars(es.drop_first())
    }
}

/// One more entry folds onto the end of the blob.
proof fn lemma_blob_snoc(es: Seq<LogEntry>, e: LogEntry)
    ensures
        entries_blob_chars(es.push(e)) == entries_blob_chars(es) + seq!['+'] + log_entry_chars(
            e.term,
            e.entry@,
            e.entry_idx,
        ),
    decreases es.len(),
{
    reveal_with_fuel(entries_blob_chars, 3);
    if es.len() == 0 {
        assert(es.push(e)[0] == e);
        assert(es.push(e).drop_first() =~= Seq::<LogEntry>::empty());
        assert(entries_blob_chars(es.push(e)) =~= entries_blob_chars(es) + seq!['+']
            + log_entry_chars(e.term, e.entry@, e.entry_idx));
    } else {
        assert(es.push(e)[0] == es[0]);
        assert(es.push(e).drop_first() =~= es.drop_first().push(e));
        lemma_blob_snoc(es.drop_first(), e);
        assert(entries_blob_chars(es.push(e)) =~= entries_blob_chars(es) + seq!['+']
            + log_entry_chars(e.term, e.entry@, e.entry_idx));
    }
}

/// The text of an `AppendEntries` request: five comma-separated integers,
/// the entries blob, and the leader's commit index.
pub open spec fn ae_chars(req: AppendEntriesRequest) -> Seq<char> {
    dec_digits(req.node as nat) + seq![','] + dec_digits(req.term as nat) + seq![','] + dec_digits(
        req.leader_id as nat,
    ) + seq![','] + dec_digits(req.prev_log_idx as nat) + seq![','] + dec_digits(
        req.prev_log_term as nat,
    ) + seq![','] + entries_blob_chars(req.entries@) + seq![','] + dec_digits(
        req.lead_commit as nat,
    )
}

/// The text of a `RequestVote` request: five comma-separated integers.
pub open spec fn vr_chars(req: VoteRequest) -> Seq<char> {
    dec_digits(req.node as nat) + seq![','] + dec_digits(req.term as nat) + seq![','] + dec_digits(
        req.candidate_id as nat,
    ) + seq![','] + dec_digits(req.last_log_idx as nat) + seq![','] + dec_digits(
        req.last_log_term as nat,
    )
}

/// The text of a reply: `term,accepted`.
pub open spec fn response_chars(resp: NodeResponse) -> Seq<char> {
    dec_digits(resp.term as nat) + seq![','] + (if resp.accepted {
        "true"@
    } else {
        "false"@
    })
}

/// What parsing the `+`-separated pieces of an entries blob yields: empty
/// pieces are skipped, every other must be an entry text.
pub open spec fn parse_entry_pieces(ps: Seq<Seq<char>>) -> Option<Seq<(u64, Seq<char>, u64)>>
    decreases ps.len(),
{
    if ps.len() == 0 {
        Some(Seq::empty())
    } else if ps[0].len() == 0 {
        parse_entry_pieces(ps.drop_first())
    } else {
        match parse_log_entry_chars(ps[0]) {
            None => None,
            Some(e) => match parse_entry_pieces(ps.drop_first()) {
                None => None,
                Some(rest) => Some(seq![e] + rest),
            },
        }
    }
}

/// What parsing an `AppendEntries` body yields: its first seven
/// comma-separated fields, the sixth read as the entries blob, or nothing
/// when a field is missing or malformed.
pub open spec fn parse_ae_chars(s: Seq<char>) -> Option<
    (u64, u64, u64, u64, u64, Seq<(u64, Seq<char>, u64)>, u64),
> {
    let p = split_at(s, ',');
    if p.len() < 7 {
        None
    } else {
        match (
            parse_u64_strict(p[0]),
            parse_u64_strict(p[1]),
            parse_u64_strict(p[2]),
            parse_u64_strict(p[3]),
            parse_u64_strict(p[4]),
            parse_entry_pieces(split_at(p[5], '+')),
            parse_u64_strict(p[6]),
        ) {
            (
                Some(node),
                Some(term),
                Some(leader),
                Some(pidx),
                Some(pterm),
                Some(es),
                Some(commit),
            ) => Some((node, term, leader, pidx, pterm, es, commit)),
            _ => None,
        }
    }
}

/// What parsing a `RequestVote` body yields: its five comma-separated
/// integer fields.
pub open spec fn parse_vr_chars(s: Seq<char>) -> Option<(u64, u64, u64, u64, u64)> {
    let p = split_at(s, ',');
    if p.len() < 5 {
        None
    } else {
        match (
            parse_u64_strict(p[0]),
            parse_u64_strict(p[1]),
            parse_u64_strict(p[2]),
            parse_u64_strict(p[3]),
            parse_u64_strict(p[4]),
        ) {
            (Some(node), Some(term), Some(cand), Some(lidx), Some(lterm)) => Some(
                (node, term, cand, lidx, lterm),
            ),
            _ => None,
        }
    }
}

/// What parsing a reply yields: its term and whether `true` or `false`
/// follows.
pub open spec fn parse_response_chars(s: Seq<char>) -> Option<NodeResponse> {
    let p = split_at(s, ',');
    if p.len() < 2 {
        None
    } else {
        match parse_u64_strict(p[0]) {
            None => None,
            Some(term) => if p[1] == "true"@ {
                Some(NodeResponse { term, accepted: true })
            } else if p[1] == "false"@ {
                Some(NodeResponse { term, accepted: false })
            } else {
                None
            },
        }
    }
}

impl AppendEntriesRequest {
    /// The request's text form.
    pub fn encode(&self) -> (r: String)
        ensures
            r@ == ae_chars(*self),
    {
        let mut out: Vec<char> = Vec::new();
        push_dec_u64(&mut out, self.node);
        out.push(',');
        push_dec_u64(&mut out, self.term);
        out.push(',');
        push_dec_u64(&mut out, self.leader_id);
        out.push(',');
        push_dec_u64(&mut out, self.prev_log_idx);
        out.push(',');
        push_dec_u64(&mut out, self.prev_log_term);
        out.push(',');
        let ghost head = out@;
        let mut i: usize = 0;
        proof {
            assert(entries_blob_chars(self.entries@.take(0)) =~= Seq::<char>::empty());
            assert(out@ =~= head + entries_blob_chars(self.entries@.take(0)));
        }
        while i < self.entries.len()
            invariant
                i <= self.entries@.len(),
                out@ =~= head + entries_blob_chars(self.entries@.take(i as int)),
            decreases self.entries@.len() - i,
        {
            out.push('+');
            let text = self.entries[i].encode();
            let tc = str_to_chars(text.as_str());
            let mut j: usize = 0;
            let ghost mid = out@;
            while j < tc.len()
                invariant
                    j <= tc@.len(),
                    out@ =~= mid + tc@.take(j as int),
                decreases tc@.len() - j,
            {
                let c = tc[j];
                out.push(c);
                proof {
                    assert(tc@.take(j + 1) =~= tc@.take(j as int).push(c));
                }
                j = j + 1;
            }
            proof {
                assert(tc@.take(tc@.len() as int) =~= tc@);
                lemma_blob_snoc(self.entries@.take(i as int), self.entries@[i as int]);
                assert(self.entries@.take(i + 1) =~= self.entries@.take(i as int).push(
                    self.entries@[i as int],
                ));
                assert(out@ =~= head + entries_blob_chars(self.entries@.take(i + 1)));
            }
            i = i + 1;
        }
        proof {
            assert(self.entries@.take(self.entries@.len() as int) =~= self.entries@);
        }
        out.push(',');
        push_dec_u64(&mut out, self.lead_commit);
        proof {
            assert(out@ =~= ae_chars(*self));
        }
        chars_to_string(&out)
    }

    /// Parses a request's text form back.  `InvalidInput` exactly when a
    /// field is missing or malformed.
    pub fn decode(s: &str) -> (r: Result<AppendEntriesRequest, KvError>)
        ensures
            match r {
                Ok(req) => parse_ae_chars(s@) == Some(
                    (
                        req.node,
                        req.term,
                        req.leader_id,
                        req.prev_log_idx,
                        req.prev_log_term,
                        entry_views(req.entries@),
                        req.lead_commit,
                    ),
                ),
                Err(e) => parse_ae_chars(s@) is None && e == KvError::InvalidInput,
            },
    {
        let chars = str_to_chars(s);
        let parts = split_chars(&chars, ',');
        if parts.len() < 7 {
            return Err(KvError::InvalidInput);
        }
        proof {
            assert(parts.deep_view()[0] == parts@[0]@);
            assert(parts.deep_view()[1] == parts@[1]@);
            assert(parts.deep_view()[2] == parts@[2]@);
            assert(parts.deep_view()[3] == parts@[3]@);
            assert(parts.deep_view()[4] == parts@[4]@);
            assert(parts.deep_view()[5] == parts@[5]@);
            assert(parts.deep_view()[6] == parts@[6]@);
        }
        let node = match parse_dec_u64_strict(&parts[0]) {
            Some(x) => x,
            None => {
                return Err(KvError::InvalidInput);
            },
        };
        let term = match parse_dec_u64_strict(&parts[1]) {
            Some(x) => x,
            None => {
                return Err(KvError::InvalidInput);
            },
        };
        let leader_id = match parse_dec_u64_strict(&parts[2]) {
            Some(x) => x,
            None => {
                return Err(KvError::InvalidInput);
            },
        };
        let prev_log_idx = match parse_dec_u64_strict(&parts[3]) {
            Some(x) => x,
            None => {
                return Err(KvError::InvalidInput);
            },
        };
        let prev_log_term = match parse_dec_u64_strict(&parts[4]) {
            Some(x) => x,
            None => {
                return Err(KvError::InvalidInput);
            },
        };
        let lead_commit = match parse_dec_u64_strict(&parts[6]) {
            Some(x) => x,
            None => {
                return Err(KvError::InvalidInput);
            },
        };
        let pieces = split_chars(&parts[5], '+');
        let ghost piece_seqs = split_at(parts@[5]@, '+');
        let mut entries: Vec<LogEntry> = Vec::new();
        let mut i: usize = 0;
        proof {
            assert(piece_seqs.skip(0) =~= piece_seqs);
            assert(entry_views(entries@) =~= Seq::<(u64, Seq<char>, u64)>::empty());
            if parse_entry_pieces(piece_seqs) is Some {
                assert(entry_views(entries@) + parse_entry_pieces(piece_seqs)->0
                    =~= parse_entry_pieces(piece_seqs)->0);
            }
        }
        while i < pieces.len()
            invariant
                i <= pieces@.len(),
                chars@ == s@,
                split_at(s@, ',').len() >= 7,
                parse_u64_strict(split_at(s@, ',')[0]) == Some(node),
                parse_u64_strict(split_at(s@, ',')[1]) == Some(term),
                parse_u64_strict(split_at(s@, ',')[2]) == Some(leader_id),
                parse_u64_strict(split_at(s@, ',')[3]) == Some(prev_log_idx),
                parse_u64_strict(split_at(s@, ',')[4]) == Some(prev_log_term),
                parse_u64_strict(split_at(s@, ',')[6]) == Some(lead_commit),
                piece_seqs == split_at(split_at(s@, ',')[5], '+'),
                pieces.deep_view() =~= piece_seqs,
                parse_entry_pieces(piece_seqs.skip(i as int)) is Some ==> parse_entry_pieces(
                    piece_seqs,
                ) == Some(
                    entry_views(entries@) + parse_entry_pieces(piece_seqs.skip(i as int))->0,
                ),
                parse_entry_pieces(piece_seqs.skip(i as int)) is None ==> parse_entry_pieces(
                    piece_seqs,
                ) is None,
            decreases pieces@.len() - i,
        {
            proof {
                assert(pieces.deep_view()[i as int] == pieces@[i as int]@);
                assert(piece_seqs.skip(i as int)[0] == piece_seqs[i as int]);
                assert(piece_seqs.skip(i as int).drop_first() =~= piece_seqs.skip(i + 1));
            }
            if pieces[i].len() > 0 {
                let text = crate::text::chars_to_string(&pieces[i]);
                match LogEntry::decode(text.as_str()) {
                    Err(_) => {
                        proof {
                            assert(parse_entry_pieces(piece_seqs.skip(i as int)) is None);
                            assert(parse_entry_pieces(piece_seqs) is None);
                            assert(parse_ae_chars(s@) is None);
                        }
                        return Err(KvError::InvalidInput);
                    },
                    Ok(e) => {
                        let ghost old_views = entry_views(entries@);
                        let ghost ev = (e.term, e.entry@, e.entry_idx);
                        entries.push(e);
                        proof {
                            assert(entry_views(entries@) =~= old_views.push(ev));
                            if parse_entry_pieces(piece_seqs.skip(i + 1)) is Some {
                                let rest = parse_entry_pieces(piece_seqs.skip(i + 1))->0;
                                assert(parse_entry_pieces(piece_seqs.skip(i as int)) == Some(
                                    seq![ev] + rest,
                                ));
                                assert(old_views + (seq![ev] + rest) =~= entry_views(entries@)
                                    + rest);
                            }
                        }
                    },
                }
            }
            i = i + 1;
        }
        proof {
            assert(piece_seqs.skip(piece_seqs.len() as int) =~= Seq::<Seq<char>>::empty());
            assert(entry_views(entries@) + Seq::<(u64, Seq<char>, u64)>::empty() =~= entry_views(
                entries@,
            ));
        }
        Ok(
            AppendEntriesRequest {
                node,
                term,
                leader_id,
                prev_log_idx,
                prev_log_term,
                entries,
                lead_commit,
            },
        )
    }
}

impl VoteRequest {
    /// The request's text form.
    pub fn encode(&self) -> (r: String)
        ensures
            r@ == vr_chars(*self),
    {
        let mut out: Vec<char> = Vec::new();
        push_dec_u64(&mut out, self.node);
        out.push(',');
        push_dec_u64(&mut out, self.term);
        out.push(',');
        push_dec_u64(&mut out, self.candidate_id);
        out.push(',');
        push_dec_u64(&mut out, self.last_log_idx);
        out.push(',');
        push_dec_u64(&mut out, self.last_log_term);
        proof {
            assert(out@ =~= vr_chars(*self));
        }
        chars_to_string(&out)
    }

    /// Parses a request's text form back.  `InvalidInput` exactly when a
    /// field is missing or malformed.
    pub fn decode(s: &str) -> (r: Result<VoteRequest, KvError>)
        ensures
            match r {
                Ok(req) => parse_vr_chars(s@) == Some(
                    (req.node, req.term, req.candidate_id, req.last_log_idx, req.last_log_term),
                ),
                Err(e) => parse_vr_chars(s@) is None && e == KvError::InvalidInput,
            },
    {
        let chars = str_to_chars(s);
        let parts = split_chars(&chars, ',');
        if parts.len() < 5 {
            return Err(KvError::InvalidInput);
        }
        proof {
            assert(parts.deep_view()[0] == parts@[0]@);
            assert(parts.deep_view()[1] == parts@[1]@);
            assert(parts.deep_view()[2] == parts@[2]@);
            assert(parts.deep_view()[3] == parts@[3]@);
            assert(parts.deep_view()[4] == parts@[4]@);
        }
        let node = match parse_dec_u64_strict(&parts[0]) {
            Some(x) => x,
            None => {
                return Err(KvError::InvalidInput);
            },
        };
        let term = match parse_dec_u64_strict(&parts[1]) {
            Some(x) => x,
            None => {
                return Err(KvError::InvalidInput);
            },
        };
        let candidate_id = match parse_dec_u64_strict(&parts[2]) {
            Some(x) => x,
            None => {
                return Err(KvError::InvalidInput);
            },
        };
        let last_log_idx = match parse_dec_u64_strict(&parts[3]) {
            Some(x) => x,
            None => {
                return Err(KvError::InvalidInput);
            },
        };
        let last_log_term = match parse_dec_u64_strict(&parts[4]) {
            Some(x) => x,
            None => {
                return Err(KvError::InvalidInput);
            },
        };
        Ok(VoteRequest { node, term, candidate_id, last_log_idx, last_log_term })
    }
}

impl NodeResponse {
    /// The reply's text form `term,accepted`.
    pub fn encode(&self) -> (r: String)
        ensures
            r@ == response_chars(*self),
    {
        let mut out: Vec<char> = Vec::new();
        push_dec_u64(&mut out, self.term);
        out.push(',');
        let word = if self.accepted {
            str_to_chars("true")
        } else {
            str_to_chars("false")
        };
        let mut j: usize = 0;
        let ghost mid = out@;
        while j < word.len()
            invariant
                j <= word@.len(),
                out@ =~= mid + word@.take(j as int),
            decreases word@.len() - j,
        {
            let c = word[j];
            out.push(c);
            proof {
                assert(word@.take(j + 1) =~= word@.take(j as int).push(c));
            }
            j = j + 1;
        }
        proof {
            assert(word@.take(word@.len() as int) =~= word@);
            assert(out@ =~= response_chars(*self));
        }
        chars_to_string(&out)
    }

    /// Parses a reply back.  `InvalidInput` exactly when the term is no
    /// number or the flag is neither `true` nor `false`.
    pub fn decode(s: &str) -> (r: Result<NodeResponse, KvError>)
        ensures
            match r {
                Ok(resp) => parse_response_chars(s@) == Some(resp),
                Err(e) => parse_response_chars(s@) is None && e == KvError::InvalidInput,
            },
    {
        let chars = str_to_chars(s);
        let parts = split_chars(&chars, ',');
        if parts.len() < 2 {
            return Err(KvError::InvalidInput);
        }
        proof {
            assert(parts.deep_view()[0] == parts@[0]@);
            assert(parts.deep_view()[1] == parts@[1]@);
        }
        let term = match parse_dec_u64_strict(&parts[0]) {
            Some(x) => x,
            None => {
                return Err(KvError::InvalidInput);
            },
        };
        let tru = str_to_chars("true");
        let fal = str_to_chars("false");
        if eq_chars(&parts[1], &tru) {
            return Ok(NodeResponse { term, accepted: true });
        }
        if eq_chars(&parts[1], &fal) {
            return Ok(NodeResponse { term, accepted: false });
        }
        Err(KvError::InvalidInput)
    }
}

} // verus!
