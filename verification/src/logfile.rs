//! The on-disk form of a node's applied-log file.
//!
//! Each node persists the entries it has applied as records
//! `term(8) | length(8) | entry-bytes(length)`, integers big-endian.  The
//! file is append-only and is read back in full on startup.

use vstd::prelude::*;
use crate::bytes::{u64_be_bytes, u64_from_be_bytes, lemma_u64_be_bytes_roundtrip, write_u64_be,
    read_u64_be};
use crate::error::KvError;
use crate::text::{dec_digits, push_dec_u64, str_to_chars, chars_to_string};

verus! {

/// The byte image of one applied-log record.
pub open spec fn log_record_bytes(term: u64, entry: Seq<u8>) -> Seq<u8> {
    u64_be_bytes(term) + u64_be_bytes(entry.len() as u64) + entry
}

/// The byte image of a list of applied-log records, in order.
pub open spec fn log_records_bytes(recs: Seq<(u64, Seq<u8>)>) -> Seq<u8>
    decreases recs.len(),
{
    if recs.len() == 0 {
        Seq::empty()
    } else {
        log_record_bytes(recs[0].0, recs[0].1) + log_records_bytes(recs.drop_first())
    }
}

/// What decoding `data` from offset `off` yields: the records read in
/// order.  A tail too short for a record header ends the file; a complete
/// header whose entry bytes are cut off is an error, as the entry cannot be
/// recovered.
pub open spec fn decode_log_spec(data: Seq<u8>, off: nat) -> Option<Seq<(u64, Seq<u8>)>>
    decreases data.len() - off,
{
    if off + 16 > data.len() {
        Some(Seq::empty())
    } else {
        let term = u64_from_be_bytes(data.subrange(off as int, off as int + 8));
        let len = u64_from_be_bytes(data.subrange(off as int + 8, off as int + 16));
        if off + 16 + len > data.len() {
            None
        } else {
            let entry = data.subrange(off as int + 16, off as int + 16 + len);
            match decode_log_spec(data, (off + 16 + len) as nat) {
                None => None,
                Some(rest) => Some(seq![(term, entry)] + rest),
            }
        }
    }
}

/// Appends the byte image of one applied-log record to `out`.
pub fn encode_log_record(out: &mut Vec<u8>, term: u64, entry: &Vec<u8>)
    ensures
        final(out)@ == old(out)@ + log_record_bytes(term, entry@),
{
    write_u64_be(out, term);
    write_u64_be(out, entry.len() as u64);
    let ghost mid = out@;
    let mut i: usize = 0;
    while i < entry.len()
        invariant
            i <= entry@.len(),
            out@ =~= mid + entry@.take(i as int),
        decreases entry@.len() - i,
    {
        out.push(entry[i]);
        proof {
            assert(entry@.take(i + 1) =~= entry@.take(i as int).push(entry@[i as int]));
        }
        i = i + 1;
    }
    proof {
        assert(entry@.take(entry@.len() as int) =~= entry@);
        assert(final(out)@ =~= old(out)@ + log_record_bytes(term, entry@));
    }
}

/// The view of a list of `(term, entry)` records.
pub open spec fn log_record_views(recs: Seq<(u64, Vec<u8>)>) -> Seq<(u64, Seq<u8>)> {
    Seq::new(recs.len(), |i: int| (recs[i].0, recs[i].1@))
}

/// The byte image of a list of applied-log records.
pub fn encode_log_records(recs: &Vec<(u64, Vec<u8>)>) -> (out: Vec<u8>)
    ensures
        out@ == log_records_bytes(log_record_views(recs@)),
{
    let ghost all = log_record_views(recs@);
    let mut out: Vec<u8> = Vec::new();
    let mut i: usize = 0;
    proof {
        assert(all.skip(0) =~= all);
    }
    while i < recs.len()
        invariant
            i <= recs@.len(),
            all == log_record_views(recs@),
            log_records_bytes(all) =~= out@ + log_records_bytes(all.skip(i as int)),
        decreases recs@.len() - i,
    {
        proof {
            let rest = all.skip(i as int);
            assert(rest[0] == all[i as int]);
            assert(rest.drop_first() =~= all.skip(i + 1));
        }
        encode_log_record(&mut out, recs[i].0, &recs[i].1);
        i = i + 1;
    }
    proof {
        assert(all.skip(all.len() as int) =~= Seq::<(u64, Seq<u8>)>::empty());
    }
    out
}

/// Decodes an applied-log byte image.  A tail too short for a header ends
/// the file cleanly; a record whose entry bytes are cut off is
/// `InvalidData`.
pub fn decode_log_records(data: &Vec<u8>) -> (r: Result<Vec<(u64, Vec<u8>)>, KvError>)
    ensures
        match r {
            Ok(recs) => decode_log_spec(data@, 0) == Some(log_record_views(recs@)),
            Err(e) => decode_log_spec(data@, 0) is None && e == KvError::InvalidData,
        },
{
    let n = data.len();
    let mut recs: Vec<(u64, Vec<u8>)> = Vec::new();
    let mut off: usize = 0;
    while off < n && n - off >= 16
        invariant
            off <= n,
            n == data@.len(),
            decode_log_spec(data@, 0) == match decode_log_spec(data@, off as nat) {
                None => None::<Seq<(u64, Seq<u8>)>>,
                Some(rest) => Some(log_record_views(recs@) + rest),
            },
        decreases n - off,
    {
        let term = read_u64_be(data, off);
        let len64 = read_u64_be(data, off + 8);
        if len64 > (n - off - 16) as u64 {
            return Err(KvError::InvalidData);
        }
        let len = len64 as usize;
        let start = off + 16;
        let mut entry: Vec<u8> = Vec::new();
        let mut i: usize = 0;
        while i < len
            invariant
                i <= len,
                n == data@.len(),
                start + len <= n,
                entry@ =~= data@.subrange(start as int, start as int + i as int),
            decreases len - i,
        {
            entry.push(data[start + i]);
            proof {
                assert(data@.subrange(start as int, start as int + i + 1) =~= data@.subrange(
                    start as int,
                    start as int + i,
                ).push(data@[start + i]));
            }
            i = i + 1;
        }
        let ghost old_views = log_record_views(recs@);
        let ghost eview = entry@;
        recs.push((term, entry));
        proof {
            assert(log_record_views(recs@) =~= old_views.push((term, eview)));
            if decode_log_spec(data@, (off + 16 + len64) as nat) is Some {
                let rest = decode_log_spec(data@, (off + 16 + len64) as nat)->0;
                assert(decode_log_spec(data@, off as nat) == Some(seq![(term, eview)] + rest));
                assert(old_views + (seq![(term, eview)] + rest) =~= old_views.push((term, eview))
                    + rest);
            }
        }
        off = start + len;
    }
    proof {
        assert(decode_log_spec(data@, off as nat) == Some(Seq::<(u64, Seq<u8>)>::empty()));
        assert(log_record_views(recs@) + Seq::<(u64, Seq<u8>)>::empty() =~= log_record_views(
            recs@,
        ));
    }
    Ok(recs)
}

/// Encoding applied-log records and decoding the bytes yields the same
/// records.
pub proof fn lemma_log_roundtrip(recs: Seq<(u64, Seq<u8>)>, data: Seq<u8>, base: u64)
    requires
        data.len() <= u64::MAX,
        base + log_records_bytes(recs).len() == data.len(),
        data.skip(base as int) == log_records_bytes(recs),
        forall|i: int| 0 <= i < recs.len() ==> (#[trigger] recs[i]).1.len() <= u64::MAX,
    ensures
        decode_log_spec(data, base as nat) == Some(recs),
    decreases recs.len(),
{
    if recs.len() == 0 {
        assert(decode_log_spec(data, base as nat) == Some(Seq::<(u64, Seq<u8>)>::empty()));
        assert(recs =~= Seq::<(u64, Seq<u8>)>::empty());
    } else {
        let (term, entry) = recs[0];
        let rest = recs.drop_first();
        let head = log_record_bytes(term, entry);
        let tailbytes = log_records_bytes(rest);
        let len64 = entry.len() as u64;
        lemma_u64_be_bytes_roundtrip(term);
        lemma_u64_be_bytes_roundtrip(len64);
        let h0 = u64_be_bytes(term);
        let h1 = u64_be_bytes(len64);
        assert(head.len() == 16 + entry.len());
        assert forall|k: int| 0 <= k < head.len() + tailbytes.len() implies data[base + k] == (head
            + tailbytes)[k] by {
            assert(data.skip(base as int)[k] == data[base + k]);
        }
        assert forall|k: int| 0 <= k < head.len() implies data[base + k] == head[k] by {
            assert((head + tailbytes)[k] == head[k]);
        }
        assert forall|j: int| 0 <= j < 8 implies head[8 + j] == h1[j] by {
            assert(head[8 + j] == (h0 + h1)[8 + j]);
            assert((h0 + h1)[8 + j] == h1[j]);
        }
        assert(data.subrange(base as int, base as int + 8) =~= h0);
        assert(data.subrange(base as int + 8, base as int + 16) =~= h1);
        assert forall|j: int| 0 <= j < len64 implies head[16 + j] == entry[j] by {
            assert(head[16 + j] == (h0 + h1 + entry)[16 + j]);
            assert((h0 + h1 + entry)[16 + j] == entry[j]);
        }
        assert(data.subrange(base as int + 16, base as int + 16 + len64) =~= entry);
        let next = base + 16 + len64;
        assert forall|k: int| 0 <= k < tailbytes.len() implies data.skip(next as int)[k]
            == tailbytes[k] by {
            assert(data.skip(next as int)[k] == data[next + k]);
            assert(data[base + (head.len() + k)] == (head + tailbytes)[head.len() + k]);
            assert((head + tailbytes)[head.len() + k] == tailbytes[k]);
        }
        assert(data.skip(next as int) =~= tailbytes);
        lemma_log_roundtrip(rest, data, next as u64);
        assert(seq![(term, entry)] + rest =~= recs);
    }
}

/// The path of the applied-log file of node `id`: `log/file-<id>`.
pub fn get_log_filename(id: u64) -> (s: String)
    ensures
        s@ == "log/file-"@ + dec_digits(id as nat),
{
    let mut chars = str_to_chars("log/file-");
    push_dec_u64(&mut chars, id);
    chars_to_string(&chars)
}

} // verus!
