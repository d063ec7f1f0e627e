//! The on-disk form of the hint file.
//!
//! After a completed compaction the directory is summarized as one record
//! per live key: `ts(8) | vlen(8) | key(8) | fnlen(8) | filename(fnlen) |
//! offset(8)`, all integers big-endian.  Loading it back gives the record
//! locations without scanning every segment.

use vstd::prelude::*;
use crate::bytes::{u64_be_bytes, u64_from_be_bytes, lemma_u64_be_bytes_roundtrip, write_u64_be,
    read_u64_be};

verus! {

/// One hint-file record: where the latest value of a key lives.
pub struct HintRecord {
    pub ts: u64,
    pub vlen: u64,
    pub key: u64,
    pub filename: Vec<u8>,
    pub offset: u64,
}

/// The byte image of one hint record.
pub open spec fn hint_record_bytes(r: HintRecord) -> Seq<u8> {
    u64_be_bytes(r.ts) + u64_be_bytes(r.vlen) + u64_be_bytes(r.key) + u64_be_bytes(
        r.filename@.len() as u64,
    ) + r.filename@ + u64_be_bytes(r.offset)
}

/// The byte image of a hint file: its records in order.
pub open spec fn hint_records_bytes(recs: Seq<HintRecord>) -> Seq<u8>
    decreases recs.len(),
{
    if recs.len() == 0 {
        Seq::empty()
    } else {
        hint_record_bytes(recs[0]) + hint_records_bytes(recs.drop_first())
    }
}

/// The fields of the records a decode of `data` finds from offset `off` on,
/// as `(ts, vlen, key, filename, offset)`; an incomplete record at the tail
/// ends the decode.
pub open spec fn decode_hint_spec(data: Seq<u8>, off: nat) -> Seq<(u64, u64, u64, Seq<u8>, u64)>
    decreases data.len() - off,
{
    if off + 32 > data.len() {
        Seq::empty()
    } else {
        let ts = u64_from_be_bytes(data.subrange(off as int, off as int + 8));
        let vlen = u64_from_be_bytes(data.subrange(off as int + 8, off as int + 16));
        let key = u64_from_be_bytes(data.subrange(off as int + 16, off as int + 24));
        let fnlen = u64_from_be_bytes(data.subrange(off as int + 24, off as int + 32));
        if off + 32 + fnlen + 8 > data.len() {
            Seq::empty()
        } else {
            let fname = data.subrange(off as int + 32, off as int + 32 + fnlen);
            let offset = u64_from_be_bytes(
                data.subrange(off as int + 32 + fnlen, off as int + 32 + fnlen + 8),
            );
            seq![(ts, vlen, key, fname, offset)] + decode_hint_spec(
                data,
                (off + 32 + fnlen + 8) as nat,
            )
        }
    }
}

/// Appends the byte image of one hint record to `out`.
pub fn encode_hint_record(out: &mut Vec<u8>, r: &HintRecord)
    ensures
        final(out)@ == old(out)@ + hint_record_bytes(*r),
{
    write_u64_be(out, r.ts);
    write_u64_be(out, r.vlen);
    write_u64_be(out, r.key);
    write_u64_be(out, r.filename.len() as u64);
    let ghost mid = out@;
    let mut i: usize = 0;
    while i < r.filename.len()
        invariant
            i <= r.filename@.len(),
            out@ =~= mid + r.filename@.take(i as int),
        decreases r.filename@.len() - i,
    {
        out.push(r.filename[i]);
        proof {
            assert(r.filename@.take(i + 1) =~= r.filename@.take(i as int).push(
                r.filename@[i as int],
            ));
        }
        i = i + 1;
    }
    proof {
        assert(r.filename@.take(r.filename@.len() as int) =~= r.filename@);
    }
    write_u64_be(out, r.offset);
    proof {
        assert(final(out)@ =~= old(out)@ + hint_record_bytes(*r));
    }
}

/// The byte image of a whole hint file.
pub fn encode_hint_records(recs: &Vec<HintRecord>) -> (out: Vec<u8>)
    ensures
        out@ == hint_records_bytes(recs@),
{
    let mut out: Vec<u8> = Vec::new();
    let mut i: usize = 0;
    proof {
        assert(recs@.skip(0) =~= recs@);
    }
    while i < recs.len()
        invariant
            i <= recs@.len(),
            hint_records_bytes(recs@) =~= out@ + hint_records_bytes(recs@.skip(i as int)),
        decreases recs@.len() - i,
    {
        proof {
            let rest = recs@.skip(i as int);
            assert(rest[0] == recs@[i as int]);
            assert(rest.drop_first() =~= recs@.skip(i + 1));
        }
        encode_hint_record(&mut out, &recs[i]);
        i = i + 1;
    }
    proof {
        assert(recs@.skip(recs@.len() as int) =~= Seq::<HintRecord>::empty());
    }
    out
}

/// The header fields of a list of hint records, in order.
pub open spec fn hint_fields(recs: Seq<HintRecord>) -> Seq<(u64, u64, u64, Seq<u8>, u64)> {
    Seq::new(
        recs.len(),
        |i: int| (recs[i].ts, recs[i].vlen, recs[i].key, recs[i].filename@, recs[i].offset),
    )
}

/// Decodes a hint-file byte image back into its records; an incomplete
/// record at the tail ends the decode.
pub fn decode_hint_records(data: &Vec<u8>) -> (recs: Vec<HintRecord>)
    ensures
        recs@.len() == decode_hint_spec(data@, 0).len(),
        forall|i: int|
            0 <= i < recs@.len() ==> {
                let d = decode_hint_spec(data@, 0)[i];
                (#[trigger] recs@[i]).ts == d.0 && recs@[i].vlen == d.1 && recs@[i].key == d.2
                    && recs@[i].filename@ == d.3 && recs@[i].offset == d.4
            },
{
    let n = data.len();
    let mut recs: Vec<HintRecord> = Vec::new();
    let mut off: usize = 0;
    let ghost all = decode_hint_spec(data@, 0);
    while off < n && n - off >= 32
        invariant
            off <= n,
            n == data@.len(),
            all == decode_hint_spec(data@, 0),
            all =~= hint_fields(recs@) + decode_hint_spec(data@, off as nat),
            forall|i: int|
                0 <= i < recs@.len() ==> {
                    let d = all[i];
                    (#[trigger] recs@[i]).ts == d.0 && recs@[i].vlen == d.1 && recs@[i].key == d.2
                        && recs@[i].filename@ == d.3 && recs@[i].offset == d.4
                },
        decreases n - off,
    {
        let ts = read_u64_be(data, off);
        let vlen = read_u64_be(data, off + 8);
        let key = read_u64_be(data, off + 16);
        let fnlen = read_u64_be(data, off + 24);
        if fnlen > (n - off - 32) as u64 || ((n - off - 32) as u64 - fnlen) < 8 {
            proof {
                assert(decode_hint_spec(data@, off as nat) =~= Seq::<(
                    u64,
                    u64,
                    u64,
                    Seq<u8>,
                    u64,
                )>::empty());
                assert(all =~= hint_fields(recs@));
            }
            return recs;
        }
        let flen = fnlen as usize;
        let mut fname: Vec<u8> = Vec::new();
        let fstart = off + 32;
        let mut i: usize = 0;
        while i < flen
            invariant
                i <= flen,
                n == data@.len(),
                fstart + flen + 8 <= n,
                fname@ =~= data@.subrange(fstart as int, fstart as int + i as int),
            decreases flen - i,
        {
            fname.push(data[fstart + i]);
            proof {
                assert(data@.subrange(fstart as int, fstart as int + i + 1) =~= data@.subrange(
                    fstart as int,
                    fstart as int + i,
                ).push(data@[fstart + i]));
            }
            i = i + 1;
        }
        let offset = read_u64_be(data, fstart + flen);
        let ghost old_fields = hint_fields(recs@);
        proof {
            assert(decode_hint_spec(data@, off as nat) =~= seq![
                (ts, vlen, key, fname@, offset),
            ] + decode_hint_spec(data@, (off + 32 + fnlen + 8) as nat));
        }
        let ghost fview = fname@;
        recs.push(HintRecord { ts, vlen, key, filename: fname, offset });
        proof {
            assert(hint_fields(recs@) =~= old_fields.push((ts, vlen, key, fview, offset)));
        }
        off = fstart + flen + 8;
    }
    proof {
        if off < n && n - off >= 32 {
        } else {
            assert(decode_hint_spec(data@, off as nat) =~= Seq::<(
                u64,
                u64,
                u64,
                Seq<u8>,
                u64,
            )>::empty());
        }
    }
    recs
}

/// Encoding a list of hint records and decoding the bytes yields the same
/// records.
#[verifier::rlimit(100)]
pub proof fn lemma_hint_roundtrip(recs: Seq<HintRecord>, data: Seq<u8>, base: u64)
    requires
        data.len() <= u64::MAX,
        base + hint_records_bytes(recs).len() == data.len(),
        data.skip(base as int) == hint_records_bytes(recs),
        forall|i: int| 0 <= i < recs.len() ==> (#[trigger] recs[i]).filename@.len() <= u64::MAX,
    ensures
        decode_hint_spec(data, base as nat) =~= Seq::new(
            recs.len(),
            |i: int|
                (recs[i].ts, recs[i].vlen, recs[i].key, recs[i].filename@, recs[i].offset),
        ),
    decreases recs.len(),
{
    if recs.len() == 0 {
        assert(decode_hint_spec(data, base as nat) =~= Seq::<(
            u64,
            u64,
            u64,
            Seq<u8>,
            u64,
        )>::empty());
    } else {
        let r0 = recs[0];
        let rest = recs.drop_first();
        let head = hint_record_bytes(r0);
        let tailbytes = hint_records_bytes(rest);
        let fnlen = r0.filename@.len() as u64;
        lemma_u64_be_bytes_roundtrip(r0.ts);
        lemma_u64_be_bytes_roundtrip(r0.vlen);
        lemma_u64_be_bytes_roundtrip(r0.key);
        lemma_u64_be_bytes_roundtrip(fnlen);
        lemma_u64_be_bytes_roundtrip(r0.offset);
        let h0 = u64_be_bytes(r0.ts);
        let h1 = u64_be_bytes(r0.vlen);
        let h2 = u64_be_bytes(r0.key);
        let h3 = u64_be_bytes(fnlen);
        let h4 = u64_be_bytes(r0.offset);
        assert(head.len() == 40 + r0.filename@.len());
        assert forall|k: int| 0 <= k < head.len() + tailbytes.len() implies data[base + k] == (head
            + tailbytes)[k] by {
            assert(data.skip(base as int)[k] == data[base + k]);
        }
        assert forall|k: int| 0 <= k < head.len() implies data[base + k] == head[k] by {
            assert((head + tailbytes)[k] == head[k]);
        }
        assert forall|j: int| 0 <= j < 8 implies head[8 + j] == h1[j] by {
            assert(head[8 + j] == (h0 + h1 + h2 + h3)[8 + j]);
            assert((h0 + h1 + h2 + h3)[8 + j] == (h0 + h1 + h2)[8 + j]);
            assert((h0 + h1 + h2)[8 + j] == (h0 + h1)[8 + j]);
            assert((h0 + h1)[8 + j] == h1[j]);
        }
        assert forall|j: int| 0 <= j < 8 implies head[16 + j] == h2[j] by {
            assert(head[16 + j] == (h0 + h1 + h2 + h3)[16 + j]);
            assert((h0 + h1 + h2 + h3)[16 + j] == (h0 + h1 + h2)[16 + j]);
            assert((h0 + h1 + h2)[16 + j] == h2[j]);
        }
        assert forall|j: int| 0 <= j < 8 implies head[24 + j] == h3[j] by {
            assert(head[24 + j] == (h0 + h1 + h2 + h3)[24 + j]);
            assert((h0 + h1 + h2 + h3)[24 + j] == h3[j]);
        }
        assert forall|j: int| 0 <= j < fnlen implies head[32 + j] == r0.filename@[j] by {
            assert(head[32 + j] == (h0 + h1 + h2 + h3 + r0.filename@)[32 + j]);
            assert((h0 + h1 + h2 + h3 + r0.filename@)[32 + j] == r0.filename@[j]);
        }
        assert forall|j: int| 0 <= j < 8 implies head[32 + fnlen + j] == h4[j] by {
            assert(head[32 + fnlen + j] == h4[j]);
        }
        assert(data.subrange(base as int, base as int + 8) =~= h0);
        assert(data.subrange(base as int + 8, base as int + 16) =~= h1);
        assert(data.subrange(base as int + 16, base as int + 24) =~= h2);
        assert(data.subrange(base as int + 24, base as int + 32) =~= h3);
        assert(data.subrange(base as int + 32, base as int + 32 + fnlen) =~= r0.filename@);
        assert(data.subrange(base as int + 32 + fnlen, base as int + 32 + fnlen + 8) =~= h4);
        let next = base + 40 + fnlen;
        assert forall|k: int| 0 <= k < tailbytes.len() implies data.skip(next as int)[k]
            == tailbytes[k] by {
            assert(data.skip(next as int)[k] == data[next + k]);
            assert(data[base + (head.len() + k)] == (head + tailbytes)[head.len() + k]);
            assert((head + tailbytes)[head.len() + k] == tailbytes[k]);
        }
        assert(data.skip(next as int) =~= tailbytes);
        lemma_hint_roundtrip(rest, data, next as u64);
        assert(decode_hint_spec(data, base as nat) =~= seq![
            (r0.ts, r0.vlen, r0.key, r0.filename@, r0.offset),
        ] + decode_hint_spec(data, next as nat));
    }
}

} // verus!
