//! The on-disk form of segment files.
//!
//! A segment file is a sequence of records, each serialized as
//! `ts(8) | vlen(8) | key(8) | value(vlen)` with all integers big-endian.
//! This module encodes records to bytes, scans a byte image back into record
//! descriptions (stopping at a truncated tail), and reads one record at a
//! given offset.

use vstd::prelude::*;
use crate::bytes::{u64_be_bytes, u64_from_be_bytes, lemma_u64_be_bytes_roundtrip, write_u64_be,
    read_u64_be};
use crate::error::KvError;

verus! {

/// A record to be written to a segment file.
pub struct SegmentRecord {
    pub ts: u64,
    pub key: u64,
    pub value: Vec<u8>,
}

/// What a scan reports about one record found in a segment image: its
/// header fields and the byte offset where it starts.
#[derive(Clone, Copy, Debug, PartialEq, Eq, Structural)]
pub struct ScanRecord {
    pub ts: u64,
    pub key: u64,
    pub offset: u64,
    pub vlen: u64,
}

/// The byte image of one record.
pub open spec fn record_bytes(ts: u64, key: u64, value: Seq<u8>) -> Seq<u8> {
    u64_be_bytes(ts) + u64_be_bytes(value.len() as u64) + u64_be_bytes(key) + value
}

/// The byte image of a sequence of records, in order.
pub open spec fn records_bytes(recs: Seq<SegmentRecord>) -> Seq<u8>
    decreases recs.len(),
{
    if recs.len() == 0 {
        Seq::empty()
    } else {
        record_bytes(recs[0].ts, recs[0].key, recs[0].value@) + records_bytes(recs.drop_first())
    }
}

/// What scanning reports for `recs` laid out starting at offset `base`.
pub open spec fn scan_expected(recs: Seq<SegmentRecord>, base: u64) -> Seq<ScanRecord>
    decreases recs.len(),
{
    if recs.len() == 0 {
        Seq::empty()
    } else {
        let vlen = recs[0].value@.len() as u64;
        seq![ScanRecord { ts: recs[0].ts, key: recs[0].key, offset: base, vlen }] + scan_expected(
            recs.drop_first(),
            (base + 24 + vlen) as u64,
        )
    }
}

/// The records a scan of `data` finds from byte offset `off` on: headers are
/// read while 24 bytes remain, and a record whose value runs past the end of
/// the data is dropped, as is everything after it.
pub open spec fn scan_records_spec(data: Seq<u8>, off: nat) -> Seq<ScanRecord>
    decreases data.len() - off,
{
    if off + 24 > data.len() {
        Seq::empty()
    } else {
        let ts = u64_from_be_bytes(data.subrange(off as int, off as int + 8));
        let vlen = u64_from_be_bytes(data.subrange(off as int + 8, off as int + 16));
        let key = u64_from_be_bytes(data.subrange(off as int + 16, off as int + 24));
        if off + 24 + vlen > data.len() {
            Seq::empty()
        } else {
            seq![ScanRecord { ts, key, offset: off as u64, vlen }] + scan_records_spec(
                data,
                (off + 24 + vlen) as nat,
            )
        }
    }
}

/// Appends the byte image of one record to `out`.
pub fn encode_record(out: &mut Vec<u8>, ts: u64, key: u64, value: &Vec<u8>)
    ensures
        final(out)@ == old(out)@ + record_bytes(ts, key, value@),
{
    write_u64_be(out, ts);
    write_u64_be(out, value.len() as u64);
    write_u64_be(out, key);
    let mut i: usize = 0;
    let ghost mid = out@;
    while i < value.len()
        invariant
            i <= value@.len(),
            out@ =~= mid + value@.take(i as int),
        decreases value@.len() - i,
    {
        out.push(value[i]);
        proof {
            assert(value@.take(i + 1) =~= value@.take(i as int).push(value@[i as int]));
        }
        i = i + 1;
    }
    proof {
        assert(value@.take(value@.len() as int) =~= value@);
        assert(final(out)@ =~= old(out)@ + record_bytes(ts, key, value@));
    }
}

/// The byte image of a list of records, in order.
pub fn encode_records(recs: &Vec<SegmentRecord>) -> (out: Vec<u8>)
    ensures
        out@ == records_bytes(recs@),
{
    let mut out: Vec<u8> = Vec::new();
    let mut i: usize = 0;
    proof {
        assert(recs@.skip(0) =~= recs@);
    }
    while i < recs.len()
        invariant
            i <= recs@.len(),
            records_bytes(recs@) =~= out@ + records_bytes(recs@.skip(i as int)),
        decreases recs@.len() - i,
    {
        proof {
            let rest = recs@.skip(i as int);
            assert(rest[0] == recs@[i as int]);
            assert(rest.drop_first() =~= recs@.skip(i + 1));
        }
        encode_record(&mut out, recs[i].ts, recs[i].key, &recs[i].value);
        i = i + 1;
    }
    proof {
        assert(recs@.skip(recs@.len() as int) =~= Seq::<SegmentRecord>::empty());
    }
    out
}

/// Scans a segment byte image and reports every complete record in it, with
/// the byte offset where each starts.  A truncated tail is ignored.
pub fn scan_records(data: &Vec<u8>) -> (found: Vec<ScanRecord>)
    ensures
        found@ == scan_records_spec(data@, 0),
{
    let n = data.len();
    let mut found: Vec<ScanRecord> = Vec::new();
    let mut off: usize = 0;
    while off < n && n - off >= 24
        invariant
            off <= n,
            n == data@.len(),
            scan_records_spec(data@, 0) =~= found@ + scan_records_spec(data@, off as nat),
        decreases n - off,
    {
        let ts = read_u64_be(data, off);
        let vlen = read_u64_be(data, off + 8);
        let key = read_u64_be(data, off + 16);
        if vlen > (n - off - 24) as u64 {
            proof {
                assert(scan_records_spec(data@, off as nat) =~= Seq::<ScanRecord>::empty());
            }
            return found;
        }
        let rec = ScanRecord { ts, key, offset: off as u64, vlen };
        proof {
            assert(scan_records_spec(data@, off as nat) =~= seq![rec] + scan_records_spec(
                data@,
                off as nat + 24 + vlen as nat,
            ));
        }
        found.push(rec);
        off = off + 24 + (vlen as usize);
    }
    proof {
        assert(scan_records_spec(data@, off as nat) =~= Seq::<ScanRecord>::empty());
    }
    found
}

/// Reads the record stored at `offset` in a segment image, checking that its
/// value length matches the directory's `length`; returns the value bytes.
/// Fails with `InvalidData` when the offset does not hold a complete record
/// of that length.
pub fn read_record_at(data: &Vec<u8>, offset: u64, length: u64) -> (r: Result<Vec<u8>, KvError>)
    ensures
        ({
            let well_placed = offset + 24 + length <= data@.len() && u64_from_be_bytes(
                data@.subrange(offset as int + 8, offset as int + 16),
            ) == length;
            match r {
                Ok(v) => well_placed && v@ == data@.subrange(
                    offset + 24,
                    offset + 24 + length,
                ),
                Err(e) => !well_placed && e == KvError::InvalidData,
            }
        }),
{
    let n = data.len();
    if offset >= n as u64 || n as u64 - offset < 24 {
        return Err(KvError::InvalidData);
    }
    let off = offset as usize;
    let vlen = read_u64_be(data, off + 8);
    if vlen != length {
        return Err(KvError::InvalidData);
    }
    if length > (n - off - 24) as u64 {
        return Err(KvError::InvalidData);
    }
    let mut v: Vec<u8> = Vec::new();
    let start = off + 24;
    let len = length as usize;
    let mut i: usize = 0;
    while i < len
        invariant
            i <= len,
            n == data@.len(),
            start + len <= n,
            v@ =~= data@.subrange(start as int, start as int + i as int),
        decreases len - i,
    {
        v.push(data[start + i]);
        proof {
            assert(data@.subrange(start as int, start as int + i + 1) =~= data@.subrange(
                start as int,
                start as int + i,
            ).push(data@[start + i]));
        }
        i = i + 1;
    }
    Ok(v)
}

/// Writing records and scanning the bytes back yields exactly the same
/// records, with their timestamps, keys, value lengths and cumulative byte
/// offsets.
pub proof fn lemma_segment_roundtrip(recs: Seq<SegmentRecord>, data: Seq<u8>, base: u64)
    requires
        data.len() <= u64::MAX,
        base + records_bytes(recs).len() == data.len(),
        data.skip(base as int) == records_bytes(recs),
    ensures
        scan_records_spec(data, base as nat) == scan_expected(recs, base),
    decreases recs.len(),
{
    if recs.len() == 0 {
        assert(scan_records_spec(data, base as nat) =~= Seq::<ScanRecord>::empty());
        assert(scan_expected(recs, base) =~= Seq::<ScanRecord>::empty());
    } else {
        let r0 = recs[0];
        let vlen64 = r0.value@.len() as u64;
        let rest = recs.drop_first();
        let head = record_bytes(r0.ts, r0.key, r0.value@);
        assert(records_bytes(recs) == head + records_bytes(rest));
        lemma_u64_be_bytes_roundtrip(r0.ts);
        lemma_u64_be_bytes_roundtrip(vlen64);
        lemma_u64_be_bytes_roundtrip(r0.key);
        assert(head.len() == 24 + r0.value@.len());
        let tailbytes = records_bytes(rest);
        let h0 = u64_be_bytes(r0.ts);
        let h1 = u64_be_bytes(vlen64);
        let h2 = u64_be_bytes(r0.key);
        assert forall|k: int| 0 <= k < head.len() + tailbytes.len() implies data[base + k]
            == (head + tailbytes)[k] by {
            assert(data.skip(base as int)[k] == data[base + k]);
        }
        assert forall|k: int| 0 <= k < head.len() implies data[base + k] == head[k] by {
            assert((head + tailbytes)[k] == head[k]);
        }
        assert forall|j: int| 0 <= j < 8 implies head[8 + j] == h1[j] by {
            assert(head[8 + j] == (h0 + h1 + h2)[8 + j]);
            assert((h0 + h1 + h2)[8 + j] == (h0 + h1)[8 + j]);
            assert((h0 + h1)[8 + j] == h1[j]);
        }
        assert forall|j: int| 0 <= j < 8 implies head[16 + j] == h2[j] by {
            assert(head[16 + j] == (h0 + h1 + h2)[16 + j]);
            assert((h0 + h1 + h2)[16 + j] == h2[j]);
        }
        assert(data.subrange(base as int, base as int + 8) =~= h0);
        assert(data.subrange(base as int + 8, base as int + 16) =~= h1);
        assert(data.subrange(base as int + 16, base as int + 24) =~= h2);
        let next = base + 24 + vlen64;
        assert forall|k: int| 0 <= k < tailbytes.len() implies data.skip(next as int)[k]
            == tailbytes[k] by {
            assert(data.skip(next as int)[k] == data[next + k]);
            assert(data[base + (24 + vlen64 + k)] == (head + tailbytes)[24 + vlen64 + k]);
            assert((head + tailbytes)[24 + vlen64 + k] == tailbytes[k]);
        }
        assert(data.skip(next as int) =~= records_bytes(rest));
        lemma_segment_roundtrip(rest, data, next as u64);
        assert(scan_records_spec(data, base as nat) =~= seq![
            ScanRecord { ts: r0.ts, key: r0.key, offset: base, vlen: vlen64 },
        ] + scan_records_spec(data, next as nat));
        assert(scan_expected(recs, base) =~= seq![
            ScanRecord { ts: r0.ts, key: r0.key, offset: base, vlen: vlen64 },
        ] + scan_expected(rest, next as u64));
    }
}

/// The round trip of an entire segment image: scanning the encoding of
/// `recs` reports one record per element of `recs`, in order, with matching
/// timestamps and keys and with the offsets at which they were written.
pub proof fn lemma_segment_codec_roundtrip(recs: Seq<SegmentRecord>)
    requires
        records_bytes(recs).len() <= u64::MAX,
    ensures
        scan_records_spec(records_bytes(recs), 0) == scan_expected(recs, 0),
{
    let data = records_bytes(recs);
    assert(data.skip(0) =~= data);
    lemma_segment_roundtrip(recs, data, 0);
}

} // verus!
