//! Big-endian byte order for 64-bit unsigned integers.
//!
//! Every integer field of the on-disk formats (segment records, the hint
//! file, the per-node applied-log file) is stored as eight big-endian bytes.

use vstd::prelude::*;

verus! {

/// The eight big-endian bytes of a 64-bit unsigned integer, most significant
/// byte first.
pub open spec fn u64_be_bytes(x: u64) -> Seq<u8> {
    seq![
        ((x >> 56) & 0xff) as u8,
        ((x >> 48) & 0xff) as u8,
        ((x >> 40) & 0xff) as u8,
        ((x >> 32) & 0xff) as u8,
        ((x >> 24) & 0xff) as u8,
        ((x >> 16) & 0xff) as u8,
        ((x >> 8) & 0xff) as u8,
        (x & 0xff) as u8,
    ]
}

/// The 64-bit unsigned integer denoted by eight big-endian bytes.
pub open spec fn u64_from_be_bytes(s: Seq<u8>) -> u64
    recommends
        s.len() == 8,
{
    (((s[0] as u64) << 56) | ((s[1] as u64) << 48) | ((s[2] as u64) << 40) | ((s[3] as u64) << 32)
        | ((s[4] as u64) << 24) | ((s[5] as u64) << 16) | ((s[6] as u64) << 8) | (s[7] as u64))
}

/// Reading back the eight big-endian bytes of an integer yields the integer.
pub proof fn lemma_u64_be_bytes_roundtrip(x: u64)
    ensures
        u64_be_bytes(x).len() == 8,
        u64_from_be_bytes(u64_be_bytes(x)) == x,
{
    let s = u64_be_bytes(x);
    assert(((((x >> 56) & 0xff) as u8 as u64) << 56) | ((((x >> 48) & 0xff) as u8 as u64) << 48)
        | ((((x >> 40) & 0xff) as u8 as u64) << 40) | ((((x >> 32) & 0xff) as u8 as u64) << 32) | (
    (((x >> 24) & 0xff) as u8 as u64) << 24) | ((((x >> 16) & 0xff) as u8 as u64) << 16) | ((((x
        >> 8) & 0xff) as u8 as u64) << 8) | ((x & 0xff) as u8 as u64) == x) by (bit_vector);
}

/// Appends the eight big-endian bytes of `x` to `out`.
pub fn write_u64_be(out: &mut Vec<u8>, x: u64)
    ensures
        final(out)@ == old(out)@ + u64_be_bytes(x),
{
    out.push(((x >> 56) & 0xff) as u8);
    out.push(((x >> 48) & 0xff) as u8);
    out.push(((x >> 40) & 0xff) as u8);
    out.push(((x >> 32) & 0xff) as u8);
    out.push(((x >> 24) & 0xff) as u8);
    out.push(((x >> 16) & 0xff) as u8);
    out.push(((x >> 8) & 0xff) as u8);
    out.push((x & 0xff) as u8);
    assert(final(out)@ =~= old(out)@ + u64_be_bytes(x));
}

/// Reads the 64-bit big-endian integer stored at byte offset `off` of `data`.
pub fn read_u64_be(data: &Vec<u8>, off: usize) -> (x: u64)
    requires
        off + 8 <= data@.len(),
    ensures
        x == u64_from_be_bytes(data@.subrange(off as int, off as int + 8)),
{
    let n = data.len();
    proof {
        assert(off + 8 <= n);
    }
    let x = (((data[off] as u64) << 56) | ((data[off + 1] as u64) << 48) | ((data[off + 2] as u64)
        << 40) | ((data[off + 3] as u64) << 32) | ((data[off + 4] as u64) << 24) | ((data[off
        + 5] as u64) << 16) | ((data[off + 6] as u64) << 8) | (data[off + 7] as u64));
    proof {
        let s = data@.subrange(off as int, off as int + 8);
        assert(s[0] == data@[off as int]);
        assert(s[1] == data@[off as int + 1]);
        assert(s[2] == data@[off as int + 2]);
        assert(s[3] == data@[off as int + 3]);
        assert(s[4] == data@[off as int + 4]);
        assert(s[5] == data@[off as int + 5]);
        assert(s[6] == data@[off as int + 6]);
        assert(s[7] == data@[off as int + 7]);
    }
    x
}

} // verus!
