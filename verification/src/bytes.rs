//! Little-endian byte encoders and decoders.
//!
//! Every stored artifact of the library is a byte sequence built from the
//! primitives here: fixed-width little-endian integers and length-prefixed
//! byte runs. Each encoder has an exact specification, and the decoders are
//! proved to invert them, which is what lets a log reader recover record
//! boundaries from the framing alone.

use vstd::prelude::*;

verus! {

/// The eight little-endian bytes of a 64-bit integer.
pub open spec fn enc_u64_le(n: u64) -> Seq<u8> {
    seq![
        (n & 0xff) as u8,
        ((n >> 8) & 0xff) as u8,
        ((n >> 16) & 0xff) as u8,
        ((n >> 24) & 0xff) as u8,
        ((n >> 32) & 0xff) as u8,
        ((n >> 40) & 0xff) as u8,
        ((n >> 48) & 0xff) as u8,
        ((n >> 56) & 0xff) as u8,
    ]
}

/// The 64-bit integer read from eight little-endian bytes.
pub open spec fn dec_u64_le(s: Seq<u8>) -> u64
    recommends
        s.len() == 8,
{
    ((s[0] as u64) | ((s[1] as u64) << 8) | ((s[2] as u64) << 16) | ((s[3] as u64) << 24) | ((
    s[4] as u64) << 32) | ((s[5] as u64) << 40) | ((s[6] as u64) << 48) | ((s[7] as u64) << 56))
}

/// The four little-endian bytes of a 32-bit integer.
pub open spec fn enc_u32_le(n: u32) -> Seq<u8> {
    seq![
        (n & 0xff) as u8,
        ((n >> 8) & 0xff) as u8,
        ((n >> 16) & 0xff) as u8,
        ((n >> 24) & 0xff) as u8,
    ]
}

/// The 32-bit integer read from four little-endian bytes.
pub open spec fn dec_u32_le(s: Seq<u8>) -> u32
    recommends
        s.len() == 4,
{
    ((s[0] as u32) | ((s[1] as u32) << 8) | ((s[2] as u32) << 16) | ((s[3] as u32) << 24))
}

/// Reading the four bytes of `enc_u32_le` yields the integer back.
pub proof fn lemma_u32_le_round_trip(n: u32)
    ensures
        dec_u32_le(enc_u32_le(n)) == n,
{
    assert((((n & 0xff) as u8 as u32) | ((((n >> 8) & 0xff) as u8 as u32) << 8) | ((((n >> 16)
        & 0xff) as u8 as u32) << 16) | ((((n >> 24) & 0xff) as u8 as u32) << 24)) == n)
        by (bit_vector);
}

/// Reads the 32-bit little-endian integer at `pos`.
pub fn get_u32_le(buf: &Vec<u8>, pos: usize) -> (r: u32)
    requires
        pos + 4 <= buf@.len(),
    ensures
        r == dec_u32_le(buf@.subrange(pos as int, pos + 4)),
{
    let l: usize = buf.len();
    let r: u32 = (buf[pos] as u32) | ((buf[pos + 1] as u32) << 8) | ((buf[pos + 2] as u32) << 16)
        | ((buf[pos + 3] as u32) << 24);
    r
}

/// Reading the eight bytes of `enc_u64_le` yields the integer back.
pub proof fn lemma_u64_le_round_trip(n: u64)
    ensures
        dec_u64_le(enc_u64_le(n)) == n,
{
    assert((((n & 0xff) as u8 as u64) | ((((n >> 8) & 0xff) as u8 as u64) << 8) | ((((n >> 16)
        & 0xff) as u8 as u64) << 16) | ((((n >> 24) & 0xff) as u8 as u64) << 24) | ((((n >> 32)
        & 0xff) as u8 as u64) << 32) | ((((n >> 40) & 0xff) as u8 as u64) << 40) | ((((n >> 48)
        & 0xff) as u8 as u64) << 48) | ((((n >> 56) & 0xff) as u8 as u64) << 56)) == n)
        by (bit_vector);
}

/// Appends the little-endian encoding of `n` to `out`.
pub fn put_u64_le(out: &mut Vec<u8>, n: u64)
    ensures
        final(out)@ == old(out)@ + enc_u64_le(n),
{
    out.push((n & 0xff) as u8);
    out.push(((n >> 8) & 0xff) as u8);
    out.push(((n >> 16) & 0xff) as u8);
    out.push(((n >> 24) & 0xff) as u8);
    out.push(((n >> 32) & 0xff) as u8);
    out.push(((n >> 40) & 0xff) as u8);
    out.push(((n >> 48) & 0xff) as u8);
    out.push(((n >> 56) & 0xff) as u8);
    assert(out@ =~= old(out)@ + enc_u64_le(n));
}

/// Appends the little-endian encoding of `n` to `out`.
pub fn put_u32_le(out: &mut Vec<u8>, n: u32)
    ensures
        final(out)@ == old(out)@ + enc_u32_le(n),
{
    out.push((n & 0xff) as u8);
    out.push(((n >> 8) & 0xff) as u8);
    out.push(((n >> 16) & 0xff) as u8);
    out.push(((n >> 24) & 0xff) as u8);
    assert(out@ =~= old(out)@ + enc_u32_le(n));
}

/// Reads the 64-bit little-endian integer at `pos`.
pub fn get_u64_le(buf: &Vec<u8>, pos: usize) -> (r: u64)
    requires
        pos + 8 <= buf@.len(),
    ensures
        r == dec_u64_le(buf@.subrange(pos as int, pos + 8)),
{
    let l: usize = buf.len();
    let r: u64 = (buf[pos] as u64) | ((buf[pos + 1] as u64) << 8) | ((buf[pos + 2] as u64) << 16)
        | ((buf[pos + 3] as u64) << 24) | ((buf[pos + 4] as u64) << 32) | ((buf[pos + 5] as u64)
        << 40) | ((buf[pos + 6] as u64) << 48) | ((buf[pos + 7] as u64) << 56);
    r
}

/// Appends a copy of `src` to `out`.
pub fn append_bytes(out: &mut Vec<u8>, src: &Vec<u8>)
    ensures
        final(out)@ == old(out)@ + src@,
{
    let mut i: usize = 0;
    while i < src.len()
        invariant
            i <= src@.len(),
            out@ == old(out)@ + src@.subrange(0, i as int),
        decreases src@.len() - i,
    {
        out.push(src[i]);
        assert(out@ =~= old(out)@ + src@.subrange(0, i + 1));
        i = i + 1;
    }
    assert(src@.subrange(0, src@.len() as int) =~= src@);
}

/// A byte run prefixed by its 64-bit length: the library's self-delimiting
/// framing for variable-length data.
pub open spec fn enc_len_bytes(data: Seq<u8>) -> Seq<u8> {
    enc_u64_le(data.len() as u64) + data
}

/// Appends `data` prefixed by its length to `out`.
pub fn put_len_bytes(out: &mut Vec<u8>, data: &Vec<u8>)
    requires
        data@.len() <= u64::MAX,
    ensures
        final(out)@ == old(out)@ + enc_len_bytes(data@),
{
    put_u64_le(out, data.len() as u64);
    append_bytes(out, data);
    assert(out@ =~= old(out)@ + enc_len_bytes(data@));
}

} // verus!
