//! The compression codec.
//!
//! `compress_best` tries every registered general-purpose compressor on a
//! payload and returns the shortest self-describing candidate: each candidate
//! is prefixed with a four-byte tag naming the method, so `decompress` can
//! pick the right inverse from the blob alone. Ties go to the method listed
//! first, with the no-op method first of all.

use vstd::prelude::*;
use crate::bytes::{enc_u32_le, dec_u32_le, lemma_u32_le_round_trip, put_u32_le, append_bytes,
    get_u32_le};
use crate::errors::GeyserPluginCosError;
use std::io::Write;

verus! {

/// The registered compression methods, in tie-breaking order.
#[derive(Clone, Copy, PartialEq, Eq, Structural, Debug)]
pub enum CompressionMethod {
    NoCompression,
    Bzip2,
    Gzip,
    Zstd,
}

/// The tag stored in front of a compressed payload to name its method.
pub open spec fn spec_method_tag(m: CompressionMethod) -> u32 {
    match m {
        CompressionMethod::NoCompression => 0,
        CompressionMethod::Bzip2 => 1,
        CompressionMethod::Gzip => 2,
        CompressionMethod::Zstd => 3,
    }
}

impl CompressionMethod {
    /// The numeric tag of this method.
    pub fn tag(&self) -> (r: u32)
        ensures
            r == spec_method_tag(*self),
    {
        match self {
            CompressionMethod::NoCompression => 0,
            CompressionMethod::Bzip2 => 1,
            CompressionMethod::Gzip => 2,
            CompressionMethod::Zstd => 3,
        }
    }
}

/// What the bzip2 compressor produces for a payload: a function of the input
/// bytes alone.
pub uninterp spec fn bzip2_of(data: Seq<u8>) -> Seq<u8>;

/// What the gzip compressor produces for a payload: a function of the input
/// bytes alone.
pub uninterp spec fn gzip_of(data: Seq<u8>) -> Seq<u8>;

/// What the zstd compressor produces for a payload: a function of the input
/// bytes alone.
pub uninterp spec fn zstd_of(data: Seq<u8>) -> Seq<u8>;

/// Relies on bzip2::write::BzEncoder at the best level: compresses the whole
/// payload in one stream; the output depends on the input bytes alone.
#[verifier::external_body]
fn bzip2_compress(data: &Vec<u8>) -> (r: Result<Vec<u8>, GeyserPluginCosError>)
    ensures
        r matches Ok(v) ==> v@ == bzip2_of(data@),
        r matches Err(e) ==> e is InternalError,
{
    let mut e = bzip2::write::BzEncoder::new(Vec::new(), bzip2::Compression::best());
    e.write_all(data).map_err(|err| GeyserPluginCosError::InternalError {
        msg: format!("General error: {err:?}"),
    })?;
    e.finish().map_err(|err| GeyserPluginCosError::InternalError {
        msg: format!("General error: {err:?}"),
    })
}

/// Relies on bzip2::write::BzDecoder: decompressing the output of the bzip2
/// compressor yields the original payload.
#[verifier::external_body]
fn bzip2_decompress(data: &Vec<u8>) -> (r: Result<Vec<u8>, GeyserPluginCosError>)
    ensures
        (exists|orig: Seq<u8>| data@ == bzip2_of(orig)) ==> r is Ok,
        r is Ok ==> forall|orig: Seq<u8>| data@ == bzip2_of(orig) ==> r->Ok_0@ == orig,
        r matches Err(e) ==> e is InternalError,
{
    let mut d = bzip2::write::BzDecoder::new(Vec::new());
    d.write_all(data).map_err(|err| GeyserPluginCosError::InternalError {
        msg: format!("General error: {err:?}"),
    })?;
    d.finish().map_err(|err| GeyserPluginCosError::InternalError {
        msg: format!("General error: {err:?}"),
    })
}

/// Relies on flate2::write::GzEncoder at the default level: compresses the
/// whole payload in one stream; the output depends on the input bytes alone.
#[verifier::external_body]
fn gzip_compress(data: &Vec<u8>) -> (r: Result<Vec<u8>, GeyserPluginCosError>)
    ensures
        r matches Ok(v) ==> v@ == gzip_of(data@),
        r matches Err(e) ==> e is InternalError,
{
    let mut e = flate2::write::GzEncoder::new(Vec::new(), flate2::Compression::default());
    e.write_all(data).map_err(|err| GeyserPluginCosError::InternalError {
        msg: format!("General error: {err:?}"),
    })?;
    e.finish().map_err(|err| GeyserPluginCosError::InternalError {
        msg: format!("General error: {err:?}"),
    })
}

/// Relies on flate2::write::GzDecoder: decompressing the output of the gzip
/// compressor yields the original payload.
#[verifier::external_body]
fn gzip_decompress(data: &Vec<u8>) -> (r: Result<Vec<u8>, GeyserPluginCosError>)
    ensures
        (exists|orig: Seq<u8>| data@ == gzip_of(orig)) ==> r is Ok,
        r is Ok ==> forall|orig: Seq<u8>| data@ == gzip_of(orig) ==> r->Ok_0@ == orig,
        r matches Err(e) ==> e is InternalError,
{
    let mut d = flate2::write::GzDecoder::new(Vec::new());
    d.write_all(data).map_err(|err| GeyserPluginCosError::InternalError {
        msg: format!("General error: {err:?}"),
    })?;
    d.finish().map_err(|err| GeyserPluginCosError::InternalError {
        msg: format!("General error: {err:?}"),
    })
}

/// Relies on zstd::stream::encode_all at the default level: compresses the
/// whole payload in one frame; the output depends on the input bytes alone.
#[verifier::external_body]
fn zstd_compress(data: &Vec<u8>) -> (r: Result<Vec<u8>, GeyserPluginCosError>)
    ensures
        r matches Ok(v) ==> v@ == zstd_of(data@),
        r matches Err(e) ==> e is InternalError,
{
    zstd::stream::encode_all(&data[..], 0).map_err(|err| GeyserPluginCosError::InternalError {
        msg: format!("General error: {err:?}"),
    })
}

/// Relies on zstd::stream::decode_all: decompressing the output of the zstd
/// compressor yields the original payload.
#[verifier::external_body]
fn zstd_decompress(data: &Vec<u8>) -> (r: Result<Vec<u8>, GeyserPluginCosError>)
    ensures
        (exists|orig: Seq<u8>| data@ == zstd_of(orig)) ==> r is Ok,
        r is Ok ==> forall|orig: Seq<u8>| data@ == zstd_of(orig) ==> r->Ok_0@ == orig,
        r matches Err(e) ==> e is InternalError,
{
    zstd::stream::decode_all(&data[..]).map_err(|err| GeyserPluginCosError::InternalError {
        msg: format!("General error: {err:?}"),
    })
}

/// The tagged candidate a method produces: its tag, then its compressed form
/// of the payload.
pub open spec fn spec_compress(m: CompressionMethod, data: Seq<u8>) -> Seq<u8> {
    enc_u32_le(spec_method_tag(m)) + match m {
        CompressionMethod::NoCompression => data,
        CompressionMethod::Bzip2 => bzip2_of(data),
        CompressionMethod::Gzip => gzip_of(data),
        CompressionMethod::Zstd => zstd_of(data),
    }
}

/// Compresses `data` with `m` and prefixes the result with the method tag.
pub fn compress(method: CompressionMethod, data: &Vec<u8>) -> (r: Result<
    Vec<u8>,
    GeyserPluginCosError,
>)
    ensures
        r matches Ok(v) ==> v@ == spec_compress(method, data@),
        method is NoCompression ==> r is Ok,
        r matches Err(e) ==> e is InternalError,
{
    let mut out: Vec<u8> = Vec::new();
    put_u32_le(&mut out, method.tag());
    match method {
        CompressionMethod::NoCompression => {
            append_bytes(&mut out, data);
        },
        CompressionMethod::Bzip2 => {
            let body = bzip2_compress(data)?;
            append_bytes(&mut out, &body);
        },
        CompressionMethod::Gzip => {
            let body = gzip_compress(data)?;
            append_bytes(&mut out, &body);
        },
        CompressionMethod::Zstd => {
            let body = zstd_compress(data)?;
            append_bytes(&mut out, &body);
        },
    }
    Ok(out)
}

/// Of two candidates, the one `compress_best` prefers: the shorter, and the
/// earlier-listed on a tie.
pub open spec fn spec_shorter_of(a: Seq<u8>, b: Seq<u8>) -> Seq<u8> {
    if b.len() < a.len() {
        b
    } else {
        a
    }
}

/// What `compress_best` returns: the shortest tagged candidate over all
/// registered methods, ties broken in registration order.
pub open spec fn spec_compress_best(data: Seq<u8>) -> Seq<u8> {
    spec_shorter_of(
        spec_shorter_of(
            spec_shorter_of(
                spec_compress(CompressionMethod::NoCompression, data),
                spec_compress(CompressionMethod::Bzip2, data),
            ),
            spec_compress(CompressionMethod::Gzip, data),
        ),
        spec_compress(CompressionMethod::Zstd, data),
    )
}

/// Tries every registered method on `data` and returns the shortest tagged
/// candidate. Fails only when an underlying compressor fails.
pub fn compress_best(data: &Vec<u8>) -> (r: Result<Vec<u8>, GeyserPluginCosError>)
    ensures
        r matches Ok(v) ==> v@ == spec_compress_best(data@),
        r matches Ok(v) ==> v@.len() <= data@.len() + 4,
        r matches Err(e) ==> e is InternalError,
{
    let mut best = compress(CompressionMethod::NoCompression, data)?;
    let candidate = compress(CompressionMethod::Bzip2, data)?;
    if candidate.len() < best.len() {
        best = candidate;
    }
    let candidate = compress(CompressionMethod::Gzip, data)?;
    if candidate.len() < best.len() {
        best = candidate;
    }
    let candidate = compress(CompressionMethod::Zstd, data)?;
    if candidate.len() < best.len() {
        best = candidate;
    }
    Ok(best)
}

/// Decompresses a tagged blob with the method its tag names.
///
/// The blob is self-describing: for the output of `compress` or
/// `compress_best` on any payload, this returns exactly that payload. A blob
/// shorter than a tag, or one with an unknown tag, is rejected.
pub fn decompress(data: &Vec<u8>) -> (r: Result<Vec<u8>, GeyserPluginCosError>)
    ensures
        data@.len() < 4 ==> r is Err,
        data@.len() >= 4 && dec_u32_le(data@.subrange(0, 4)) > 3 ==> r is Err,
        forall|m: CompressionMethod, orig: Seq<u8>|
            data@ == spec_compress(m, orig) ==> r is Ok && r->Ok_0@ == orig,
        forall|orig: Seq<u8>|
            data@ == spec_compress_best(orig) ==> r is Ok && r->Ok_0@ == orig,
        r matches Err(e) ==> e is InternalError,
{
    proof {
        lemma_u32_le_round_trip(0);
        lemma_u32_le_round_trip(1);
        lemma_u32_le_round_trip(2);
        lemma_u32_le_round_trip(3);
    }
    if data.len() < 4 {
        return Err(GeyserPluginCosError::InternalError {
            msg: String::from_str("decompress: blob shorter than its method tag"),
        });
    }
    let tag = get_u32_le(data, 0);
    let mut body: Vec<u8> = Vec::new();
    let mut i: usize = 4;
    let l: usize = data.len();
    while i < l
        invariant
            4 <= i <= l,
            l == data@.len(),
            body@ == data@.subrange(4, i as int),
        decreases l - i,
    {
        body.push(data[i]);
        assert(body@ =~= data@.subrange(4, i + 1));
        i = i + 1;
    }
    assert(body@ =~= data@.subrange(4, data@.len() as int));
    assert forall|m: CompressionMethod, orig: Seq<u8>|
        data@ == #[trigger] spec_compress(m, orig) implies tag == spec_method_tag(m) && body@
        == (match m {
        CompressionMethod::NoCompression => orig,
        CompressionMethod::Bzip2 => bzip2_of(orig),
        CompressionMethod::Gzip => gzip_of(orig),
        CompressionMethod::Zstd => zstd_of(orig),
    }) by {
        assert(data@.subrange(0, 4) =~= enc_u32_le(spec_method_tag(m)));
        lemma_u32_le_round_trip(spec_method_tag(m));
        assert(data@.subrange(4, data@.len() as int) =~= (match m {
            CompressionMethod::NoCompression => orig,
            CompressionMethod::Bzip2 => bzip2_of(orig),
            CompressionMethod::Gzip => gzip_of(orig),
            CompressionMethod::Zstd => zstd_of(orig),
        }));
    }
    let r: Result<Vec<u8>, GeyserPluginCosError> = if tag == 0 {
        Ok(body)
    } else if tag == 1 {
        bzip2_decompress(&body)
    } else if tag == 2 {
        gzip_decompress(&body)
    } else if tag == 3 {
        zstd_decompress(&body)
    } else {
        Err(GeyserPluginCosError::InternalError {
            msg: String::from_str("decompress: unknown method tag"),
        })
    };
    r
}

} // verus!
