//! Trusted boundary to the generic byte compressors.
//!
//! The codecs squeeze their serialized payloads through two interchangeable
//! whole-stream compressors: a deflate-family one (flate2's gzip streams,
//! which are reproducible: fixed header fields, deterministic deflate) and a
//! frame-based one (zstd at level 3). Each call is a function of the input
//! bytes alone, so its result carries a spec-level name, and the
//! decompressors promise to invert exactly what the compressors produced.

use vstd::prelude::*;
use std::io::Read;
use std::io::Write;
use crate::MalformedBlobError;

verus! {

/// Bytes the deflate-family compressor produces at its highest level.
pub uninterp spec fn gzip_best_of(b: Seq<u8>) -> Seq<u8>;

/// Bytes the deflate-family compressor produces at its default level.
pub uninterp spec fn gzip_default_of(b: Seq<u8>) -> Seq<u8>;

/// Bytes the deflate-family decompressor yields when it succeeds.
pub uninterp spec fn gunzip_of(b: Seq<u8>) -> Seq<u8>;

/// Bytes the frame-based compressor produces at its balanced level.
pub uninterp spec fn zstd_frame_of(b: Seq<u8>) -> Seq<u8>;

/// Bytes the frame-based decompressor yields when it succeeds.
pub uninterp spec fn zstd_unframe_of(b: Seq<u8>) -> Seq<u8>;

/// Relies on flate2's `GzEncoder` at `Compression::best()`: it writes a
/// fixed header (zero mtime, constant OS byte) and a deterministic deflate
/// stream, and `finish` cannot fail on an in-memory sink.
#[verifier::external_body]
pub(crate) fn gzip_pack_best(data: &Vec<u8>) -> (r: Vec<u8>)
    ensures
        r@ == gzip_best_of(data@),
{
    let mut enc = flate2::write::GzEncoder::new(Vec::new(), flate2::Compression::best());
    enc.write_all(data).unwrap();
    enc.finish().unwrap()
}

/// Relies on flate2's `GzEncoder` at `Compression::default()`, as above.
#[verifier::external_body]
pub(crate) fn gzip_pack_default(data: &Vec<u8>) -> (r: Vec<u8>)
    ensures
        r@ == gzip_default_of(data@),
{
    let mut enc = flate2::write::GzEncoder::new(Vec::new(), flate2::Compression::default());
    enc.write_all(data).unwrap();
    enc.finish().unwrap()
}

/// Relies on flate2's `GzDecoder`: reading it back restores exactly the
/// bytes a `GzEncoder` consumed, and it reports an error rather than
/// panicking on input that is not a gzip stream.
#[verifier::external_body]
pub(crate) fn gzip_unpack(data: &[u8]) -> (r: Result<Vec<u8>, MalformedBlobError>)
    ensures
        r is Ok ==> r->Ok_0@ == gunzip_of(data@),
        forall|x: Seq<u8>| data@ == gzip_best_of(x) ==> r is Ok && r->Ok_0@ == x,
        forall|x: Seq<u8>| data@ == gzip_default_of(x) ==> r is Ok && r->Ok_0@ == x,
{
    let mut dec = flate2::read::GzDecoder::new(data);
    let mut out = Vec::new();
    match dec.read_to_end(&mut out) {
        Ok(_) => Ok(out),
        Err(_) => Err(MalformedBlobError),
    }
}

/// Relies on `zstd::encode_all` at level 3: a deterministic frame for a
/// given input, and no failure on an in-memory sink.
#[verifier::external_body]
pub(crate) fn zstd_pack(data: &Vec<u8>) -> (r: Vec<u8>)
    ensures
        r@ == zstd_frame_of(data@),
{
    zstd::encode_all(&data[..], 3).unwrap()
}

/// Relies on `zstd::decode_all`: it restores exactly the bytes
/// `encode_all` consumed and errors on malformed frames.
#[verifier::external_body]
pub(crate) fn zstd_unpack(data: &[u8]) -> (r: Result<Vec<u8>, MalformedBlobError>)
    ensures
        r is Ok ==> r->Ok_0@ == zstd_unframe_of(data@),
        forall|x: Seq<u8>| data@ == zstd_frame_of(x) ==> r is Ok && r->Ok_0@ == x,
{
    match zstd::decode_all(data) {
        Ok(out) => Ok(out),
        Err(_) => Err(MalformedBlobError),
    }
}

} // verus!
