//! zlib compression codec used by the compressed-bitmap body variant.

use vstd::prelude::*;

verus! {

use crate::errors::CompressionError;

/// Compression level the archive builder uses.
pub const DEFLATE_LEVEL: u8 = 5;

/// What `miniz_oxide::deflate::compress_to_vec_zlib` yields at the given
/// level on the given bytes.
pub uninterp spec fn zlib_deflate_of(level: u8, data: Seq<u8>) -> Seq<u8>;

/// What `miniz_oxide::inflate::decompress_to_vec_zlib` yields on the given
/// bytes: the decompressed data, or `None` when the stream is malformed.
pub uninterp spec fn zlib_inflate_of(data: Seq<u8>) -> Option<Seq<u8>>;

/// Relies on `miniz_oxide::deflate::compress_to_vec_zlib`: the result is a
/// function of the input and level alone, and is a well-formed zlib stream
/// that `decompress_to_vec_zlib` restores to the input.
#[verifier::external_body]
fn deflate_raw(data: &[u8], level: u8) -> (r: Vec<u8>)
    ensures
        r@ == zlib_deflate_of(level, data@),
        zlib_inflate_of(r@) == Some(data@),
{
    miniz_oxide::deflate::compress_to_vec_zlib(data, level)
}

/// Relies on `miniz_oxide::inflate::decompress_to_vec_zlib`: the result is
/// a function of the input alone, failing exactly on malformed streams.
#[verifier::external_body]
fn inflate_raw(data: &[u8]) -> (r: Option<Vec<u8>>)
    ensures
        match r {
            Some(v) => zlib_inflate_of(data@) == Some(v@),
            None => zlib_inflate_of(data@) is None,
        },
{
    match miniz_oxide::inflate::decompress_to_vec_zlib(data) {
        Ok(v) => Some(v),
        Err(_) => None,
    }
}

/// zlib deflation at the builder's fixed level. Never fails; inflating the
/// result gives the input back.
pub fn deflate(data: &[u8]) -> (r: Vec<u8>)
    ensures
        r@ == zlib_deflate_of(DEFLATE_LEVEL, data@),
        zlib_inflate_of(r@) == Some(data@),
{
    deflate_raw(data, DEFLATE_LEVEL)
}

/// zlib inflation, failing on malformed streams.
pub fn inflate(data: &[u8]) -> (r: Result<Vec<u8>, CompressionError>)
    ensures
        match r {
            Ok(v) => zlib_inflate_of(data@) == Some(v@),
            Err(e) => zlib_inflate_of(data@) is None && e == CompressionError::Malformed,
        },
{
    match inflate_raw(data) {
        Some(v) => Ok(v),
        None => Err(CompressionError::Malformed),
    }
}

} // verus!
