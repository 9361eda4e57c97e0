//! The zlib streams that binary archives store compressed records in.
use vstd::prelude::*;

use std::io::Read;

verus! {

/// What `flate2`'s zlib decoder reads from a stream: the decoded bytes, or
/// `None` where it reports an error.
pub uninterp spec fn zlib_inflate(stream: Seq<u8>) -> Option<Seq<u8>>;

/// What `flate2`'s zlib encoder writes for `data` at a compression level, or
/// `None` where it reports an error.
pub uninterp spec fn zlib_deflate(data: Seq<u8>, level: u32) -> Option<Seq<u8>>;

/// Decodes a zlib stream with `flate2::read::ZlibDecoder` and `read_to_end`:
/// the result is named `zlib_inflate` of the stream; nothing is claimed of
/// which streams decode.
#[verifier::external_body]
pub(crate) fn inflate(stream: &[u8]) -> (r: Option<Vec<u8>>)
    ensures
        match r {
            Some(v) => zlib_inflate(stream@) == Some(v@),
            None => zlib_inflate(stream@) is None,
        },
{
    let mut decoded = Vec::new();
    match flate2::read::ZlibDecoder::new(stream).read_to_end(&mut decoded) {
        Ok(_) => Some(decoded),
        Err(_) => None,
    }
}

/// Encodes bytes as a zlib stream with `flate2::read::ZlibEncoder` at
/// `flate2::Compression::new(level)` and `read_to_end`: the result is named
/// `zlib_deflate` of the bytes and level, and a stream it writes decodes back
/// to the bytes, as for any lossless encoder. flate2 documents levels 0 to 9, and
/// its backends assert the level in debug builds, so only those levels are passed.
#[verifier::external_body]
pub(crate) fn deflate(data: &[u8], level: u32) -> (r: Option<Vec<u8>>)
    requires
        level <= 9,
    ensures
        match r {
            Some(v) => zlib_deflate(data@, level) == Some(v@) && zlib_inflate(v@) == Some(data@),
            None => zlib_deflate(data@, level) is None,
        },
{
    let mut encoded = Vec::new();
    match flate2::read::ZlibEncoder::new(data, flate2::Compression::new(level)).read_to_end(
        &mut encoded,
    ) {
        Ok(_) => Some(encoded),
        Err(_) => None,
    }
}

} // verus!
