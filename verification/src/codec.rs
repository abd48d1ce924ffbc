//! The compression formats of chunk payloads and of `.dat` files.
//!
//! The formats themselves are the work of the `flate2` and `lz4` crates. What
//! they compute is given a name here, and the functions of this module state
//! their results over those names; nothing in this module is proved about
//! the formats.

use std::io::Read;
use std::io::Write;
use vstd::prelude::*;

verus! {

/// The error of `std::io`, which the decoders and encoders return. Nothing is
/// known of a value of it.
#[verifier::external_type_specification]
#[verifier::external_body]
pub struct ExIoError(std::io::Error);

/// What `flate2` makes of `data` read as a zlib stream: the bytes it holds,
/// or nothing where `data` is no such stream.
pub uninterp spec fn zlib_decoded(data: Seq<u8>) -> Option<Seq<u8>>;

/// What `flate2` makes of `data` read as a gzip member: the bytes it holds,
/// or nothing where `data` is no such member.
pub uninterp spec fn gzip_decoded(data: Seq<u8>) -> Option<Seq<u8>>;

/// The bytes that `lz4` reads out of `data` as an LZ4 frame, where it reads
/// it to the end.
pub uninterp spec fn lz4_decoded(data: Seq<u8>) -> Seq<u8>;

/// The zlib stream that `flate2` writes for `data` at its default level, or
/// nothing where its compressor fails on `data`.
pub uninterp spec fn zlib_encoded(data: Seq<u8>) -> Option<Seq<u8>>;

/// The gzip member that `flate2` writes for `data` at its default level, or
/// nothing where its compressor fails on `data`.
pub uninterp spec fn gzip_encoded(data: Seq<u8>) -> Option<Seq<u8>>;

/// Reads `data` to the end through `flate2::read::ZlibDecoder`. The claim:
/// whether this succeeds, and with which bytes, depends on `data` alone, and
/// is what `zlib_decoded` names.
#[verifier::external_body]
pub(crate) fn zlib_decode(data: &[u8]) -> (r: Result<Vec<u8>, std::io::Error>)
    ensures
        match r {
            Ok(v) => zlib_decoded(data@) == Some(v@),
            Err(_) => zlib_decoded(data@) is None,
        },
{
    let mut out = Vec::new();
    flate2::read::ZlibDecoder::new(data).read_to_end(&mut out)?;
    Ok(out)
}

/// Reads `data` to the end through `flate2::read::GzDecoder`. The claim:
/// whether this succeeds, and with which bytes, depends on `data` alone, and
/// is what `gzip_decoded` names.
#[verifier::external_body]
pub(crate) fn gzip_decode(data: &[u8]) -> (r: Result<Vec<u8>, std::io::Error>)
    ensures
        match r {
            Ok(v) => gzip_decoded(data@) == Some(v@),
            Err(_) => gzip_decoded(data@) is None,
        },
{
    let mut out = Vec::new();
    flate2::read::GzDecoder::new(data).read_to_end(&mut out)?;
    Ok(out)
}

/// Reads `data` to the end through `lz4::Decoder`. The claim: where this
/// succeeds, the bytes read depend on `data` alone and are what
/// `lz4_decoded` names. Nothing is claimed of a failure: the decoder may
/// also fail for want of memory.
#[verifier::external_body]
pub(crate) fn lz4_decode(data: &[u8]) -> (r: Result<Vec<u8>, std::io::Error>)
    ensures
        r matches Ok(v) ==> v@ == lz4_decoded(data@),
{
    let mut out = Vec::new();
    lz4::Decoder::new(data)?.read_to_end(&mut out)?;
    Ok(out)
}

/// Writes `data` through `flate2::write::ZlibEncoder` at the default level
/// into an empty vector. The claim: a vector takes all that is written to it,
/// so whether this succeeds, and with which bytes, depends on `data` alone,
/// and is what `zlib_encoded` names.
#[verifier::external_body]
pub(crate) fn zlib_encode(data: &[u8]) -> (r: Result<Vec<u8>, std::io::Error>)
    ensures
        match r {
            Ok(v) => zlib_encoded(data@) == Some(v@),
            Err(_) => zlib_encoded(data@) is None,
        },
{
    let mut encoder = flate2::write::ZlibEncoder::new(Vec::new(), flate2::Compression::default());
    encoder.write_all(data)?;
    encoder.finish()
}

/// Writes `data` through `flate2::write::GzEncoder` at the default level
/// into an empty vector. The claim: a vector takes all that is written to it,
/// so whether this succeeds, and with which bytes, depends on `data` alone,
/// and is what `gzip_encoded` names.
#[verifier::external_body]
pub(crate) fn gzip_encode(data: &[u8]) -> (r: Result<Vec<u8>, std::io::Error>)
    ensures
        match r {
            Ok(v) => gzip_encoded(data@) == Some(v@),
            Err(_) => gzip_encoded(data@) is None,
        },
{
    let mut encoder = flate2::write::GzEncoder::new(Vec::new(), flate2::Compression::default());
    encoder.write_all(data)?;
    encoder.finish()
}

} // verus!
