//! Object names and compressed storage, through the `sha1` and `flate2`
//! crates.

use std::io::Read;
use std::io::Write;
use sha1::Digest;
use vstd::prelude::*;

verus! {

/// The SHA-1 digest of `data`, as the `sha1` crate computes it.
pub uninterp spec fn sha1_of(data: Seq<u8>) -> Seq<u8>;

/// The zlib stream that `flate2` writes for `data` at the default level, or
/// `None` where writing it fails.
pub uninterp spec fn zlib_compressed(data: Seq<u8>) -> Option<Seq<u8>>;

/// What `flate2` reads out of the zlib stream `data`: the bytes it gives
/// before the stream ends or breaks, and whether it ended cleanly.
pub uninterp spec fn zlib_inflated(data: Seq<u8>) -> (Seq<u8>, bool);

#[verifier::external_type_specification]
#[verifier::external_body]
pub struct ExIoError(std::io::Error);

/// Calls `Sha1::digest` from the `sha1` crate. The digest is a function of
/// the data alone and is 20 bytes long; nothing more of it is stated.
#[verifier::external_body]
pub(crate) fn sha1_digest(data: &[u8]) -> (res: Vec<u8>)
    ensures
        res@ == sha1_of(data@),
        res@.len() == 20,
{
    sha1::Sha1::digest(data).to_vec()
}

/// Compresses `data` with `flate2::write::ZlibEncoder` at the default level,
/// writing into a vector and calling `finish`. Whether it succeeds, and the
/// stream it writes, are functions of the data alone; reading the stream
/// back with `flate2` gives the data again, to a clean end. Which error can
/// come is not stated.
#[verifier::external_body]
pub(crate) fn zlib_compress(data: &[u8]) -> (res: Result<Vec<u8>, std::io::Error>)
    ensures
        res is Ok <==> zlib_compressed(data@) is Some,
        res matches Ok(c) ==> zlib_compressed(data@) == Some(c@),
        res matches Ok(c) ==> zlib_inflated(c@) == (data@, true),
{
    let mut z = flate2::write::ZlibEncoder::new(Vec::new(), flate2::Compression::default());
    match z.write_all(data) {
        Ok(()) => z.finish(),
        Err(e) => Err(e),
    }
}

/// Reads `data` through `flate2::read::ZlibDecoder` with `read_to_end`,
/// which keeps the bytes read before an error. The bytes and whether the
/// reading ended without error are a function of the data alone.
#[verifier::external_body]
pub(crate) fn zlib_decompress(data: &[u8]) -> (res: (Vec<u8>, bool))
    ensures
        (res.0@, res.1) == zlib_inflated(data@),
{
    let mut out: Vec<u8> = Vec::new();
    let clean = flate2::read::ZlibDecoder::new(data).read_to_end(&mut out).is_ok();
    (out, clean)
}

} // verus!
