//! The calls into outside code: SHA-256 from `ring`, zlib from `flate2`
//! and UTF-8 decoding from std. Everything here is believed, not proved.

use vstd::prelude::*;
use vstd::utf8::*;
use std::io::Read;
use std::io::Write;

verus! {

/// The SHA-256 digest of a byte string, as `ring` computes it.
pub uninterp spec fn sha256(data: Seq<u8>) -> Seq<u8>;

/// What `flate2`'s zlib decoder makes of a byte string: the decoded
/// bytes, or `None` where reading fails.
pub uninterp spec fn zlib_inflated(data: Seq<u8>) -> Option<Seq<u8>>;

/// What `flate2`'s zlib encoder, at the default level, makes of a byte
/// string: the encoded stream, or `None` where writing fails.
pub uninterp spec fn zlib_deflated(data: Seq<u8>) -> Option<Seq<u8>>;

/// The longest input for which `ring` computes a digest: its bit length
/// must fit in a `u64`.
pub open spec fn digest_input_ok(len: nat) -> bool {
    len * 8 <= u64::MAX
}

/// Calls `ring::digest::digest` with `ring::digest::SHA256` and copies the
/// digest out. Claims that the result is the named SHA-256 of `data` and
/// that it is 32 bytes long (`ring::digest::SHA256_OUTPUT_LEN`). `ring`
/// panics when the bit length of the input overflows a `u64`, which the
/// `requires` leaves out.
#[verifier::external_body]
pub(crate) fn sha256_digest(data: &[u8]) -> (res: Vec<u8>)
    requires
        digest_input_ok(data@.len()),
    ensures
        res@ == sha256(data@),
        res@.len() == 32,
{
    ring::digest::digest(&ring::digest::SHA256, data).as_ref().to_vec()
}

/// Reads `data` to its end through `flate2::read::ZlibDecoder`. Claims
/// that the result is the named decoding of `data`; nothing is said of
/// which inputs decode.
#[verifier::external_body]
pub(crate) fn zlib_decode(data: &[u8]) -> (res: Option<Vec<u8>>)
    ensures
        res is Some <==> zlib_inflated(data@) is Some,
        res matches Some(v) ==> zlib_inflated(data@) == Some(v@),
{
    let mut decoder = flate2::read::ZlibDecoder::new(data);
    let mut out: Vec<u8> = Vec::new();
    match decoder.read_to_end(&mut out) {
        Ok(_) => Some(out),
        Err(_) => None,
    }
}

/// Writes `data` through `flate2::write::ZlibEncoder` at
/// `flate2::Compression::default()` into a vector and finishes the stream.
/// Claims that the result is the named encoding of `data`, and that a
/// stream the encoder produced decodes back to `data` (the round trip that
/// `flate2` documents and tests).
#[verifier::external_body]
pub(crate) fn zlib_encode(data: &[u8]) -> (res: Option<Vec<u8>>)
    ensures
        res is Some <==> zlib_deflated(data@) is Some,
        res matches Some(v) ==> zlib_deflated(data@) == Some(v@),
        res matches Some(v) ==> zlib_inflated(v@) == Some(data@),
{
    let mut encoder = flate2::write::ZlibEncoder::new(Vec::new(), flate2::Compression::default());
    match encoder.write_all(data) {
        Ok(_) => encoder.finish().ok(),
        Err(_) => None,
    }
}

/// `String::from_utf8`: claims that it succeeds exactly on valid UTF-8 and
/// then holds the characters that the bytes encode.
#[verifier::external_body]
pub(crate) fn string_from_utf8(bytes: Vec<u8>) -> (res: Option<String>)
    ensures
        res is Some <==> valid_utf8(bytes@),
        res matches Some(s) ==> s@ == decode_utf8(bytes@),
{
    String::from_utf8(bytes).ok()
}

} // verus!
