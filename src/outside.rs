use flate2::read::ZlibDecoder;
use flate2::write::ZlibEncoder;
use flate2::Compression;
use sha1::Digest;
use sha1::Sha1;
use std::io::Read;
use std::io::Write;
use vstd::prelude::*;
use vstd::utf8::valid_utf8;

verus! {

/// The SHA-1 digest of a byte sequence.
pub uninterp spec fn sha1_digest(b: Seq<u8>) -> Seq<u8>;

/// The zlib stream that flate2 writes for a byte sequence at the default level.
pub uninterp spec fn zlib_deflated(b: Seq<u8>) -> Seq<u8>;

/// What flate2 reads back from a zlib stream: `None` when the stream is corrupt
/// or truncated.
pub uninterp spec fn zlib_inflated(b: Seq<u8>) -> Option<Seq<u8>>;

/// Relies on `sha1::Sha1` through `Digest::digest`: the SHA-1 digest of `b`,
/// whose output size is 20 bytes.
#[verifier::external_body]
pub(crate) fn sha1(b: &[u8]) -> (r: Vec<u8>)
    ensures
        r@ == sha1_digest(b@),
        r@.len() == 20,
{
    Sha1::digest(b).to_vec()
}

/// Relies on `flate2::write::ZlibEncoder` at `Compression::default()`: the
/// compressed stream for `b`. Writing into a `Vec` and finishing a fresh
/// stream do not fail.
#[verifier::external_body]
pub(crate) fn zlib_compress(b: &[u8]) -> (r: Option<Vec<u8>>)
    ensures
        r is Some,
        r matches Some(v) ==> v@ == zlib_deflated(b@),
{
    let mut encoder = ZlibEncoder::new(Vec::new(), Compression::default());
    match encoder.write_all(b) {
        Ok(()) => encoder.finish().ok(),
        Err(_) => None,
    }
}

/// Relies on `flate2::read::ZlibDecoder` and `Read::read_to_end`: the bytes
/// that the zlib stream `b` holds, or `None` when the stream is not valid.
#[verifier::external_body]
pub(crate) fn zlib_decompress(b: &[u8]) -> (r: Option<Vec<u8>>)
    ensures
        match r {
            Some(v) => zlib_inflated(b@) == Some(v@),
            None => zlib_inflated(b@) is None,
        },
{
    let mut out = Vec::new();
    match ZlibDecoder::new(b).read_to_end(&mut out) {
        Ok(_) => Some(out),
        Err(_) => None,
    }
}

/// Relies on `core::str::from_utf8`: it succeeds exactly on valid UTF-8.
#[verifier::external_body]
pub(crate) fn is_utf8(b: &[u8]) -> (r: bool)
    ensures
        r == valid_utf8(b@),
{
    core::str::from_utf8(b).is_ok()
}

/// Relies on `String::push`: appends one character.
#[verifier::external_body]
pub(crate) fn push_char(s: &mut String, c: char)
    ensures
        final(s)@ == old(s)@.push(c),
{
    s.push(c)
}

} // verus!
