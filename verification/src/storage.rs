//! Snapshot codec: gzip framing of serialized snapshot text.
//!
//! Compression and decompression are done by an outside byte-stream
//! compressor at its strongest level; the library states the framing —
//! what the compressor returns is named `gzip_of`, what decoding a
//! stream yields is named `gzip_decode_of`, and decompression recovers
//! exactly the text whose encoding was compressed, so the round trip is
//! lossless by contract.  Compression into an in-memory sink always
//! succeeds; decompression classifies its failures: a stream that does
//! not decode, and decoded bytes that are not text.

use std::io::{Read, Write};

use vstd::prelude::*;
use vstd::utf8::{encode_utf8, decode_utf8, valid_utf8};

verus! {

/// What decompression can reject: a payload that is not a gzip stream,
/// or one whose decoded bytes are not text.  `CompressionFailed` is the
/// error arm of the compressor's interface; with a growable in-memory
/// sink it does not occur.
#[derive(Clone, Copy, PartialEq, Eq, Structural, Debug)]
pub enum StorageError {
    CompressionFailed,
    DecompressionFailed,
    InvalidEncoding,
}

/// The gzip stream produced for a byte sequence: fixed format and
/// level, so a function of the bytes alone.
pub uninterp spec fn gzip_of(data: Seq<u8>) -> Seq<u8>;

/// What gzip decoding yields for a byte sequence: the decoded bytes of
/// a well-formed stream, nothing otherwise; a function of the bytes
/// alone.
pub uninterp spec fn gzip_decode_of(data: Seq<u8>) -> Option<Seq<u8>>;

/// Relies on flate2's `GzEncoder` (`write_all`, then `finish`) at
/// `Compression::best` into a `Vec` sink: the `Vec` writer never fails
/// and the encoder surfaces only its sink's errors, so the call always
/// succeeds, and the stream it produces depends on the input bytes
/// alone.
#[verifier::external_body]
fn gzip_compress(data: &[u8]) -> (r: Result<Vec<u8>, StorageError>)
    ensures
        r is Ok,
        r->Ok_0@ == gzip_of(data@),
{
    let mut encoder = flate2::write::GzEncoder::new(Vec::new(), flate2::Compression::best());
    if encoder.write_all(data).is_err() {
        return Err(StorageError::CompressionFailed);
    }
    match encoder.finish() {
        Ok(v) => Ok(v),
        Err(_) => Err(StorageError::CompressionFailed),
    }
}

/// Relies on flate2's `GzDecoder` (`read_to_end`): decoding is a
/// function of the bytes alone, it errs exactly on streams that do not
/// decode, and it decodes any stream the encoder produced back to the
/// encoder's input.
#[verifier::external_body]
fn gzip_decompress(data: &[u8]) -> (r: Result<Vec<u8>, StorageError>)
    ensures
        r is Ok ==> gzip_decode_of(data@) == Some(r->Ok_0@),
        r is Err ==> gzip_decode_of(data@) is None
            && r->Err_0 == StorageError::DecompressionFailed,
        forall|s: Seq<u8>| data@ == gzip_of(s) ==> r is Ok && r->Ok_0@ == s,
{
    let mut decoder = flate2::read::GzDecoder::new(data);
    let mut out: Vec<u8> = Vec::new();
    match decoder.read_to_end(&mut out) {
        Ok(_) => Ok(out),
        Err(_) => Err(StorageError::DecompressionFailed),
    }
}

/// Relies on `String::from_utf8`: it succeeds exactly on valid UTF-8
/// and decodes it.
#[verifier::external_body]
fn string_from_utf8(bytes: Vec<u8>) -> (r: Result<String, StorageError>)
    ensures
        valid_utf8(bytes@) ==> r is Ok,
        r is Ok ==> valid_utf8(bytes@) && r->Ok_0@ == decode_utf8(bytes@),
        r is Err ==> r->Err_0 == StorageError::InvalidEncoding,
{
    match String::from_utf8(bytes) {
        Ok(s) => Ok(s),
        Err(_) => Err(StorageError::InvalidEncoding),
    }
}

/// Compresses serialized snapshot text into a gzip stream.  It always
/// succeeds, and the stream is exactly the compressor's output for the
/// text's encoding.
pub fn compress_snapshot_data(snapshot_json: &str) -> (r: Result<Vec<u8>, StorageError>)
    ensures
        r is Ok,
        r->Ok_0@ == gzip_of(encode_utf8(snapshot_json@)),
{
    gzip_compress(snapshot_json.as_bytes())
}

/// Decompresses a snapshot payload.  On any stream the compressor
/// produced for some text, it succeeds and returns exactly that text —
/// the round trip is lossless.  Every other payload is classified: one
/// that does not decode as gzip is `DecompressionFailed`, one that
/// decodes to bytes that are not text is `InvalidEncoding`.
pub fn decompress_snapshot_data(compressed: &[u8]) -> (r: Result<String, StorageError>)
    ensures
        forall|s: Seq<char>| compressed@ == gzip_of(encode_utf8(s))
            ==> r is Ok && r->Ok_0@ == s,
        r is Ok ==> gzip_decode_of(compressed@) is Some
            && valid_utf8(gzip_decode_of(compressed@)->0)
            && r->Ok_0@ == decode_utf8(gzip_decode_of(compressed@)->0),
        gzip_decode_of(compressed@) is None
            ==> r is Err && r->Err_0 == StorageError::DecompressionFailed,
        gzip_decode_of(compressed@) is Some && !valid_utf8(gzip_decode_of(compressed@)->0)
            ==> r is Err && r->Err_0 == StorageError::InvalidEncoding,
{
    match gzip_decompress(compressed) {
        Ok(bytes) => {
            let r = string_from_utf8(bytes);
            proof {
                assert forall|s: Seq<char>| compressed@ == gzip_of(encode_utf8(s))
                    implies r is Ok && r->Ok_0@ == s by {
                    vstd::utf8::encode_utf8_valid_utf8(s);
                    vstd::utf8::encode_utf8_decode_utf8(s);
                }
            }
            r
        },
        Err(e) => Err(e),
    }
}

} // verus!
