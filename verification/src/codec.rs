//! Trusted codecs: LZ4 compression for the overflow tier and standard
//! base64 for wire text.

use vstd::prelude::*;
use std::io::{Read, Write};
use base64::Engine;

verus! {

/// The LZ4 frame encoding (level 4) of a byte sequence.
pub uninterp spec fn lz4_deflate(data: Seq<u8>) -> Seq<u8>;

/// The LZ4 frame decoding of a byte sequence; `None` on corrupt input.
pub uninterp spec fn lz4_inflate(data: Seq<u8>) -> Option<Seq<u8>>;

/// Relies on lz4's Encoder (level 4): the output is a pure function of the
/// input bytes, and decoding it yields the input exactly — LZ4 is lossless,
/// for the empty input too.
#[verifier::external_body]
pub fn compress(data: &Vec<u8>) -> (r: Option<Vec<u8>>)
    ensures
        r matches Some(c) ==> c@ == lz4_deflate(data@) && lz4_inflate(c@) == Some(data@),
{
    let mut enc = lz4::EncoderBuilder::new().level(4).build(Vec::new()).ok()?;
    enc.write_all(data.as_slice()).ok()?;
    let (out, res) = enc.finish();
    res.ok()?;
    Some(out)
}

/// Relies on lz4's Decoder: decoding is a pure function of the input bytes
/// and fails exactly on bytes that are not a well-formed LZ4 frame.
#[verifier::external_body]
pub fn decompress(data: &Vec<u8>) -> (r: Option<Vec<u8>>)
    ensures
        r matches Some(o) ==> lz4_inflate(data@) == Some(o@),
        r is None ==> lz4_inflate(data@) is None,
{
    let mut dec = lz4::Decoder::new(std::io::Cursor::new(data.as_slice())).ok()?;
    let mut out = Vec::new();
    dec.read_to_end(&mut out).ok()?;
    Some(out)
}

/// The standard base64 text (with padding) of a byte sequence.
pub uninterp spec fn b64_of(data: Seq<u8>) -> Seq<char>;

/// The standard base64 decoding of a text; `None` when it is not valid
/// standard base64.
pub uninterp spec fn b64_decode_of(s: Seq<char>) -> Option<Seq<u8>>;

/// Relies on base64's STANDARD engine encode: the text is a pure function of
/// the bytes, decodes back to them, and is empty exactly for empty input.
#[verifier::external_body]
pub fn b64_encode(data: &Vec<u8>) -> (r: String)
    ensures
        r@ == b64_of(data@),
        b64_decode_of(r@) == Some(data@),
        (r@.len() == 0) == (data@.len() == 0),
{
    base64::engine::general_purpose::STANDARD.encode(data.as_slice())
}

/// Relies on base64's STANDARD engine decode: a pure function of the text,
/// failing exactly on text that is not standard base64.
#[verifier::external_body]
pub fn b64_decode(s: &str) -> (r: Option<Vec<u8>>)
    ensures
        r matches Some(b) ==> b64_decode_of(s@) == Some(b@),
        r is None ==> b64_decode_of(s@) is None,
{
    base64::engine::general_purpose::STANDARD.decode(s).ok()
}

} // verus!
