use vstd::prelude::*;
use base64::Engine;
use crate::timestamp::{dec_bytes, encode_micros, parse_micros, Timestamp};

verus! {

/// The characters that base64's standard engine produces for a byte string.
pub uninterp spec fn b64_of(b: Seq<u8>) -> Seq<char>;

#[verifier::external_type_specification]
#[verifier::external_body]
pub struct ExDecodeError(base64::DecodeError);

/// Relies on base64's `STANDARD` engine `encode`: the output characters
/// depend on the input bytes alone.
#[verifier::external_body]
fn b64_encode(b: &[u8]) -> (r: String)
    ensures
        r@ == b64_of(b@),
{
    base64::engine::general_purpose::STANDARD.encode(b)
}

/// Relies on base64's `STANDARD` engine `decode`: it requires canonical
/// padding and rejects set trailing bits, so it accepts exactly the strings
/// that `encode` produces and returns the bytes that were encoded.
#[verifier::external_body]
fn b64_decode(s: &str) -> (r: Result<Vec<u8>, base64::DecodeError>)
    ensures
        r matches Ok(v) ==> s@ == b64_of(v@) && (forall|b: Seq<u8>| s@ == b64_of(b) ==> b == v@),
        r is Err ==> forall|b: Seq<u8>| s@ != b64_of(b),
{
    base64::engine::general_purpose::STANDARD.decode(s.as_bytes())
}

/// A supplied pagination cursor failed to decode or parse; a client-input
/// error, distinct from any storage failure.
#[derive(Clone, Copy, PartialEq, Eq, Structural, Debug)]
pub enum CursorError {
    InvalidCursor,
}

/// The opaque cursor string that stands for the instant `micros`.
pub open spec fn cursor_of(micros: int) -> Seq<char> {
    b64_of(dec_bytes(micros))
}

/// Encodes a timestamp as an opaque cursor string.
pub fn encode_cursor(t: Timestamp) -> (r: String)
    ensures
        r@ == cursor_of(t.micros as int),
{
    let bytes = encode_micros(t.micros);
    b64_encode(bytes.as_slice())
}

/// Decodes an opaque cursor string back into the timestamp it stands for.
///
/// Succeeds exactly on the strings that `encode_cursor` produces; everything
/// else—foreign formats, corrupted or truncated strings, non-canonical
/// renderings—fails with `InvalidCursor`.
pub fn decode_cursor(s: &str) -> (r: Result<Timestamp, CursorError>)
    ensures
        r matches Ok(t) ==> s@ == cursor_of(t.micros as int),
        forall|m: i64| s@ == cursor_of(m as int) ==> r == Ok::<Timestamp, CursorError>(
            Timestamp { micros: m },
        ),
        r matches Err(e) ==> e == CursorError::InvalidCursor,
{
    match b64_decode(s) {
        Ok(bytes) => {
            match parse_micros(bytes.as_slice()) {
                Some(v) => Ok(Timestamp { micros: v }),
                None => Err(CursorError::InvalidCursor),
            }
        },
        Err(_) => Err(CursorError::InvalidCursor),
    }
}

/// Law: decoding an encoded cursor gives back the original timestamp,
/// for every representable timestamp.
pub fn cursor_round_trip(t: Timestamp) -> (r: Result<Timestamp, CursorError>)
    ensures
        r == Ok::<Timestamp, CursorError>(t),
{
    let s = encode_cursor(t);
    decode_cursor(s.as_str())
}

} // verus!
