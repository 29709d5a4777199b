//! Binary-to-text representation of signatures: URL-safe base64, consistent
//! in both directions so that an encoded signature decodes to the same bytes.

use vstd::prelude::*;

verus! {

/// The URL-safe base64 text (alphabet `A-Z a-z 0-9 - _`, with padding) of a
/// byte string.  The text is a function of the bytes alone.
pub uninterp spec fn b64_of(bytes: Seq<u8>) -> Seq<char>;

/// A failure to decode a signature's transport representation.
#[derive(Clone, Copy, Debug, PartialEq, Eq, Structural)]
pub enum CodecError {
    /// The text is not valid URL-safe base64.
    InvalidBase64,
    /// The text decodes, but not to a signature of the MAC's output length.
    WrongSignatureLength,
}

#[verifier::external_type_specification]
#[verifier::external_body]
pub struct ExBase64DecodeError(base64::DecodeError);

/// Relies on base64's `URL_SAFE` engine: encoding is deterministic in the
/// input bytes and uses the URL-safe alphabet with canonical padding.
#[verifier::external_body]
pub fn as_base64(data: &[u8]) -> (r: String)
    ensures
        r@ == b64_of(data@),
        data@.len() == 0 ==> r@.len() == 0,
{
    base64::Engine::encode(&base64::engine::general_purpose::URL_SAFE, data)
}

/// Relies on base64's `URL_SAFE` engine: decoding inverts encoding, accepts
/// exactly the canonically padded encodings (no trailing bits, padding
/// required), and fails on every other input.
#[verifier::external_body]
fn b64_decode(s: &str) -> (r: Result<Vec<u8>, base64::DecodeError>)
    ensures
        (match r {
            Ok(b) => b64_of(b@) == s@ && (forall|x: Seq<u8>| b64_of(x) == s@ ==> x == b@),
            Err(_) => forall|x: Seq<u8>| b64_of(x) != s@,
        }),
{
    base64::Engine::decode(&base64::engine::general_purpose::URL_SAFE, s)
}

/// Decode a URL-safe base64 text back to bytes.  Succeeds exactly on the
/// texts that `as_base64` produces, and then returns the encoded bytes.
pub fn from_base64(s: &str) -> (r: Result<Vec<u8>, CodecError>)
    ensures
        (match r {
            Ok(b) => b64_of(b@) == s@ && (forall|x: Seq<u8>| b64_of(x) == s@ ==> x == b@),
            Err(e) => e == CodecError::InvalidBase64 && (forall|x: Seq<u8>| b64_of(x) != s@),
        }),
{
    match b64_decode(s) {
        Ok(b) => Ok(b),
        Err(_) => Err(CodecError::InvalidBase64),
    }
}

} // verus!
