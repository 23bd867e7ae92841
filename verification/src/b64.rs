//! Base64 is how an entry keeps its salt and meat inside the textual store.
//! The encoding itself is done by the `base64` crate; the library only
//! relies on the two named results below and on the round trip between
//! them.

use vstd::prelude::*;

verus! {

/// The standard, padded base64 rendering of a byte sequence.
pub uninterp spec fn b64_of(bytes: Seq<u8>) -> Seq<char>;

/// What standard, padded base64 decoding makes of a character sequence:
/// the decoded bytes, or nothing when the text is not canonical base64.
pub uninterp spec fn b64_decode_of(text: Seq<char>) -> Option<Seq<u8>>;

/// Relies on `base64::Engine::encode` with the `STANDARD` engine: the
/// output is the RFC 4648 rendering of the input, four ASCII characters
/// for every three bytes with `=` padding, and decoding it with the same
/// engine gives the input back.
#[verifier::external_body]
pub(crate) fn b64_encode(bytes: &[u8]) -> (r: String)
    ensures
        r@ == b64_of(bytes@),
        r@.len() == 4 * ((bytes@.len() + 2) / 3),
        b64_decode_of(r@) == Some(bytes@),
{
    base64::Engine::encode(&base64::engine::general_purpose::STANDARD, bytes)
}

/// Relies on `base64::Engine::decode` with the `STANDARD` engine: it
/// succeeds exactly on canonical padded base64 text, and a success decodes
/// three bytes out of every four characters, so the result is never longer
/// than the input.
#[verifier::external_body]
pub(crate) fn b64_decode(text: &str) -> (r: Option<Vec<u8>>)
    ensures
        match r {
            Some(bytes) => b64_decode_of(text@) == Some(bytes@) && bytes@.len() <= text@.len(),
            None => b64_decode_of(text@) is None,
        },
{
    match base64::Engine::decode(&base64::engine::general_purpose::STANDARD, text) {
        Ok(bytes) => Some(bytes),
        Err(_) => None,
    }
}

} // verus!
