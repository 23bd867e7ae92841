//! The derivation engine: keystream generation and the random inputs it
//! consumes when a new entry is created.

use vstd::prelude::*;

use crate::errors::ChaosError;

verus! {

/// Length of a per-entry salt, the cipher's extended nonce.
pub const SALT_LENGTH: usize = 24;

/// Length of the master key.
pub const KEY_LENGTH: usize = 32;

/// What the XSalsa20 stream cipher produces when a buffer `input` is
/// processed under `key` and the extended nonce `salt`: the input XORed
/// with the keystream.  The result is a pure function of the three
/// arguments, which is exactly the determinism the library relies on.
pub uninterp spec fn xsalsa20_of(key: Seq<u8>, salt: Seq<u8>, input: Seq<u8>) -> Seq<u8>;

/// Relies on `crypto::salsa20::Salsa20::new_xsalsa20` and
/// `SynchronousStreamCipher::process`: the constructor accepts exactly a
/// 32-byte key and a 24-byte nonce, and `process` fills an output buffer of
/// the input's length with the input XORed against the keystream, a
/// deterministic function of key, nonce and input.
#[verifier::external_body]
fn xsalsa20_process(key: &[u8], salt: &[u8], input: &[u8]) -> (r: Vec<u8>)
    requires
        key@.len() == 32,
        salt@.len() == 24,
    ensures
        r@ == xsalsa20_of(key@, salt@, input@),
        r@.len() == input@.len(),
{
    let mut cipher = crypto::salsa20::Salsa20::new_xsalsa20(key, salt);
    let mut buf: Vec<u8> = vec![0u8; input.len()];
    crypto::symmetriccipher::SynchronousStreamCipher::process(&mut cipher, input, &mut buf);
    buf
}

/// Relies on `rand::rngs::SysRng::try_fill_bytes` (via `rand::TryRng`): it
/// fills the buffer from the operating system's secure random source.
/// Nothing can be promised of the values, only of the length.
#[verifier::external_body]
fn random_bytes(n: usize) -> (r: Vec<u8>)
    ensures
        r@.len() == n,
{
    let mut buf: Vec<u8> = vec![0u8; n];
    rand::TryRng::try_fill_bytes(&mut rand::rngs::SysRng, &mut buf)
        .expect("system random source failed");
    buf
}

/// Generate the raw password byte stream for `key` and `salt`.
///
/// The stream is the XSalsa20 processing of `meat`, so it is byte-identical
/// on every call with the same inputs, and exactly as long as `meat`.
pub fn generate_password(key: &[u8], meat: &[u8], salt: &[u8]) -> (r: Vec<u8>)
    requires
        key@.len() == KEY_LENGTH,
        salt@.len() == SALT_LENGTH,
    ensures
        r@ == xsalsa20_of(key@, salt@, meat@),
        r@.len() == meat@.len(),
{
    xsalsa20_process(key, salt, meat)
}

/// Generate the raw password byte stream, rejecting ill-sized inputs
/// instead of requiring them away: the key must be 32 bytes and the salt
/// 24, and each violation is reported as its own error.
pub fn derive(key: &[u8], meat: &[u8], salt: &[u8]) -> (r: Result<Vec<u8>, ChaosError>)
    ensures
        key@.len() != KEY_LENGTH ==> r == Err::<Vec<u8>, ChaosError>(ChaosError::InvalidKeyLength),
        key@.len() == KEY_LENGTH && salt@.len() != SALT_LENGTH ==> r == Err::<Vec<u8>, ChaosError>(
            ChaosError::InvalidNonceLength,
        ),
        key@.len() == KEY_LENGTH && salt@.len() == SALT_LENGTH ==> (r matches Ok(stream)
            && stream@ == xsalsa20_of(key@, salt@, meat@) && stream@.len() == meat@.len()),
{
    if key.len() != KEY_LENGTH {
        Err(ChaosError::InvalidKeyLength)
    } else if salt.len() != SALT_LENGTH {
        Err(ChaosError::InvalidNonceLength)
    } else {
        Ok(generate_password(key, meat, salt))
    }
}

/// Generate a fresh random salt of the fixed salt length.
pub fn generate_salt() -> (r: Vec<u8>)
    ensures
        r@.len() == SALT_LENGTH,
{
    random_bytes(SALT_LENGTH)
}

/// Generate a fresh random meat of `i` bytes; only its length ever matters
/// to derivation.
pub fn generate_meat(i: usize) -> (r: Vec<u8>)
    ensures
        r@.len() == i,
{
    random_bytes(i)
}

/// Generate a fresh random master key.
pub fn generate_key() -> (r: Vec<u8>)
    ensures
        r@.len() == KEY_LENGTH,
{
    random_bytes(KEY_LENGTH)
}

/// The key file's single line, base64: how a fresh key is persisted.
pub fn encode_key(key: &[u8]) -> (r: String)
    ensures
        r@ == crate::b64::b64_of(key@),
        crate::b64::b64_decode_of(r@) == Some(key@),
{
    crate::b64::b64_encode(key)
}

/// Read the master key back out of the key file's text: the first line,
/// base64-decoded.  An empty file or a line that is not base64 is a
/// decode failure, never a silently wrong key.
pub fn decode_key(text: &str) -> (r: Result<Vec<u8>, ChaosError>)
    ensures
        text@.len() == 0 ==> r == Err::<Vec<u8>, ChaosError>(ChaosError::Base64DecodeFailure),
        text@.len() > 0 ==> match crate::b64::b64_decode_of(
            crate::codec::spec_first_line(text@),
        ) {
            Some(b) => r matches Ok(k) && k@ == b,
            None => r == Err::<Vec<u8>, ChaosError>(ChaosError::Base64DecodeFailure),
        },
{
    if s_is_empty(text) {
        return Err(ChaosError::Base64DecodeFailure);
    }
    let line = crate::codec::first_line(text);
    match crate::b64::b64_decode(line.as_str()) {
        Some(bytes) => Ok(bytes),
        None => Err(ChaosError::Base64DecodeFailure),
    }
}

/// Is the text empty?
fn s_is_empty(s: &str) -> (r: bool)
    ensures
        r == (s@.len() == 0),
{
    s.unicode_len() == 0
}

} // verus!
