//! The error taxonomy of the library.

use vstd::prelude::*;

verus! {

/// Everything that can go wrong inside the core.
///
/// - `InvalidKeyLength`, `InvalidNonceLength`: a derivation input contract
///   was violated (the master key must be 32 bytes, the salt 24 bytes).
/// - `UnknownFormat`: an entry carries a format code outside `1..=5`.
/// - `TitleNotFound`: a lookup asked for a title the store does not hold.
/// - `Base64DecodeFailure`: an entry's stored salt or meat does not decode.
/// - `MalformedStoreDocument`: the durable text form of the store does not
///   parse back into a store.
#[derive(Clone, Copy, Debug, PartialEq, Eq, Structural)]
pub enum ChaosError {
    InvalidKeyLength,
    InvalidNonceLength,
    UnknownFormat,
    TitleNotFound,
    Base64DecodeFailure,
    MalformedStoreDocument,
}

impl ChaosError {
    /// A short human-readable description, for the caller to print.
    pub fn describe(&self) -> (r: &'static str)
        ensures
            r@.len() > 0,
    {
        let r = match self {
            ChaosError::InvalidKeyLength => "master key is not exactly 32 bytes",
            ChaosError::InvalidNonceLength => "salt is not exactly 24 bytes",
            ChaosError::UnknownFormat => "unknown password format",
            ChaosError::TitleNotFound => "title does not exist",
            ChaosError::Base64DecodeFailure => "stored salt or meat is not valid base64",
            ChaosError::MalformedStoreDocument => "stored document does not parse",
        };
        proof {
            reveal_strlit("master key is not exactly 32 bytes");
            reveal_strlit("salt is not exactly 24 bytes");
            reveal_strlit("unknown password format");
            reveal_strlit("title does not exist");
            reveal_strlit("stored salt or meat is not valid base64");
            reveal_strlit("stored document does not parse");
        }
        r
    }
}

} // verus!
