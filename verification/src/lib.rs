//! A stateless, deterministic password generator.
//!
//! Instead of storing secret passwords, the library stores non-secret
//! per-entry metadata (a salt, a length-determining `meat` token, a display
//! format) and regenerates each password on demand by feeding that metadata,
//! together with one long-lived master key, through the XSalsa20 stream
//! cipher.  The metadata store round-trips losslessly through a canonical
//! JSON document, so it can be freely replicated without exposing anything.

pub mod b64;
pub mod codec;
pub mod common;
pub mod errors;
pub mod model;
