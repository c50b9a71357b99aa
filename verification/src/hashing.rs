//! Cryptographic hashing, delegated entirely to an external primitive:
//! only its input/output contract is consumed here.

use vstd::prelude::*;
use sha2::{Digest, Sha256};

verus! {

/// The lower-hex digest of the SHA-256 hash of a character sequence: a
/// function of the input alone.
pub uninterp spec fn sha256_hex_of(data: Seq<char>) -> Seq<char>;

/// Relies on `sha2::Sha256` through the `Digest` interface and on
/// lower-hex formatting: the 32-byte digest is a function of the input
/// bytes alone, and it formats as exactly 64 hex characters.
#[verifier::external_body]
fn sha256_hex_digest(data: &str) -> (r: String)
    ensures
        r@ == sha256_hex_of(data@),
        r@.len() == 64,
{
    let mut hasher = Sha256::new();
    hasher.update(data.as_bytes());
    format!("{:x}", hasher.finalize())
}

/// The SHA-256 hex digest of `data`: 64 lower-hex characters determined by
/// the input alone.
pub fn sha256_hex(data: &str) -> (r: String)
    ensures
        r@ == sha256_hex_of(data@),
        r@.len() == 64,
{
    sha256_hex_digest(data)
}

} // verus!
