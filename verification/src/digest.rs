//! The deterministic digest that a fresh pseudonym is derived from.

use vstd::prelude::*;

verus! {

/// The SHA-256 digest of `event`, written as lowercase hexadecimal bytes.
/// The digest is a pure function of the input bytes, with no salt, so the
/// same identifier receives the same pseudonym in every run.
pub uninterp spec fn sha256_hex_of(event: Seq<u8>) -> Seq<u8>;

/// Relies on sha256::digest: it returns the SHA-256 digest of the input
/// bytes as a 64-character lowercase hexadecimal string, a function of the
/// input bytes alone.
#[verifier::external_body]
pub(crate) fn digest_sha256(event: &Vec<u8>) -> (r: Vec<u8>)
    ensures
        r@ == sha256_hex_of(event@),
        r@.len() == 64,
{
    sha256::digest(event).into_bytes()
}

} // verus!
