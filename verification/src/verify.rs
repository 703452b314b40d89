//! Piece hashes: SHA-1, as the `sha1` crate computes it.
use vstd::prelude::*;
use sha1::{Digest, Sha1};

verus! {

/// The SHA-1 digest of `data`.
pub uninterp spec fn sha1_digest(data: Seq<u8>) -> Seq<u8>;

/// Calls `Sha1::digest` of the `sha1` crate on `data` and returns the 20
/// bytes of the digest. Trusted: the contract claims only that the result is
/// the digest of exactly these bytes, a function of them alone.
#[verifier::external_body]
fn sha1(data: &[u8]) -> (r: [u8; 20])
    ensures
        r@ == sha1_digest(data@),
{
    Sha1::digest(data).into()
}

/// The SHA-1 digest of a piece.
pub fn piece_digest(data: &[u8]) -> (r: [u8; 20])
    ensures
        r@ == sha1_digest(data@),
{
    sha1(data)
}

/// Whether `data` hashes to `expected`.
pub fn verify_piece(data: &[u8], expected: &[u8; 20]) -> (r: bool)
    ensures
        r == (sha1_digest(data@) == expected@),
{
    let digest = sha1(data);
    crate::wire::bytes_eq(&digest, expected)
}

} // verus!
