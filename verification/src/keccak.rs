//! The one cryptographic primitive of the raffle: Keccak-256, supplied by an
//! outside implementation and named, not restated, at the specification
//! level.
use sha3::Digest;
use vstd::prelude::*;

verus! {

/// The Keccak-256 digest of a byte string. The digest itself is far too
/// involved to restate here; contracts speak of it only through this name.
pub uninterp spec fn keccak256_of(data: Seq<u8>) -> Seq<u8>;

/// Relies on sha3::Keccak256 (Keccak-256 with the original Keccak padding,
/// not SHA3-256): the 32-byte digest is a function of the input bytes alone.
#[verifier::external_body]
pub(crate) fn keccak256(data: &Vec<u8>) -> (r: [u8; 32])
    ensures
        r@ == keccak256_of(data@),
{
    let mut hasher = sha3::Keccak256::new();
    hasher.update(data.as_slice());
    hasher.finalize().into()
}

} // verus!
