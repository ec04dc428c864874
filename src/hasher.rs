//! Content digest of encoded calls.
use vstd::prelude::*;

verus! {

/// The BLAKE2b-256 digest of a byte string.
pub uninterp spec fn blake2_256_of(data: Seq<u8>) -> Seq<u8>;

/// Relies on sp_crypto_hashing::blake2_256: the 32-byte BLAKE2b digest of
/// `data`, which depends on `data` alone.
#[verifier::external_body]
pub(crate) fn blake2_256(data: &Vec<u8>) -> (r: [u8; 32])
    ensures
        r@ == blake2_256_of(data@),
{
    sp_crypto_hashing::blake2_256(data.as_slice())
}

} // verus!
