//! Hash functions of outside crates that the library relies on.
use vstd::prelude::*;

verus! {

/// The BLAKE2b-256 digest of `data`.
pub uninterp spec fn blake2_256_spec(data: Seq<u8>) -> Seq<u8>;

/// Hashes `data` with `sp_crypto_hashing::blake2_256`. Claimed: the result is
/// the function's value on `data`, 32 bytes long.
#[verifier::external_body]
pub(crate) fn blake2_256(data: &[u8]) -> (out: Vec<u8>)
    ensures
        out@ == blake2_256_spec(data@),
        out@.len() == 32,
{
    sp_crypto_hashing::blake2_256(data).to_vec()
}

/// The SHA2-256 digest of `data`.
pub uninterp spec fn sha256_spec(data: Seq<u8>) -> Seq<u8>;

/// Hashes `data` with `sha2::Sha256`. Claimed: the result is the function's
/// value on `data`, 32 bytes long.
#[verifier::external_body]
pub(crate) fn sha256(data: &[u8]) -> (out: Vec<u8>)
    ensures
        out@ == sha256_spec(data@),
        out@.len() == 32,
{
    <sha2::Sha256 as sha2::Digest>::digest(data).to_vec()
}

} // verus!
