//! The SHA-3 / SHAKE façade.
//!
//! The four sponge primitives come from the `sha3` crate and are the only
//! hashing this crate relies on.  Each is a deterministic function of its
//! input bytes (and, for the XOFs, of the requested length); the results
//! are given names that the rest of the crate's contracts build on.

use sha3::digest::{ExtendableOutput, Update, XofReader};
use sha3::{Digest, Sha3_256, Sha3_512, Shake128, Shake256};
use vstd::prelude::*;

verus! {

/// The SHAKE-128 output of length `len` on `data`.
pub uninterp spec fn shake128_of(data: Seq<u8>, len: nat) -> Seq<u8>;

/// The SHAKE-256 output of length `len` on `data`.
pub uninterp spec fn shake256_of(data: Seq<u8>, len: nat) -> Seq<u8>;

/// The SHA3-256 digest of `data`.
pub uninterp spec fn sha3_256_of(data: Seq<u8>) -> Seq<u8>;

/// The SHA3-512 digest of `data`.
pub uninterp spec fn sha3_512_of(data: Seq<u8>) -> Seq<u8>;

/// SHAKE-128 with `len` output bytes.
///
/// Relies on `sha3::Shake128`: an extendable-output function whose result
/// depends on the input bytes and the output length alone.
#[verifier::external_body]
pub fn shake_128(data: &[u8], len: usize) -> (r: Vec<u8>)
    ensures
        r@ == shake128_of(data@, len as nat),
        r@.len() == len,
{
    let mut buffer = vec![0; len];
    let mut shake = Shake128::default();
    shake.update(data);
    let mut reader = shake.finalize_xof();
    reader.read(&mut buffer);
    buffer
}

/// SHAKE-256 with `len` output bytes.
///
/// Relies on `sha3::Shake256`: an extendable-output function whose result
/// depends on the input bytes and the output length alone.
#[verifier::external_body]
pub fn shake_256(data: &[u8], len: usize) -> (r: Vec<u8>)
    ensures
        r@ == shake256_of(data@, len as nat),
        r@.len() == len,
{
    let mut buffer = vec![0; len];
    let mut shake = Shake256::default();
    shake.update(data);
    let mut reader = shake.finalize_xof();
    reader.read(&mut buffer);
    buffer
}

/// The 32-byte SHA3-256 digest.
///
/// Relies on `sha3::Sha3_256`: a deterministic digest of 32 bytes.
#[verifier::external_body]
pub fn sha3_256(data: &[u8]) -> (r: Vec<u8>)
    ensures
        r@ == sha3_256_of(data@),
        r@.len() == 32,
{
    let mut hasher = Sha3_256::new();
    Digest::update(&mut hasher, data);
    hasher.finalize().to_vec()
}

/// The 64-byte SHA3-512 digest.
///
/// Relies on `sha3::Sha3_512`: a deterministic digest of 64 bytes.
#[verifier::external_body]
pub fn sha3_512(data: &[u8]) -> (r: Vec<u8>)
    ensures
        r@ == sha3_512_of(data@),
        r@.len() == 64,
{
    let mut hasher = Sha3_512::new();
    Digest::update(&mut hasher, data);
    hasher.finalize().to_vec()
}

} // verus!
