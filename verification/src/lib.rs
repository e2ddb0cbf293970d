//! A verified implementation of the Kyber key-encapsulation mechanism.
//!
//! The crate provides the IND-CPA public-key encryption scheme (`PKE`) and
//! the IND-CCA key-encapsulation mechanism (`KEM`) built on top of it, for
//! the three standard parameter sets Kyber-512, Kyber-768 and Kyber-1024.

pub mod bytearray;
pub mod compress;
pub mod encode;
pub mod hash;
pub mod kem;
pub mod matrix;
pub mod ntt;
pub mod ntt_roundtrip;
pub mod params;
pub mod pke;
pub mod polynomial;
pub mod polyvec;
pub mod primefield;
pub mod utils;

pub use bytearray::ByteArray;
pub use kem::KEM;
pub use pke::PKE;

use vstd::prelude::*;

verus! {

/// The errors the scheme can surface.  The KEM itself never reports a
/// failed decryption: invalid ciphertexts yield a pseudorandom key.
#[derive(Clone, Copy, Debug, PartialEq, Eq, Structural)]
pub enum KyberError {
    /// A key or ciphertext buffer had the wrong length.
    InvalidLength,
    /// A message or coin buffer was not 32 bytes.
    InvalidMessageLength,
    /// The rejection sampler ran out of XOF output before filling a
    /// polynomial.
    SamplerExhausted,
}

/// The Kyber-512 PKE: k = 2, eta = (3, 2), (du, dv) = (10, 4).
pub fn kyber512pke() -> (r: pke::PKE)
    ensures
        r.wf(),
        r.k == 2,
        r.eta == (3usize, 2usize),
        r.d == (10usize, 4usize),
{
    pke::PKE::init(2, 3329, (3, 2), (10, 4))
}

/// The Kyber-512 KEM over the Kyber-512 PKE.
pub fn kyber512kem() -> (r: kem::KEM)
    ensures
        r.wf(),
        r.pke.k == 2,
{
    let p = kyber512pke();
    kem::KEM::init(p, 139, 32, p.d)
}

/// The Kyber-768 PKE: k = 3, eta = (2, 2), (du, dv) = (10, 4).
pub fn kyber768pke() -> (r: pke::PKE)
    ensures
        r.wf(),
        r.k == 3,
        r.eta == (2usize, 2usize),
        r.d == (10usize, 4usize),
{
    pke::PKE::init(3, 3329, (2, 2), (10, 4))
}

/// The Kyber-768 KEM over the Kyber-768 PKE.
pub fn kyber768kem() -> (r: kem::KEM)
    ensures
        r.wf(),
        r.pke.k == 3,
{
    let p = kyber768pke();
    kem::KEM::init(p, 164, 32, p.d)
}

/// The Kyber-1024 PKE: k = 4, eta = (2, 2), (du, dv) = (11, 5).
pub fn kyber1024pke() -> (r: pke::PKE)
    ensures
        r.wf(),
        r.k == 4,
        r.eta == (2usize, 2usize),
        r.d == (11usize, 5usize),
{
    pke::PKE::init(4, 3329, (2, 2), (11, 5))
}

/// The Kyber-1024 KEM over the Kyber-1024 PKE.
pub fn kyber1024kem() -> (r: kem::KEM)
    ensures
        r.wf(),
        r.pke.k == 4,
{
    let p = kyber1024pke();
    kem::KEM::init(p, 174, 32, p.d)
}

} // verus!
