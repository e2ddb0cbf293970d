//! Named parameter sets of the scheme.

use vstd::prelude::*;

verus! {

/// The parameters of one Kyber instantiation, with the byte sizes they
/// induce.
#[derive(Clone, Copy, Debug, PartialEq, Eq, Structural)]
pub struct KyberParams {
    /// Key entropy target: the number of polynomial coefficients.
    pub n: usize,
    /// Lattice dimension: the module rank.
    pub k: usize,
    /// The NTT-friendly modulus.
    pub q: usize,
    /// Binomial parameter for the secret and error vectors.
    pub eta1: usize,
    /// Binomial parameter for the encryption noise.
    pub eta2: usize,
    /// Compression width of the ciphertext vector component.
    pub du: usize,
    /// Compression width of the ciphertext polynomial component.
    pub dv: usize,
    /// Failure probability exponent: failures occur with chance 2^-delta.
    pub delta: usize,
    /// Public key size in bytes.
    pub pk_size: usize,
    /// Secret key size in bytes, for the full KEM key.
    pub sk_size: usize,
    /// Ciphertext size in bytes.
    pub ct_size: usize,
}

impl KyberParams {
    /// The Kyber-512 parameter set.
    pub fn kyber512() -> (r: Self)
        ensures
            r.n == 256,
            r.k == 2,
            r.q == 3329,
            r.eta1 == 3,
            r.eta2 == 2,
            r.du == 10,
            r.dv == 4,
            r.delta == 139,
            r.pk_size == 800,
            r.sk_size == 1632,
            r.ct_size == 768,
    {
        Self {
            n: 256,
            k: 2,
            q: 3329,
            eta1: 3,
            eta2: 2,
            du: 10,
            dv: 4,
            delta: 139,
            pk_size: 800,
            sk_size: 1632,
            ct_size: 768,
        }
    }
}

} // verus!
