//! The IND-CCA key-encapsulation mechanism, built on the PKE by the
//! Fujisaki-Okamoto transform with implicit rejection.
//!
//! Decapsulation never reports a failed decryption: when the re-encrypted
//! ciphertext differs from the received one, the returned key is derived
//! from the secret rejection seed z instead of the shared value.

use crate::bytearray::ByteArray;
use crate::hash;
use crate::pke::{spec_pke_decrypt, spec_pke_encrypt, spec_pke_keygen, PKE};
use crate::utils::{g, h, kdf};
use crate::KyberError;
use vstd::prelude::*;

verus! {

/// The key pair (sk, pk) built from the PKE pair for seed `d` and the
/// rejection seed `z`: sk = sk_PKE || pk || H(pk) || z.
pub open spec fn spec_kem_keygen(k: nat, eta1: nat, d: Seq<u8>, z: Seq<u8>) -> Option<
    (Seq<u8>, Seq<u8>),
> {
    match spec_pke_keygen(k, eta1, d) {
        None => None,
        Some(kp) => Some((kp.0 + kp.1 + hash::sha3_256_of(kp.1) + z, kp.1)),
    }
}

/// The ciphertext and shared key encapsulated under `pk` from the random
/// 32-byte seed `m`: the message is H(m), the coins come from
/// G(H(m) || H(pk)), and the key is KDF(K-bar || H(c)).
pub open spec fn spec_kem_encaps(
    k: nat,
    eta1: nat,
    eta2: nat,
    du: nat,
    dv: nat,
    pk: Seq<u8>,
    m: Seq<u8>,
) -> Option<(Seq<u8>, Seq<u8>)> {
    let mh = hash::sha3_256_of(m);
    let g_in = mh + hash::sha3_256_of(pk);
    let kbar = hash::sha3_512_of(g_in).take(32);
    let coins = hash::sha3_512_of(g_in).skip(32);
    match spec_pke_encrypt(k, eta1, eta2, du, dv, pk, mh, coins) {
        None => None,
        Some(c) => Some((c, hash::shake256_of(kbar + hash::sha3_256_of(c), 32))),
    }
}

/// The shared key decapsulated from `c` under the layered secret key
/// sk = sk_PKE || pk || H(pk) || z.  The ciphertext is re-encrypted from
/// the decrypted message; on a mismatch the key is derived from z.
pub open spec fn spec_kem_decaps(
    k: nat,
    eta1: nat,
    eta2: nat,
    du: nat,
    dv: nat,
    c: Seq<u8>,
    sk: Seq<u8>,
) -> Option<Seq<u8>> {
    let skp = sk.take(384 * (k as int));
    let rest1 = sk.skip(384 * (k as int));
    let pk = rest1.take(384 * (k as int) + 32);
    let rest2 = rest1.skip(384 * (k as int) + 32);
    let hh = rest2.take(32);
    let z = rest2.skip(32);
    let m = spec_pke_decrypt(k, du, dv, skp, c);
    let kbar = hash::sha3_512_of(m + hh).take(32);
    let coins = hash::sha3_512_of(m + hh).skip(32);
    match spec_pke_encrypt(k, eta1, eta2, du, dv, pk, m, coins) {
        None => None,
        Some(cp) => if cp == c {
            Some(hash::shake256_of(kbar + hash::sha3_256_of(c), 32))
        } else {
            Some(hash::shake256_of(z + hash::sha3_256_of(c), 32))
        },
    }
}

/// The key-encapsulation mechanism with its parameters and byte sizes.
#[derive(Clone, Copy, Debug)]
pub struct KEM {
    /// The underlying IND-CPA scheme.
    pub pke: PKE,
    /// Failure probability exponent: failures occur with chance 2^-delta.
    pub delta: usize,
    /// Shared secret size in bytes.
    pub ss_size: usize,
    /// Public key size in bytes.
    pub pk_size: usize,
    /// PKE secret key size in bytes; the KEM secret key adds the public
    /// key, its hash and the rejection seed.
    pub sk_size: usize,
    /// Ciphertext size in bytes.
    pub ct_size: usize,
}

impl KEM {
    /// Valid parameters: a well-formed PKE and the sizes it induces.
    pub open spec fn wf(self) -> bool {
        &&& self.pke.wf()
        &&& self.ss_size == 32
        &&& self.pk_size == 384 * self.pke.k + 32
        &&& self.sk_size == 384 * self.pke.k
        &&& self.ct_size == 32 * (self.pke.d.0 * self.pke.k + self.pke.d.1)
    }

    /// An instance over the given PKE, with the sizes its parameters
    /// induce.
    pub fn init(pke: PKE, delta: usize, ss_size: usize, d: (usize, usize)) -> (r: Self)
        requires
            pke.wf(),
            d == pke.d,
        ensures
            r.pke == pke,
            r.delta == delta,
            r.ss_size == ss_size,
            r.pk_size == 384 * pke.k + 32,
            r.sk_size == 384 * pke.k,
            r.ct_size == 32 * (d.0 * pke.k + d.1),
    {
        let (du, dv) = d;
        proof {
            assert(du * pke.k <= 11 * 4) by (nonlinear_arith)
                requires du <= 11, pke.k <= 4;
        }
        Self {
            pke,
            delta,
            ss_size,
            pk_size: 384 * pke.k + 32,
            sk_size: 384 * pke.k,
            ct_size: 32 * (du * pke.k + dv),
        }
    }

    /// Key generation: a fresh PKE pair plus the hashed public key and a
    /// fresh rejection seed, layered into the KEM secret key.
    pub fn keygen(&self) -> (r: Result<(ByteArray, ByteArray), KyberError>)
        requires
            self.wf(),
        ensures
            match r {
                Ok(keys) => {
                    &&& exists|d: Seq<u8>, z: Seq<u8>| d.len() == 32 && z.len() == 32
                        && spec_kem_keygen(self.pke.k as nat, self.pke.eta.0 as nat, d, z)
                            == Some((keys.0@, keys.1@))
                    &&& keys.0@.len() == 768 * self.pke.k + 96
                    &&& keys.1@.len() == 384 * self.pke.k + 32
                },
                Err(e) => {
                    &&& e == KyberError::SamplerExhausted
                    &&& exists|d: Seq<u8>| d.len() == 32
                        && crate::pke::spec_pke_keygen(
                            self.pke.k as nat,
                            self.pke.eta.0 as nat,
                            d,
                        ) is None
                },
            },
    {
        let z = ByteArray::random(32);
        match self.pke.keygen() {
            Err(e) => Err(e),
            Ok((sk_prime, pk)) => {
                let (h1, h2) = h(&pk);
                let sk = sk_prime.append(&pk).append(&h1).append(&h2).append(&z);
                proof {
                    assert(h1@ + h2@ =~= hash::sha3_256_of(pk@));
                    assert(sk@ =~= sk_prime@ + pk@ + hash::sha3_256_of(pk@) + z@);
                    let d0 = choose|d: Seq<u8>| d.len() == 32 && spec_pke_keygen(
                        self.pke.k as nat,
                        self.pke.eta.0 as nat,
                        d,
                    ) == Some((sk_prime@, pk@));
                    assert(d0.len() == 32 && z@.len() == 32 && spec_kem_keygen(
                        self.pke.k as nat,
                        self.pke.eta.0 as nat,
                        d0,
                        z@,
                    ) == Some((sk@, pk@)));
                }
                Ok((sk, pk))
            },
        }
    }

    /// Encapsulation under `pk`: a fresh 32-byte seed is hashed into the
    /// message, the coins are derived by G, and the shared key by KDF.
    pub fn encaps(&self, pk: &ByteArray) -> (r: Result<(ByteArray, ByteArray), KyberError>)
        requires
            self.wf(),
        ensures
            match r {
                Ok(out) => {
                    &&& pk@.len() == self.pk_size
                    &&& exists|m: Seq<u8>| m.len() == 32 && spec_kem_encaps(
                        self.pke.k as nat,
                        self.pke.eta.0 as nat,
                        self.pke.eta.1 as nat,
                        self.pke.d.0 as nat,
                        self.pke.d.1 as nat,
                        pk@,
                        m,
                    ) == Some((out.0@, out.1@))
                    &&& out.0@.len() == self.ct_size
                    &&& out.1@.len() == 32
                },
                Err(e) => {
                    ||| e == KyberError::InvalidLength && pk@.len() != self.pk_size
                    ||| e == KyberError::SamplerExhausted && pk@.len() == self.pk_size
                        && exists|m: Seq<u8>| m.len() == 32 && spec_kem_encaps(
                            self.pke.k as nat,
                            self.pke.eta.0 as nat,
                            self.pke.eta.1 as nat,
                            self.pke.d.0 as nat,
                            self.pke.d.1 as nat,
                            pk@,
                            m,
                        ) is None
                },
            },
    {
        if pk.len() != self.pk_size {
            return Err(KyberError::InvalidLength);
        }
        let m = ByteArray::random(32);
        let (m1, m2) = h(&m);
        let (h1, h2) = h(pk);
        let mh = m1.append(&m2);
        let g_in = mh.append(&h1).append(&h2);
        let (k_bar, coins) = g(&g_in);
        proof {
            assert(mh@ =~= hash::sha3_256_of(m@));
            assert(g_in@ =~= hash::sha3_256_of(m@) + hash::sha3_256_of(pk@));
        }
        match self.pke.encrypt(pk, &mh, coins) {
            Err(_) => {
                proof {
                    assert(m@.len() == 32 && spec_kem_encaps(
                        self.pke.k as nat,
                        self.pke.eta.0 as nat,
                        self.pke.eta.1 as nat,
                        self.pke.d.0 as nat,
                        self.pke.d.1 as nat,
                        pk@,
                        m@,
                    ) is None);
                }
                Err(KyberError::SamplerExhausted)
            },
            Ok(c) => {
                let (hc1, hc2) = h(&c);
                let kdf_in = k_bar.append(&hc1).append(&hc2);
                let key = kdf(&kdf_in, self.ss_size);
                proof {
                    assert(kdf_in@ =~= hash::sha3_512_of(g_in@).take(32)
                        + hash::sha3_256_of(c@));
                    assert(m@.len() == 32 && spec_kem_encaps(
                        self.pke.k as nat,
                        self.pke.eta.0 as nat,
                        self.pke.eta.1 as nat,
                        self.pke.d.0 as nat,
                        self.pke.d.1 as nat,
                        pk@,
                        m@,
                    ) == Some((c@, key@)));
                }
                Ok((c, key))
            },
        }
    }

    /// Decapsulation with implicit rejection: the ciphertext is
    /// re-encrypted from the decrypted message; on a mismatch the key is
    /// derived from the rejection seed, so an invalid ciphertext yields a
    /// pseudorandom key rather than an error.
    pub fn decaps(&self, c: &ByteArray, sk: &ByteArray) -> (r: Result<ByteArray, KyberError>)
        requires
            self.wf(),
        ensures
            match r {
                Ok(key) => {
                    &&& sk@.len() == 768 * self.pke.k + 96
                    &&& c@.len() == self.ct_size
                    &&& spec_kem_decaps(
                        self.pke.k as nat,
                        self.pke.eta.0 as nat,
                        self.pke.eta.1 as nat,
                        self.pke.d.0 as nat,
                        self.pke.d.1 as nat,
                        c@,
                        sk@,
                    ) == Some(key@)
                    &&& key@.len() == 32
                },
                Err(e) => {
                    ||| e == KyberError::InvalidLength
                        && (sk@.len() != 768 * self.pke.k + 96 || c@.len() != self.ct_size)
                    ||| e == KyberError::SamplerExhausted
                        && sk@.len() == 768 * self.pke.k + 96 && c@.len() == self.ct_size
                        && spec_kem_decaps(
                            self.pke.k as nat,
                            self.pke.eta.0 as nat,
                            self.pke.eta.1 as nat,
                            self.pke.d.0 as nat,
                            self.pke.d.1 as nat,
                            c@,
                            sk@,
                        ) is None
                },
            },
    {
        if sk.len() != self.sk_size + self.pk_size + 64 {
            return Err(KyberError::InvalidLength);
        }
        if c.len() != self.ct_size {
            return Err(KyberError::InvalidLength);
        }
        let (sk_prime, rem) = sk.split_at(self.sk_size);
        let (pk, rem2) = rem.split_at(self.pk_size);
        let (hash_part, z) = rem2.split_at(32);

        let m = match self.pke.decrypt(&sk_prime, c) {
            Ok(m) => m,
            Err(_) => {
                proof {
                    assert(false);
                }
                return Err(KyberError::InvalidLength);
            },
        };
        let g_in = m.append(&hash_part);
        let (k_bar, coins) = g(&g_in);
        let c_prime = match self.pke.encrypt(&pk, &m, coins) {
            Ok(cp) => cp,
            Err(e) => {
                proof {
                    assert(e == KyberError::SamplerExhausted);
                }
                return Err(KyberError::SamplerExhausted);
            },
        };
        let (h1, h2) = h(c);
        let key = if *c == c_prime {
            kdf(&k_bar.append(&h1).append(&h2), self.ss_size)
        } else {
            kdf(&z.append(&h1).append(&h2), self.ss_size)
        };
        proof {
            let kn = self.pke.k as nat;
            let skp_s = sk@.take(384 * (kn as int));
            let rest1 = sk@.skip(384 * (kn as int));
            let pk_s = rest1.take(384 * (kn as int) + 32);
            let rest2 = rest1.skip(384 * (kn as int) + 32);
            let hh_s = rest2.take(32);
            let z_s = rest2.skip(32);
            assert(sk_prime@ == skp_s);
            assert(pk@ == pk_s);
            assert(hash_part@ =~= hh_s);
            assert(z@ =~= z_s);
            assert((k_bar@ + h1@) + h2@ =~= hash::sha3_512_of(m@ + hh_s).take(32)
                + hash::sha3_256_of(c@));
            assert((z@ + h1@) + h2@ =~= z_s + hash::sha3_256_of(c@));
        }
        Ok(key)
    }
}

/// The Fujisaki-Okamoto round trip: whenever encapsulation under `pk`
/// succeeds and the PKE decrypts the resulting ciphertext back to the
/// hashed seed, decapsulation with the layered secret key returns the
/// encapsulated shared key.
pub proof fn lemma_fo_roundtrip(
    k: nat,
    eta1: nat,
    eta2: nat,
    du: nat,
    dv: nat,
    skp: Seq<u8>,
    pk: Seq<u8>,
    z: Seq<u8>,
    m: Seq<u8>,
    c: Seq<u8>,
    key: Seq<u8>,
)
    requires
        skp.len() == 384 * k,
        pk.len() == 384 * k + 32,
        z.len() == 32,
        hash::sha3_256_of(pk).len() == 32,
        spec_kem_encaps(k, eta1, eta2, du, dv, pk, m) == Some((c, key)),
        spec_pke_decrypt(k, du, dv, skp, c) == hash::sha3_256_of(m),
    ensures
        spec_kem_decaps(k, eta1, eta2, du, dv, c, skp + pk + hash::sha3_256_of(pk) + z)
            == Some(key),
{
    let hpk = hash::sha3_256_of(pk);
    let sk = skp + pk + hpk + z;
    assert(sk.take(384 * (k as int)) =~= skp);
    let rest1 = sk.skip(384 * (k as int));
    assert(rest1 =~= pk + hpk + z);
    assert(rest1.take(384 * (k as int) + 32) =~= pk);
    let rest2 = rest1.skip(384 * (k as int) + 32);
    assert(rest2 =~= hpk + z);
    assert(rest2.take(32) =~= hpk);
    assert(rest2.skip(32) =~= z);
    let mh = hash::sha3_256_of(m);
    assert(spec_pke_decrypt(k, du, dv, sk.take(384 * (k as int)), c) == mh);
    assert(mh + rest2.take(32) == mh + hpk);
}

/// Implicit rejection: when the re-encryption of the decrypted message
/// yields a ciphertext other than the received one, the decapsulated key
/// is derived from the rejection seed z and the ciphertext alone.
pub proof fn lemma_implicit_rejection(
    k: nat,
    eta1: nat,
    eta2: nat,
    du: nat,
    dv: nat,
    c: Seq<u8>,
    sk: Seq<u8>,
    cp: Seq<u8>,
)
    requires
        ({
            let skp = sk.take(384 * (k as int));
            let rest1 = sk.skip(384 * (k as int));
            let pk = rest1.take(384 * (k as int) + 32);
            let rest2 = rest1.skip(384 * (k as int) + 32);
            let hh = rest2.take(32);
            let m = spec_pke_decrypt(k, du, dv, skp, c);
            let coins = hash::sha3_512_of(m + hh).skip(32);
            spec_pke_encrypt(k, eta1, eta2, du, dv, pk, m, coins) == Some(cp)
        }),
        cp != c,
    ensures
        ({
            let rest1 = sk.skip(384 * (k as int));
            let rest2 = rest1.skip(384 * (k as int) + 32);
            let z = rest2.skip(32);
            spec_kem_decaps(k, eta1, eta2, du, dv, c, sk)
                == Some(hash::shake256_of(z + hash::sha3_256_of(c), 32))
        }),
{
}

} // verus!
