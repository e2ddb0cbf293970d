//! The IND-CPA public-key encryption scheme.
//!
//! Key generation, encryption and decryption are deterministic functions
//! of their seeds and inputs; the contracts state the produced bytes
//! exactly, in terms of the hash names and the algebraic layer.  The only
//! failure the algorithms themselves can produce is the rejection sampler
//! running out of XOF output.

use crate::bytearray::ByteArray;
use crate::compress::{
    compress_poly, compress_polyvec, decompress_poly, decompress_polyvec, spec_compress_coeffs,
    spec_compress_vec, spec_decompress_coeffs, spec_decompress_vec,
};
use crate::encode::{
    decode_to_poly, decode_to_polyvec, encode_poly, encode_polyvec, lemma_decode_poly_bounds,
    spec_decode_poly, spec_decode_polyvec, spec_encode_poly, spec_encode_polyvec,
};
use crate::hash;
use crate::matrix::Matrix;
use crate::ntt::{
    bcm_matrix_vec, ntt_product_matvec, ntt_product_vec, ntt_vec, spec_bcm_vec, spec_ntt,
    spec_rev_ntt,
};
use crate::polynomial::{poly_mod_add, poly_mod_sub};
use crate::polyvec::PolyVec;
use crate::utils::{cbd, g, parse, prf, spec_be_bytes_8, spec_cbd, spec_parse, parse_ok, xof};
use crate::KyberError;
use vstd::prelude::*;

verus! {

/// The XOF output length handed to the rejection sampler; ample for 256
/// accepted values in every practical case.
pub const XOF_LEN: usize = 4000;

/// The XOF stream for matrix entry counters (a, b).
pub open spec fn spec_xof_at(rho: Seq<u8>, a: int, b: int) -> Seq<u8> {
    hash::shake128_of(rho + spec_be_bytes_8(a) + spec_be_bytes_8(b), 4000)
}

/// The PRF stream of 64 * eta bytes for counter `b`.
pub open spec fn spec_prf_at(seed: Seq<u8>, b: int, eta: nat) -> Seq<u8> {
    hash::shake256_of(seed + spec_be_bytes_8(b), (64 * eta) as nat)
}

/// The XOF bytes behind matrix entry (i, j); the matrix A uses the
/// counters (j, i), its transpose (i, j).
pub open spec fn spec_matrix_bytes(rho: Seq<u8>, i: int, j: int, transpose: bool) -> Seq<u8> {
    if transpose {
        spec_xof_at(rho, i, j)
    } else {
        spec_xof_at(rho, j, i)
    }
}

/// Whether the rejection sampler succeeds on every entry of the matrix.
pub open spec fn spec_matrix_ok(rho: Seq<u8>, k: nat, transpose: bool) -> bool {
    forall|i: int, j: int| 0 <= i < k && 0 <= j < k ==>
        parse_ok(#[trigger] spec_matrix_bytes(rho, i, j, transpose))
}

/// The sampled public matrix in the NTT domain.
pub open spec fn spec_matrix(rho: Seq<u8>, k: nat, transpose: bool) -> Seq<Seq<Seq<int>>> {
    Seq::new(k, |i: int| Seq::new(k, |j: int|
        spec_parse(spec_matrix_bytes(rho, i, j, transpose))))
}

/// The vector of `k` centered binomial polynomials with PRF counters
/// `base`, `base + 1`, ...
pub open spec fn spec_noise_vec(seed: Seq<u8>, k: nat, base: int, eta: nat) -> Seq<Seq<int>> {
    Seq::new(k, |i: int| spec_cbd(spec_prf_at(seed, base + i, eta), eta))
}

/// The forward NTT of every entry.
pub open spec fn spec_ntt_vec(v: Seq<Seq<int>>) -> Seq<Seq<int>> {
    Seq::new(v.len(), |i: int| spec_ntt(v[i]))
}

/// The key pair (sk, pk) generated from the 32-byte seed `d`, or `None`
/// when the rejection sampler runs out on some matrix entry.
pub open spec fn spec_pke_keygen(k: nat, eta1: nat, d: Seq<u8>) -> Option<(Seq<u8>, Seq<u8>)> {
    let rho = hash::sha3_512_of(d).take(32);
    let sigma = hash::sha3_512_of(d).skip(32);
    if spec_matrix_ok(rho, k, false) {
        let a = spec_matrix(rho, k, false);
        let s_hat = spec_ntt_vec(spec_noise_vec(sigma, k, 0, eta1));
        let e_hat = spec_ntt_vec(spec_noise_vec(sigma, k, k as int, eta1));
        let t_hat = Seq::new(k, |i: int| poly_mod_add(spec_bcm_vec(a[i], s_hat, k), e_hat[i]));
        Some((spec_encode_polyvec(s_hat, 12), spec_encode_polyvec(t_hat, 12) + rho))
    } else {
        None
    }
}

/// The ciphertext for message `m` under public key `pk` with coins `r`,
/// or `None` when the rejection sampler runs out on some matrix entry.
pub open spec fn spec_pke_encrypt(
    k: nat,
    eta1: nat,
    eta2: nat,
    du: nat,
    dv: nat,
    pk: Seq<u8>,
    m: Seq<u8>,
    r: Seq<u8>,
) -> Option<Seq<u8>> {
    let t_bytes = pk.take(384 * (k as int));
    let rho = pk.skip(384 * (k as int));
    if spec_matrix_ok(rho, k, true) {
        let a_t = spec_matrix(rho, k, true);
        let t_hat = spec_decode_polyvec(t_bytes, 12, k);
        let r_hat = spec_ntt_vec(spec_noise_vec(r, k, 0, eta1));
        let e1 = spec_noise_vec(r, k, k as int, eta2);
        let e2 = spec_cbd(spec_prf_at(r, 2 * (k as int), eta2), eta2);
        let u = Seq::new(k, |i: int|
            poly_mod_add(spec_rev_ntt(spec_bcm_vec(a_t[i], r_hat, k)), e1[i]));
        let mp = spec_decompress_coeffs(spec_decode_poly(m, 1), 1);
        let v = poly_mod_add(poly_mod_add(spec_rev_ntt(spec_bcm_vec(t_hat, r_hat, k)), e2), mp);
        Some(spec_encode_polyvec(spec_compress_vec(u, du), du)
            + spec_encode_poly(spec_compress_coeffs(v, dv), dv))
    } else {
        None
    }
}

/// The message recovered from ciphertext `ct` under secret key `sk`.
pub open spec fn spec_pke_decrypt(k: nat, du: nat, dv: nat, sk: Seq<u8>, ct: Seq<u8>) -> Seq<u8> {
    let c1 = ct.take(32 * (du as int) * (k as int));
    let c2 = ct.skip(32 * (du as int) * (k as int));
    let u = spec_decompress_vec(spec_decode_polyvec(c1, du, k), du);
    let v = spec_decompress_coeffs(spec_decode_poly(c2, dv), dv);
    let s = spec_decode_polyvec(sk, 12, k);
    let mp = poly_mod_sub(v, spec_rev_ntt(spec_bcm_vec(s, spec_ntt_vec(u), k)));
    spec_encode_poly(spec_compress_coeffs(mp, 1), 1)
}

/// Key generation is deterministic: from one seed the scheme derives one
/// key pair; two runs on the same seed give byte-identical keys.
pub proof fn lemma_keygen_deterministic(
    k: nat,
    eta1: nat,
    d: Seq<u8>,
    r1: Option<(Seq<u8>, Seq<u8>)>,
    r2: Option<(Seq<u8>, Seq<u8>)>,
)
    requires
        r1 == spec_pke_keygen(k, eta1, d),
        r2 == spec_pke_keygen(k, eta1, d),
    ensures
        r1 == r2,
{
}

/// The IND-CPA encryption scheme with its parameters.
#[derive(Clone, Copy, Debug)]
pub struct PKE {
    /// The module rank.
    pub k: usize,
    /// The binomial parameters (eta1, eta2).
    pub eta: (usize, usize),
    /// The field modulus.
    pub q: usize,
    /// The ciphertext compression widths (du, dv).
    pub d: (usize, usize),
}

impl PKE {
    /// Valid parameters: one of the standard ranks, binomial widths and
    /// compression widths over the fixed modulus.
    pub open spec fn wf(self) -> bool {
        &&& 1 <= self.k <= 4
        &&& self.q == 3329
        &&& (self.eta.0 == 2 || self.eta.0 == 3)
        &&& (self.eta.1 == 2 || self.eta.1 == 3)
        &&& 1 <= self.d.0 <= 11
        &&& 1 <= self.d.1 <= 11
    }

    /// An instance with the given parameters.
    pub fn init(k: usize, q: usize, eta: (usize, usize), d: (usize, usize)) -> (r: Self)
        ensures
            r.k == k,
            r.q == q,
            r.eta == eta,
            r.d == d,
    {
        Self { k, eta, q, d }
    }

    /// Key generation from a fresh random 32-byte seed.
    pub fn keygen(&self) -> (r: Result<(ByteArray, ByteArray), KyberError>)
        requires
            self.wf(),
        ensures
            match r {
                Ok(keys) => {
                    &&& exists|d: Seq<u8>| d.len() == 32
                        && spec_pke_keygen(self.k as nat, self.eta.0 as nat, d)
                            == Some((keys.0@, keys.1@))
                    &&& keys.0@.len() == 384 * self.k
                    &&& keys.1@.len() == 384 * self.k + 32
                },
                Err(e) => {
                    &&& e == KyberError::SamplerExhausted
                    &&& exists|d: Seq<u8>| d.len() == 32
                        && spec_pke_keygen(self.k as nat, self.eta.0 as nat, d) is None
                },
            },
    {
        let d = ByteArray::random(32);
        let r = self.keygen_seeded(&d);
        proof {
            if r is Ok {
                let keys = r->Ok_0;
                assert(d@.len() == 32
                    && spec_pke_keygen(self.k as nat, self.eta.0 as nat, d@)
                        == Some((keys.0@, keys.1@)));
            } else {
                assert(d@.len() == 32
                    && spec_pke_keygen(self.k as nat, self.eta.0 as nat, d@) is None);
            }
        }
        r
    }

    /// Deterministic key generation from the 32-byte seed `d`:
    /// the seed is expanded by G, the matrix is sampled from the first
    /// half, the secret and error vectors from the second.
    pub fn keygen_seeded(&self, d: &ByteArray) -> (r: Result<(ByteArray, ByteArray), KyberError>)
        requires
            self.wf(),
        ensures
            match r {
                Ok(keys) => {
                    &&& spec_pke_keygen(self.k as nat, self.eta.0 as nat, d@)
                        == Some((keys.0@, keys.1@))
                    &&& keys.0@.len() == 384 * self.k
                    &&& keys.1@.len() == 384 * self.k + 32
                },
                Err(e) => {
                    &&& spec_pke_keygen(self.k as nat, self.eta.0 as nat, d@) is None
                    &&& e == KyberError::SamplerExhausted
                },
            },
    {
        let k = self.k;
        let eta_1 = self.eta.0;
        let (rho, sigma) = g(d);
        let ghost rho_s = rho@;
        let ghost sigma_s = sigma@;

        let mut a = Matrix::init(k, k);
        let mut i: usize = 0;
        while i < k
            invariant
                0 <= i <= k,
                k == self.k,
                self.wf(),
                rho_s == rho@,
                rho_s == hash::sha3_512_of(d@).take(32),
                a.wf(),
                a@.len() == k,
                a.spec_cols() == k,
                forall|x: int, y: int| 0 <= x < i && 0 <= y < k ==>
                    parse_ok(#[trigger] spec_matrix_bytes(rho_s, x, y, false))
                    && a@[x][y] == spec_parse(spec_matrix_bytes(rho_s, x, y, false)),
            decreases k - i,
        {
            let mut j: usize = 0;
            while j < k
                invariant
                    0 <= j <= k,
                    i < k,
                    k == self.k,
                    self.wf(),
                    rho_s == rho@,
                    rho_s == hash::sha3_512_of(d@).take(32),
                    a.wf(),
                    a@.len() == k,
                    a.spec_cols() == k,
                    forall|x: int, y: int| 0 <= x < i && 0 <= y < k ==>
                        parse_ok(#[trigger] spec_matrix_bytes(rho_s, x, y, false))
                        && a@[x][y] == spec_parse(spec_matrix_bytes(rho_s, x, y, false)),
                    forall|y: int| 0 <= y < j ==>
                        parse_ok(#[trigger] spec_matrix_bytes(rho_s, i as int, y, false))
                        && a@[i as int][y] == spec_parse(spec_matrix_bytes(rho_s, i as int, y, false)),
                decreases k - j,
            {
                let bytes = xof(&rho, j, i, XOF_LEN);
                proof {
                    assert(bytes@ == spec_matrix_bytes(rho_s, i as int, j as int, false));
                }
                match parse(&bytes) {
                    None => {
                        proof {
                            assert(!parse_ok(spec_matrix_bytes(rho_s, i as int, j as int, false)));
                            assert(!spec_matrix_ok(rho_s, k as nat, false));
                        }
                        return Err(KyberError::SamplerExhausted);
                    },
                    Some(poly) => {
                        a.set(i, j, poly);
                    },
                }
                j = j + 1;
            }
            i = i + 1;
        }
        proof {
            assert(spec_matrix_ok(rho_s, k as nat, false));
            assert(a@ =~~= spec_matrix(rho_s, k as nat, false));
        }

        let prf_len = 64 * eta_1;
        let mut s = PolyVec::init(k);
        let mut e = PolyVec::init(k);
        let mut i2: usize = 0;
        while i2 < k
            invariant
                0 <= i2 <= k,
                k == self.k,
                eta_1 == self.eta.0,
                self.wf(),
                prf_len == 64 * eta_1,
                sigma_s == sigma@,
                s.wf(),
                e.wf(),
                s@.len() == k,
                e@.len() == k,
                forall|t: int| 0 <= t < i2 ==>
                    #[trigger] s@[t] == spec_cbd(spec_prf_at(sigma_s, t, eta_1 as nat), eta_1 as nat),
                forall|t: int| 0 <= t < i2 ==>
                    #[trigger] e@[t] == spec_cbd(
                        spec_prf_at(sigma_s, k + t, eta_1 as nat),
                        eta_1 as nat,
                    ),
            decreases k - i2,
        {
            let sp = cbd(prf(&sigma, i2, prf_len), eta_1);
            let ep = cbd(prf(&sigma, k + i2, prf_len), eta_1);
            s.set(i2, sp);
            e.set(i2, ep);
            i2 = i2 + 1;
        }
        let s_hat = ntt_vec(&s);
        let e_hat = ntt_vec(&e);
        proof {
            assert(s@ =~= spec_noise_vec(sigma_s, k as nat, 0, eta_1 as nat));
            assert(e@ =~= spec_noise_vec(sigma_s, k as nat, k as int, eta_1 as nat));
            assert(s_hat@ =~= spec_ntt_vec(spec_noise_vec(sigma_s, k as nat, 0, eta_1 as nat)));
            assert(e_hat@ =~= spec_ntt_vec(
                spec_noise_vec(sigma_s, k as nat, k as int, eta_1 as nat),
            ));
        }

        let t_hat = bcm_matrix_vec(&a, &s_hat).add(&e_hat);
        proof {
            let a_spec = spec_matrix(rho_s, k as nat, false);
            let s_spec = spec_ntt_vec(spec_noise_vec(sigma_s, k as nat, 0, eta_1 as nat));
            let e_spec = spec_ntt_vec(spec_noise_vec(sigma_s, k as nat, k as int, eta_1 as nat));
            assert forall|t: int| 0 <= t < k implies
                #[trigger] t_hat@[t] == poly_mod_add(
                    spec_bcm_vec(a_spec[t], s_spec, k as nat),
                    e_spec[t],
                ) by {
                assert(t_hat@[t] =~= poly_mod_add(
                    spec_bcm_vec(a_spec[t], s_spec, k as nat),
                    e_spec[t],
                ));
            }
            assert(t_hat@ =~= Seq::new(k as nat, |t: int| poly_mod_add(
                spec_bcm_vec(a_spec[t], s_spec, k as nat),
                e_spec[t],
            )));
        }

        let pk = encode_polyvec(t_hat, 12).append(&rho);
        let sk = encode_polyvec(s_hat, 12);
        proof {
            assert(k * 32 * 12 == 384 * k) by (nonlinear_arith);
        }
        Ok((sk, pk))
    }

    /// Encryption of the 32-byte message `m` with 32-byte coins `r`.
    pub fn encrypt(&self, pk: &ByteArray, m: &ByteArray, r: ByteArray) -> (out: Result<
        ByteArray,
        KyberError,
    >)
        requires
            self.wf(),
        ensures
            match out {
                Ok(ct) => {
                    &&& pk@.len() == 384 * self.k + 32
                    &&& m@.len() == 32
                    &&& r@.len() == 32
                    &&& spec_pke_encrypt(
                        self.k as nat,
                        self.eta.0 as nat,
                        self.eta.1 as nat,
                        self.d.0 as nat,
                        self.d.1 as nat,
                        pk@,
                        m@,
                        r@,
                    ) == Some(ct@)
                    &&& ct@.len() == 32 * (self.d.0 * self.k + self.d.1)
                },
                Err(e) => {
                    ||| e == KyberError::InvalidLength && pk@.len() != 384 * self.k + 32
                    ||| e == KyberError::InvalidMessageLength && pk@.len() == 384 * self.k + 32
                        && (m@.len() != 32 || r@.len() != 32)
                    ||| e == KyberError::SamplerExhausted && pk@.len() == 384 * self.k + 32
                        && m@.len() == 32 && r@.len() == 32
                        && spec_pke_encrypt(
                            self.k as nat,
                            self.eta.0 as nat,
                            self.eta.1 as nat,
                            self.d.0 as nat,
                            self.d.1 as nat,
                            pk@,
                            m@,
                            r@,
                        ) is None
                },
            },
    {
        let k = self.k;
        let (eta_1, eta_2) = self.eta;
        let (du, dv) = self.d;
        let offset = 384 * k;
        if pk.len() != offset + 32 {
            return Err(KyberError::InvalidLength);
        }
        if m.len() != 32 || r.len() != 32 {
            return Err(KyberError::InvalidMessageLength);
        }

        let (t, rho) = pk.split_at(offset);
        let ghost rho_s = rho@;
        proof {
            vstd::arithmetic::div_mod::lemma_mod_multiples_basic(k as int, 384);
            vstd::arithmetic::div_mod::lemma_div_multiples_vanish(k as int, 384);
            assert(t@.len() == 384 * k);
            assert((384 * k) as int % 384int == 0);
            assert((384 * k) as int / 384int == k);
        }
        let t_hat = decode_to_polyvec(t, 12);
        proof {
            assert(t_hat@ == spec_decode_polyvec(pk@.take(384 * (k as int)), 12, k as nat));
            assert(t_hat@.len() == k);
        }

        let mut a_t = Matrix::init(k, k);
        let mut i: usize = 0;
        while i < k
            invariant
                0 <= i <= k,
                k == self.k,
                self.wf(),
                rho_s == rho@,
                rho_s == pk@.skip(384 * (k as int)),
                pk@.len() == 384 * k + 32,
                m@.len() == 32,
                r@.len() == 32,
                a_t.wf(),
                a_t@.len() == k,
                a_t.spec_cols() == k,
                forall|x: int, y: int| 0 <= x < i && 0 <= y < k ==>
                    parse_ok(#[trigger] spec_matrix_bytes(rho_s, x, y, true))
                    && a_t@[x][y] == spec_parse(spec_matrix_bytes(rho_s, x, y, true)),
            decreases k - i,
        {
            let mut j: usize = 0;
            while j < k
                invariant
                    0 <= j <= k,
                    i < k,
                    k == self.k,
                    self.wf(),
                    rho_s == rho@,
                    rho_s == pk@.skip(384 * (k as int)),
                    pk@.len() == 384 * k + 32,
                    m@.len() == 32,
                    r@.len() == 32,
                    a_t.wf(),
                    a_t@.len() == k,
                    a_t.spec_cols() == k,
                    forall|x: int, y: int| 0 <= x < i && 0 <= y < k ==>
                        parse_ok(#[trigger] spec_matrix_bytes(rho_s, x, y, true))
                        && a_t@[x][y] == spec_parse(spec_matrix_bytes(rho_s, x, y, true)),
                    forall|y: int| 0 <= y < j ==>
                        parse_ok(#[trigger] spec_matrix_bytes(rho_s, i as int, y, true))
                        && a_t@[i as int][y] == spec_parse(
                            spec_matrix_bytes(rho_s, i as int, y, true),
                        ),
                decreases k - j,
            {
                let bytes = xof(&rho, i, j, XOF_LEN);
                proof {
                    assert(bytes@ == spec_matrix_bytes(rho_s, i as int, j as int, true));
                }
                match parse(&bytes) {
                    None => {
                        proof {
                            assert(!parse_ok(spec_matrix_bytes(rho_s, i as int, j as int, true)));
                            assert(!spec_matrix_ok(rho_s, k as nat, true));
                        }
                        return Err(KyberError::SamplerExhausted);
                    },
                    Some(poly) => {
                        a_t.set(i, j, poly);
                    },
                }
                j = j + 1;
            }
            i = i + 1;
        }
        proof {
            assert(spec_matrix_ok(rho_s, k as nat, true));
            assert(a_t@ =~~= spec_matrix(rho_s, k as nat, true));
        }

        let prf1_len = 64 * eta_1;
        let prf2_len = 64 * eta_2;
        let mut r_bold = PolyVec::init(k);
        let mut e1 = PolyVec::init(k);
        let mut i2: usize = 0;
        while i2 < k
            invariant
                0 <= i2 <= k,
                k == self.k,
                eta_1 == self.eta.0,
                eta_2 == self.eta.1,
                self.wf(),
                prf1_len == 64 * eta_1,
                prf2_len == 64 * eta_2,
                r@.len() == 32,
                r_bold.wf(),
                e1.wf(),
                r_bold@.len() == k,
                e1@.len() == k,
                forall|t: int| 0 <= t < i2 ==>
                    #[trigger] r_bold@[t] == spec_cbd(
                        spec_prf_at(r@, t, eta_1 as nat),
                        eta_1 as nat,
                    ),
                forall|t: int| 0 <= t < i2 ==>
                    #[trigger] e1@[t] == spec_cbd(
                        spec_prf_at(r@, k + t, eta_2 as nat),
                        eta_2 as nat,
                    ),
            decreases k - i2,
        {
            let rp = cbd(prf(&r, i2, prf1_len), eta_1);
            let ep = cbd(prf(&r, k + i2, prf2_len), eta_2);
            r_bold.set(i2, rp);
            e1.set(i2, ep);
            i2 = i2 + 1;
        }
        let e2 = cbd(prf(&r, 2 * k, prf2_len), eta_2);

        let r_hat = ntt_vec(&r_bold);
        proof {
            assert(r_bold@ =~= spec_noise_vec(r@, k as nat, 0, eta_1 as nat));
            assert(e1@ =~= spec_noise_vec(r@, k as nat, k as int, eta_2 as nat));
            assert(r_hat@ =~= spec_ntt_vec(spec_noise_vec(r@, k as nat, 0, eta_1 as nat)));
        }

        let u_bold = ntt_product_matvec(&a_t, &r_hat).add(&e1);
        proof {
            let a_spec = spec_matrix(rho_s, k as nat, true);
            let r_spec = spec_ntt_vec(spec_noise_vec(r@, k as nat, 0, eta_1 as nat));
            let e1_spec = spec_noise_vec(r@, k as nat, k as int, eta_2 as nat);
            assert forall|t: int| 0 <= t < k implies
                #[trigger] u_bold@[t] == poly_mod_add(
                    spec_rev_ntt(spec_bcm_vec(a_spec[t], r_spec, k as nat)),
                    e1_spec[t],
                ) by {
                assert(u_bold@[t] =~= poly_mod_add(
                    spec_rev_ntt(spec_bcm_vec(a_spec[t], r_spec, k as nat)),
                    e1_spec[t],
                ));
            }
            assert(u_bold@ =~= Seq::new(k as nat, |t: int| poly_mod_add(
                spec_rev_ntt(spec_bcm_vec(a_spec[t], r_spec, k as nat)),
                e1_spec[t],
            )));
        }

        let m_decoded = decode_to_poly(m.clone(), 1);
        proof {
            lemma_decode_poly_bounds(m@, 1);
        }
        let m_poly = decompress_poly(m_decoded, 1, self.q);
        let v = ntt_product_vec(&t_hat, &r_hat).add(&e2).add(&m_poly);

        let c1 = encode_polyvec(compress_polyvec(u_bold, du, self.q), du);
        let c2 = encode_poly(compress_poly(v, dv, self.q), dv);
        let ct = c1.append(&c2);
        proof {
            assert(k * 32 * du == 32 * (du * k)) by (nonlinear_arith);
            assert(32 * (du * k) + 32 * dv == 32 * (du * k + dv)) by (nonlinear_arith);
        }
        Ok(ct)
    }

    /// Decryption of a ciphertext of the exact expected length.
    pub fn decrypt(&self, sk: &ByteArray, ct: &ByteArray) -> (out: Result<ByteArray, KyberError>)
        requires
            self.wf(),
        ensures
            match out {
                Ok(m) => {
                    &&& sk@.len() == 384 * self.k
                    &&& ct@.len() == 32 * (self.d.0 * self.k + self.d.1)
                    &&& m@ == spec_pke_decrypt(
                        self.k as nat,
                        self.d.0 as nat,
                        self.d.1 as nat,
                        sk@,
                        ct@,
                    )
                    &&& m@.len() == 32
                },
                Err(e) => {
                    &&& e == KyberError::InvalidLength
                    &&& (sk@.len() != 384 * self.k
                        || ct@.len() != 32 * (self.d.0 * self.k + self.d.1))
                },
            },
    {
        let k = self.k;
        let (du, dv) = self.d;
        proof {
            assert(32 * (du * k) + 32 * dv == 32 * (du * k + dv)) by (nonlinear_arith);
            assert(32 * (du * k) == 32 * du * k) by (nonlinear_arith);
            assert(32 * du * k <= 32 * 11 * 4) by (nonlinear_arith)
                requires du <= 11, k <= 4;
        }
        let offset = 32 * du * k;
        if sk.len() != 384 * k {
            return Err(KyberError::InvalidLength);
        }
        if ct.len() != offset + 32 * dv {
            return Err(KyberError::InvalidLength);
        }

        let (c1, c2) = ct.split_at(offset);
        proof {
            let bl = 32 * (du as int);
            vstd::arithmetic::div_mod::lemma_mod_multiples_basic(k as int, bl);
            vstd::arithmetic::div_mod::lemma_div_multiples_vanish(k as int, bl);
            assert(offset as int == (k as int) * bl) by (nonlinear_arith)
                requires offset == 32 * du * k, bl == 32 * (du as int);
            assert((k as int) * bl == bl * (k as int)) by (nonlinear_arith);
            assert((offset as int) % bl == 0);
            assert((offset as int) / bl == k);
        }
        let u_packed = decode_to_polyvec(c1, du);
        proof {
            assert forall|t: int, c: int| 0 <= t < u_packed@.len() && 0 <= c < 256 implies
                0 <= #[trigger] u_packed@[t][c] < vstd::arithmetic::power2::pow2(du as nat) by {
                lemma_decode_poly_bounds(
                    c1@.subrange(t * 32 * (du as int), (t + 1) * 32 * (du as int)),
                    du as nat,
                );
            }
        }
        let u = decompress_polyvec(u_packed, du, self.q);
        proof {
            lemma_decode_poly_bounds(c2@, dv as nat);
        }
        let v = decompress_poly(decode_to_poly(c2, dv), dv, self.q);
        proof {
            vstd::arithmetic::div_mod::lemma_mod_multiples_basic(k as int, 384);
            vstd::arithmetic::div_mod::lemma_div_multiples_vanish(k as int, 384);
        }
        let s = decode_to_polyvec(sk.clone(), 12);
        let u_hat = ntt_vec(&u);
        let w = ntt_product_vec(&s, &u_hat);
        let m_poly = v.sub(&w);
        let out = encode_poly(compress_poly(m_poly, 1, self.q), 1);
        proof {
            let du_n = du as nat;
            let dv_n = dv as nat;
            let c1_s = ct@.take(32 * (du as int) * (k as int));
            let c2_s = ct@.skip(32 * (du as int) * (k as int));
            assert(c1@ == c1_s);
            assert(c2@ == c2_s);
            let u_spec = spec_decompress_vec(spec_decode_polyvec(c1_s, du_n, k as nat), du_n);
            assert(u@ == u_spec);
            assert(u_hat@ =~= spec_ntt_vec(u_spec));
            assert(m_poly@ == poly_mod_sub(
                v@,
                spec_rev_ntt(spec_bcm_vec(
                    spec_decode_polyvec(sk@, 12, k as nat),
                    spec_ntt_vec(u_spec),
                    k as nat,
                )),
            ));
        }
        Ok(out)
    }
}

} // verus!
