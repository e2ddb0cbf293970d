//! The number-theoretic transform over R_q and the NTT-domain products.
//!
//! The transform treats a polynomial as 128 pairs of coefficients; pair i
//! belongs to the factor X^2 - zeta^(2 br(i) + 1), where zeta = 17 is a
//! primitive 256th root of unity mod q and br is the 7-bit reversal.  The
//! forward and inverse transforms are computed as the defining sums.

use crate::matrix::Matrix;
use crate::polynomial::{poly_mod_add, poly_mod_scale, Polynomial};
use crate::polyvec::PolyVec;
use crate::primefield::PrimeField3329;
use vstd::prelude::*;
use vstd::arithmetic::power::pow;
use vstd::arithmetic::div_mod::{
    lemma_add_mod_noop, lemma_mul_mod_noop_left, lemma_mul_mod_noop_right, lemma_mod_bound,
    lemma_small_mod, lemma_fundamental_div_mod_converse_div, lemma_fundamental_div_mod_converse_mod,
};

verus! {

/// zeta^e mod q for zeta = 17.
pub open spec fn zeta_pow(e: nat) -> int {
    pow(17, e) % 3329
}

/// The 7-bit reversal of an index in [0, 128).
pub open spec fn spec_bit_rev7(i: int) -> int {
    64 * (i % 2) + 32 * ((i / 2) % 2) + 16 * ((i / 4) % 2) + 8 * ((i / 8) % 2)
        + 4 * ((i / 16) % 2) + 2 * ((i / 32) % 2) + ((i / 64) % 2)
}

/// The first `j` terms of the forward sum for output pair `i`, at parity
/// `par`: sum of p[2t + par] * zeta^((2 br(i) + 1) t mod 256).
pub open spec fn ntt_sum(p: Seq<int>, i: int, par: int, j: nat) -> int
    decreases j,
{
    if j == 0 {
        0
    } else {
        ntt_sum(p, i, par, (j - 1) as nat) + p[2 * (j - 1) + par] * zeta_pow(
            (((2 * spec_bit_rev7(i) + 1) * (j - 1)) % 256) as nat,
        )
    }
}

/// The forward NTT of a coefficient sequence.
pub open spec fn spec_ntt(p: Seq<int>) -> Seq<int> {
    Seq::new(256, |n: int| ntt_sum(p, n / 2, n % 2, 128) % 3329)
}

/// The exponent of the inverse sum: -(2 br(i) + 1) t mod 256.
pub open spec fn inv_exp(i: int, t: int) -> nat {
    ((256 - (((2 * spec_bit_rev7(i) + 1) * t) % 256)) % 256) as nat
}

/// The first `j` terms of the inverse sum for output pair `t`, at parity
/// `par`: sum of p[2i + par] * zeta^(-(2 br(i) + 1) t mod 256).
pub open spec fn rev_ntt_sum(p: Seq<int>, t: int, par: int, j: nat) -> int
    decreases j,
{
    if j == 0 {
        0
    } else {
        rev_ntt_sum(p, t, par, (j - 1) as nat)
            + p[2 * (j - 1) + par] * zeta_pow(inv_exp(j - 1, t))
    }
}

/// The inverse NTT: the inverse sums scaled by 128^-1 = 3303 mod q.
pub open spec fn spec_rev_ntt(p: Seq<int>) -> Seq<int> {
    Seq::new(256, |n: int| (3303 * rev_ntt_sum(p, n / 2, n % 2, 128)) % 3329)
}

/// The base-case product: pair i of the result is the product of pair i
/// of each operand in F_q[X] / (X^2 - zeta^(2 br(i) + 1)).
pub open spec fn spec_bcm(a: Seq<int>, b: Seq<int>) -> Seq<int> {
    Seq::new(256, |n: int| {
        let i = n / 2;
        let z = zeta_pow((2 * spec_bit_rev7(i) + 1) as nat);
        if n % 2 == 0 {
            (a[2 * i] * b[2 * i] + a[2 * i + 1] * b[2 * i + 1] * z) % 3329
        } else {
            (a[2 * i] * b[2 * i + 1] + a[2 * i + 1] * b[2 * i]) % 3329
        }
    })
}

/// The sum of the base-case products of the first `l` entries of two
/// vectors.
pub open spec fn spec_bcm_vec(a: Seq<Seq<int>>, b: Seq<Seq<int>>, l: nat) -> Seq<int>
    decreases l,
{
    if l <= 1 {
        spec_bcm(a[0], b[0])
    } else {
        poly_mod_add(spec_bcm_vec(a, b, (l - 1) as nat), spec_bcm(a[l - 1], b[l - 1]))
    }
}

/// The forward sum over a coefficient-wise sum splits into two sums.
proof fn lemma_ntt_sum_add(a: Seq<int>, b: Seq<int>, i: int, par: int, j: nat)
    requires
        a.len() == 256,
        b.len() == 256,
        0 <= par < 2,
        j <= 128,
    ensures
        ntt_sum(poly_mod_add(a, b), i, par, j) % 3329
            == (ntt_sum(a, i, par, j) + ntt_sum(b, i, par, j)) % 3329,
    decreases j,
{
    if j > 0 {
        lemma_ntt_sum_add(a, b, i, par, (j - 1) as nat);
        let n = 2 * (j - 1) + par;
        let z = zeta_pow((((2 * spec_bit_rev7(i) + 1) * (j - 1)) % 256) as nat);
        let sab = ntt_sum(poly_mod_add(a, b), i, par, (j - 1) as nat);
        let sa = ntt_sum(a, i, par, (j - 1) as nat);
        let sb = ntt_sum(b, i, par, (j - 1) as nat);
        assert(poly_mod_add(a, b)[n] == (a[n] + b[n]) % 3329);
        lemma_mul_mod_noop_left(a[n] + b[n], z, 3329);
        assert((a[n] + b[n]) * z == a[n] * z + b[n] * z) by (nonlinear_arith);
        lemma_add_mod_noop(sab, ((a[n] + b[n]) % 3329) * z, 3329);
        lemma_mod_bound(((a[n] + b[n]) % 3329) * z, 3329);
        assert((((a[n] + b[n]) % 3329) * z) % 3329 == (a[n] * z + b[n] * z) % 3329);
        lemma_add_mod_noop(sa + sb, a[n] * z + b[n] * z, 3329);
        assert((sab % 3329 + (((a[n] + b[n]) % 3329) * z) % 3329) % 3329
            == ((sa + sb) % 3329 + (a[n] * z + b[n] * z) % 3329) % 3329);
    }
}

/// The NTT is additive: transforming a sum gives the sum of the
/// transforms.
pub proof fn lemma_ntt_linear_add(a: Seq<int>, b: Seq<int>)
    requires
        crate::polynomial::coeffs_wf(a),
        crate::polynomial::coeffs_wf(b),
    ensures
        spec_ntt(poly_mod_add(a, b)) == poly_mod_add(spec_ntt(a), spec_ntt(b)),
{
    assert forall|n: int| 0 <= n < 256 implies
        #[trigger] spec_ntt(poly_mod_add(a, b))[n]
            == poly_mod_add(spec_ntt(a), spec_ntt(b))[n] by {
        lemma_mod_bound(n, 2);
        lemma_ntt_sum_add(a, b, n / 2, n % 2, 128);
        lemma_add_mod_noop(
            ntt_sum(a, n / 2, n % 2, 128),
            ntt_sum(b, n / 2, n % 2, 128),
            3329,
        );
    }
    assert(spec_ntt(poly_mod_add(a, b)) =~= poly_mod_add(spec_ntt(a), spec_ntt(b)));
}

/// The forward sum over a scaled polynomial is the scaled sum.
proof fn lemma_ntt_sum_scale(a: Seq<int>, c: int, i: int, par: int, j: nat)
    requires
        a.len() == 256,
        0 <= par < 2,
        j <= 128,
    ensures
        ntt_sum(poly_mod_scale(a, c), i, par, j) % 3329
            == (ntt_sum(a, i, par, j) * c) % 3329,
    decreases j,
{
    if j > 0 {
        lemma_ntt_sum_scale(a, c, i, par, (j - 1) as nat);
        let n = 2 * (j - 1) + par;
        let z = zeta_pow((((2 * spec_bit_rev7(i) + 1) * (j - 1)) % 256) as nat);
        let ss = ntt_sum(poly_mod_scale(a, c), i, par, (j - 1) as nat);
        let sa = ntt_sum(a, i, par, (j - 1) as nat);
        assert(poly_mod_scale(a, c)[n] == (a[n] * c) % 3329);
        lemma_mul_mod_noop_left(a[n] * c, z, 3329);
        lemma_add_mod_noop(ss, ((a[n] * c) % 3329) * z, 3329);
        assert((ss % 3329 + (((a[n] * c) % 3329) * z) % 3329) % 3329
            == ((sa * c) % 3329 + (a[n] * c * z) % 3329) % 3329);
        lemma_add_mod_noop(sa * c, a[n] * c * z, 3329);
        assert((sa + a[n] * z) * c == sa * c + a[n] * c * z) by (nonlinear_arith);
    }
}

/// The NTT commutes with scalar multiplication.
pub proof fn lemma_ntt_linear_scale(a: Seq<int>, c: int)
    requires
        crate::polynomial::coeffs_wf(a),
        0 <= c < 3329,
    ensures
        spec_ntt(poly_mod_scale(a, c)) == poly_mod_scale(spec_ntt(a), c),
{
    assert forall|n: int| 0 <= n < 256 implies
        #[trigger] spec_ntt(poly_mod_scale(a, c))[n]
            == poly_mod_scale(spec_ntt(a), c)[n] by {
        lemma_mod_bound(n, 2);
        lemma_ntt_sum_scale(a, c, n / 2, n % 2, 128);
        lemma_mul_mod_noop_left(ntt_sum(a, n / 2, n % 2, 128), c, 3329);
    }
    assert(spec_ntt(poly_mod_scale(a, c)) =~= poly_mod_scale(spec_ntt(a), c));
}

/// The 7-bit reversal of an index in [0, 128).
pub fn byte_rev(i: usize) -> (r: usize)
    requires
        i < 128,
    ensures
        r == spec_bit_rev7(i as int),
        r < 128,
{
    64 * (i % 2) + 32 * ((i / 2) % 2) + 16 * ((i / 4) % 2) + 8 * ((i / 8) % 2)
        + 4 * ((i / 16) % 2) + 2 * ((i / 32) % 2) + ((i / 64) % 2)
}

/// The 256 powers of zeta = 17, reduced mod q.
fn zeta_table() -> (r: Vec<PrimeField3329>)
    ensures
        r@.len() == 256,
        forall|e: int| 0 <= e < 256 ==> (#[trigger] r@[e])@ == zeta_pow(e as nat),
        forall|e: int| 0 <= e < 256 ==> (#[trigger] r@[e]).is_canonical(),
{
    let mut v: Vec<PrimeField3329> = Vec::new();
    let mut cur = PrimeField3329::one();
    let seventeen = PrimeField3329::from_int(17);
    proof {
        vstd::arithmetic::power::lemma_pow0(17);
        lemma_small_mod(1, 3329);
    }
    let mut e: usize = 0;
    while e < 256
        invariant
            0 <= e <= 256,
            v@.len() == e,
            cur.is_canonical(),
            seventeen@ == 17,
            seventeen.is_canonical(),
            cur@ == zeta_pow(e as nat),
            forall|t: int| 0 <= t < e ==> (#[trigger] v@[t])@ == zeta_pow(t as nat),
            forall|t: int| 0 <= t < e ==> (#[trigger] v@[t]).is_canonical(),
        decreases 256 - e,
    {
        v.push(cur);
        proof {
            vstd::arithmetic::power::lemma_pow1(17);
            vstd::arithmetic::power::lemma_pow_adds(17, e as nat, 1);
            lemma_mul_mod_noop_left(pow(17, e as nat), 17, 3329);
        }
        cur = cur.mul(&seventeen);
        e = e + 1;
    }
    v
}

/// The forward NTT, computed as the defining sums.
pub fn ntt(p: &Polynomial) -> (r: Polynomial)
    requires
        p.wf(),
    ensures
        r.wf(),
        r@ == spec_ntt(p@),
{
    let zt = zeta_table();
    let mut a = Polynomial::zero();
    let mut i: usize = 0;
    while i < 128
        invariant
            0 <= i <= 128,
            p.wf(),
            a.wf(),
            zt@.len() == 256,
            forall|e: int| 0 <= e < 256 ==> (#[trigger] zt@[e])@ == zeta_pow(e as nat),
            forall|e: int| 0 <= e < 256 ==> (#[trigger] zt@[e]).is_canonical(),
            forall|n: int| 0 <= n < 2 * i ==> #[trigger] a@[n] == spec_ntt(p@)[n],
        decreases 128 - i,
    {
        let br = byte_rev(i);
        let step = 2 * br + 1;
        let mut p0 = PrimeField3329::zero();
        let mut p1 = PrimeField3329::zero();
        let mut j: usize = 0;
        while j < 128
            invariant
                0 <= j <= 128,
                i < 128,
                step == 2 * spec_bit_rev7(i as int) + 1,
                step < 256,
                p.wf(),
                zt@.len() == 256,
                forall|e: int| 0 <= e < 256 ==> (#[trigger] zt@[e])@ == zeta_pow(e as nat),
                forall|e: int| 0 <= e < 256 ==> (#[trigger] zt@[e]).is_canonical(),
                p0.is_canonical(),
                p1.is_canonical(),
                p0@ == ntt_sum(p@, i as int, 0, j as nat) % 3329,
                p1@ == ntt_sum(p@, i as int, 1, j as nat) % 3329,
            decreases 128 - j,
        {
            proof {
                assert(step * j < 256 * 128) by (nonlinear_arith)
                    requires step < 256, j < 128;
            }
            let e = (step * j) % 256;
            let z = zt[e];
            let c0 = p.get(2 * j).mul(&z);
            let c1 = p.get(2 * j + 1).mul(&z);
            proof {
                let x0 = p@[2 * j];
                let x1 = p@[2 * j + 1];
                let zv = zeta_pow(e as nat);
                lemma_mul_mod_noop_right(x0, zv, 3329);
                lemma_mul_mod_noop_right(x1, zv, 3329);
                lemma_small_mod(x0 as nat, 3329);
                lemma_small_mod(x1 as nat, 3329);
                lemma_add_mod_noop(ntt_sum(p@, i as int, 0, j as nat), x0 * zv, 3329);
                lemma_add_mod_noop(ntt_sum(p@, i as int, 1, j as nat), x1 * zv, 3329);
            }
            p0 = p0.add(&c0);
            p1 = p1.add(&c1);
            j = j + 1;
        }
        a.set_coeff(2 * i, p0);
        a.set_coeff(2 * i + 1, p1);
        proof {
            lemma_fundamental_div_mod_converse_div(2 * i as int, 2, i as int, 0);
            lemma_fundamental_div_mod_converse_mod(2 * i as int, 2, i as int, 0);
            lemma_fundamental_div_mod_converse_div(2 * i as int + 1, 2, i as int, 1);
            lemma_fundamental_div_mod_converse_mod(2 * i as int + 1, 2, i as int, 1);
        }
        i = i + 1;
    }
    proof {
        assert(a@ =~= spec_ntt(p@));
    }
    a
}

/// The inverse NTT, computed as the defining sums and scaled by 128^-1.
pub fn rev_ntt(p_hat: &Polynomial) -> (r: Polynomial)
    requires
        p_hat.wf(),
    ensures
        r.wf(),
        r@ == spec_rev_ntt(p_hat@),
{
    let zt = zeta_table();
    let n_inv = PrimeField3329::from_int(3303);
    let mut a = Polynomial::zero();
    let mut t: usize = 0;
    while t < 128
        invariant
            0 <= t <= 128,
            p_hat.wf(),
            a.wf(),
            n_inv@ == 3303,
            n_inv.is_canonical(),
            zt@.len() == 256,
            forall|e: int| 0 <= e < 256 ==> (#[trigger] zt@[e])@ == zeta_pow(e as nat),
            forall|e: int| 0 <= e < 256 ==> (#[trigger] zt@[e]).is_canonical(),
            forall|n: int| 0 <= n < 2 * t ==> #[trigger] a@[n] == spec_rev_ntt(p_hat@)[n],
        decreases 128 - t,
    {
        let mut p0 = PrimeField3329::zero();
        let mut p1 = PrimeField3329::zero();
        let mut j: usize = 0;
        while j < 128
            invariant
                0 <= j <= 128,
                t < 128,
                p_hat.wf(),
                zt@.len() == 256,
                forall|e: int| 0 <= e < 256 ==> (#[trigger] zt@[e])@ == zeta_pow(e as nat),
                forall|e: int| 0 <= e < 256 ==> (#[trigger] zt@[e]).is_canonical(),
                p0.is_canonical(),
                p1.is_canonical(),
                p0@ == rev_ntt_sum(p_hat@, t as int, 0, j as nat) % 3329,
                p1@ == rev_ntt_sum(p_hat@, t as int, 1, j as nat) % 3329,
            decreases 128 - j,
        {
            let br = byte_rev(j);
            proof {
                assert((2 * br + 1) * t < 256 * 128) by (nonlinear_arith)
                    requires br < 128, t < 128;
            }
            let fwd = ((2 * br + 1) * t) % 256;
            let e = (256 - fwd) % 256;
            proof {
                assert(e as int == inv_exp(j as int, t as int));
            }
            let z = zt[e];
            let c0 = p_hat.get(2 * j).mul(&z);
            let c1 = p_hat.get(2 * j + 1).mul(&z);
            proof {
                let x0 = p_hat@[2 * j];
                let x1 = p_hat@[2 * j + 1];
                let zv = zeta_pow(e as nat);
                lemma_mul_mod_noop_right(x0, zv, 3329);
                lemma_mul_mod_noop_right(x1, zv, 3329);
                lemma_small_mod(x0 as nat, 3329);
                lemma_small_mod(x1 as nat, 3329);
                lemma_add_mod_noop(rev_ntt_sum(p_hat@, t as int, 0, j as nat), x0 * zv, 3329);
                lemma_add_mod_noop(rev_ntt_sum(p_hat@, t as int, 1, j as nat), x1 * zv, 3329);
            }
            p0 = p0.add(&c0);
            p1 = p1.add(&c1);
            j = j + 1;
        }
        let s0 = n_inv.mul(&p0);
        let s1 = n_inv.mul(&p1);
        proof {
            lemma_mul_mod_noop_right(3303, rev_ntt_sum(p_hat@, t as int, 0, 128), 3329);
            lemma_mul_mod_noop_right(3303, rev_ntt_sum(p_hat@, t as int, 1, 128), 3329);
        }
        a.set_coeff(2 * t, s0);
        a.set_coeff(2 * t + 1, s1);
        proof {
            lemma_fundamental_div_mod_converse_div(2 * t as int, 2, t as int, 0);
            lemma_fundamental_div_mod_converse_mod(2 * t as int, 2, t as int, 0);
            lemma_fundamental_div_mod_converse_div(2 * t as int + 1, 2, t as int, 1);
            lemma_fundamental_div_mod_converse_mod(2 * t as int + 1, 2, t as int, 1);
        }
        t = t + 1;
    }
    proof {
        assert(a@ =~= spec_rev_ntt(p_hat@));
    }
    a
}

/// The base-case multiplication of two NTT-domain polynomials.
pub fn bcm(a: &Polynomial, b: &Polynomial) -> (r: Polynomial)
    requires
        a.wf(),
        b.wf(),
    ensures
        r.wf(),
        r@ == spec_bcm(a@, b@),
{
    let zt = zeta_table();
    let mut p = Polynomial::zero();
    let mut i: usize = 0;
    while i < 128
        invariant
            0 <= i <= 128,
            a.wf(),
            b.wf(),
            p.wf(),
            zt@.len() == 256,
            forall|e: int| 0 <= e < 256 ==> (#[trigger] zt@[e])@ == zeta_pow(e as nat),
            forall|e: int| 0 <= e < 256 ==> (#[trigger] zt@[e]).is_canonical(),
            forall|n: int| 0 <= n < 2 * i ==> #[trigger] p@[n] == spec_bcm(a@, b@)[n],
        decreases 128 - i,
    {
        let br = byte_rev(i);
        let z = zt[2 * br + 1];
        let a0 = a.get(2 * i);
        let a1 = a.get(2 * i + 1);
        let b0 = b.get(2 * i);
        let b1 = b.get(2 * i + 1);
        let p01 = a0.mul(&b0);
        let p02 = a1.mul(&b1).mul(&z);
        let even = p01.add(&p02);
        let p11 = a0.mul(&b1);
        let p12 = a1.mul(&b0);
        let odd = p11.add(&p12);
        proof {
            let zv = zeta_pow((2 * spec_bit_rev7(i as int) + 1) as nat);
            lemma_mul_mod_noop_left(a1@ * b1@, zv, 3329);
            lemma_add_mod_noop(a0@ * b0@, a1@ * b1@ * zv, 3329);
            lemma_add_mod_noop(a0@ * b1@, a1@ * b0@, 3329);
        }
        p.set_coeff(2 * i, even);
        p.set_coeff(2 * i + 1, odd);
        proof {
            lemma_fundamental_div_mod_converse_div(2 * i as int, 2, i as int, 0);
            lemma_fundamental_div_mod_converse_mod(2 * i as int, 2, i as int, 0);
            lemma_fundamental_div_mod_converse_div(2 * i as int + 1, 2, i as int, 1);
            lemma_fundamental_div_mod_converse_mod(2 * i as int + 1, 2, i as int, 1);
        }
        i = i + 1;
    }
    proof {
        assert(p@ =~= spec_bcm(a@, b@));
    }
    p
}

/// The NTT-domain inner product of two vectors.
pub fn bcm_vec(a: &PolyVec, b: &PolyVec) -> (r: Polynomial)
    requires
        a.wf(),
        b.wf(),
        a@.len() == b@.len(),
        a@.len() >= 1,
    ensures
        r.wf(),
        r@ == spec_bcm_vec(a@, b@, a@.len() as nat),
{
    let l = a.dimension();
    let mut p = bcm(&a.get(0), &b.get(0));
    let mut i: usize = 1;
    while i < l
        invariant
            1 <= i <= l,
            l == a@.len(),
            l == b@.len(),
            a.wf(),
            b.wf(),
            p.wf(),
            p@ == spec_bcm_vec(a@, b@, i as nat),
        decreases l - i,
    {
        let t = bcm(&a.get(i), &b.get(i));
        p = p.add(&t);
        i = i + 1;
    }
    p
}

/// The NTT-domain matrix-vector product.
pub fn bcm_matrix_vec(a: &Matrix, b: &PolyVec) -> (r: PolyVec)
    requires
        a.wf(),
        b.wf(),
        a.spec_cols() == b@.len(),
        b@.len() >= 1,
    ensures
        r.wf(),
        r@.len() == a@.len(),
        forall|i: int| 0 <= i < a@.len() ==>
            #[trigger] r@[i] == spec_bcm_vec(a@[i], b@, b@.len() as nat),
{
    let (_, y) = a.dimensions();
    let mut v = PolyVec::init(y);
    let mut i: usize = 0;
    while i < y
        invariant
            0 <= i <= y,
            y == a@.len(),
            a.wf(),
            b.wf(),
            a.spec_cols() == b@.len(),
            b@.len() >= 1,
            v.wf(),
            v@.len() == y,
            forall|t: int| 0 <= t < i ==>
                #[trigger] v@[t] == spec_bcm_vec(a@[t], b@, b@.len() as nat),
        decreases y - i,
    {
        let row = a.row(i);
        let p = bcm_vec(&row, b);
        v.set(i, p);
        i = i + 1;
    }
    v
}

/// The product of two NTT-domain polynomials, back in the normal domain.
pub fn ntt_product(a_hat: &Polynomial, b_hat: &Polynomial) -> (r: Polynomial)
    requires
        a_hat.wf(),
        b_hat.wf(),
    ensures
        r.wf(),
        r@ == spec_rev_ntt(spec_bcm(a_hat@, b_hat@)),
{
    rev_ntt(&bcm(a_hat, b_hat))
}

/// The inner product of two NTT-domain vectors, back in the normal domain.
pub fn ntt_product_vec(a_hat: &PolyVec, b_hat: &PolyVec) -> (r: Polynomial)
    requires
        a_hat.wf(),
        b_hat.wf(),
        a_hat@.len() == b_hat@.len(),
        a_hat@.len() >= 1,
    ensures
        r.wf(),
        r@ == spec_rev_ntt(spec_bcm_vec(a_hat@, b_hat@, a_hat@.len() as nat)),
{
    rev_ntt(&bcm_vec(a_hat, b_hat))
}

/// The matrix-vector product of NTT-domain operands, back in the normal
/// domain.
pub fn ntt_product_matvec(a_hat: &Matrix, b_hat: &PolyVec) -> (r: PolyVec)
    requires
        a_hat.wf(),
        b_hat.wf(),
        a_hat.spec_cols() == b_hat@.len(),
        b_hat@.len() >= 1,
    ensures
        r.wf(),
        r@.len() == a_hat@.len(),
        forall|i: int| 0 <= i < a_hat@.len() ==>
            #[trigger] r@[i] == spec_rev_ntt(spec_bcm_vec(a_hat@[i], b_hat@, b_hat@.len() as nat)),
{
    rev_ntt_vec(&bcm_matrix_vec(a_hat, b_hat))
}

/// The forward NTT of every entry of a vector.
pub fn ntt_vec(p: &PolyVec) -> (r: PolyVec)
    requires
        p.wf(),
    ensures
        r.wf(),
        r@.len() == p@.len(),
        forall|i: int| 0 <= i < p@.len() ==> #[trigger] r@[i] == spec_ntt(p@[i]),
{
    let l = p.dimension();
    let mut v = PolyVec::init(l);
    let mut i: usize = 0;
    while i < l
        invariant
            0 <= i <= l,
            l == p@.len(),
            p.wf(),
            v.wf(),
            v@.len() == l,
            forall|t: int| 0 <= t < i ==> #[trigger] v@[t] == spec_ntt(p@[t]),
        decreases l - i,
    {
        let e = ntt(&p.get(i));
        v.set(i, e);
        i = i + 1;
    }
    v
}

/// The inverse NTT of every entry of a vector.
pub fn rev_ntt_vec(p_hat: &PolyVec) -> (r: PolyVec)
    requires
        p_hat.wf(),
    ensures
        r.wf(),
        r@.len() == p_hat@.len(),
        forall|i: int| 0 <= i < p_hat@.len() ==> #[trigger] r@[i] == spec_rev_ntt(p_hat@[i]),
{
    let l = p_hat.dimension();
    let mut v = PolyVec::init(l);
    let mut i: usize = 0;
    while i < l
        invariant
            0 <= i <= l,
            l == p_hat@.len(),
            p_hat.wf(),
            v.wf(),
            v@.len() == l,
            forall|t: int| 0 <= t < i ==> #[trigger] v@[t] == spec_rev_ntt(p_hat@[t]),
        decreases l - i,
    {
        let e = rev_ntt(&p_hat.get(i));
        v.set(i, e);
        i = i + 1;
    }
    v
}

} // verus!
