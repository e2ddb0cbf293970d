//! Lossy d-bit compression of coefficients, polynomials and vectors.
//!
//! `compress` maps [0, q) onto [0, 2^d) by rounding x * 2^d / q half away
//! from zero; `decompress` is its nearest inverse.  Both are computed with
//! integer arithmetic only.

use crate::polynomial::Polynomial;
use crate::polyvec::PolyVec;
use crate::primefield::PrimeField3329;
use vstd::prelude::*;
use vstd::arithmetic::power2::pow2;
use vstd::arithmetic::div_mod::{
    lemma_fundamental_div_mod, lemma_mod_bound, lemma_div_is_ordered, lemma_small_mod,
};
use vstd::math::abs;

verus! {

/// round(x * 2^d / q) mod 2^d, with rounding half away from zero.
pub open spec fn spec_compress(x: int, d: nat) -> int {
    ((2 * (pow2(d) as int) * x + 3329) / 6658int) % (pow2(d) as int)
}

/// round(y * q / 2^d), with rounding half away from zero.
pub open spec fn spec_decompress(y: int, d: nat) -> int {
    (2 * 3329 * y + (pow2(d) as int)) / (2 * (pow2(d) as int))
}

/// Every coefficient compressed to `d` bits, reduced mod q.
pub open spec fn spec_compress_coeffs(p: Seq<int>, d: nat) -> Seq<int> {
    Seq::new(256, |i: int| spec_compress(p[i], d) % 3329)
}

/// Every coefficient decompressed from `d` bits.
pub open spec fn spec_decompress_coeffs(p: Seq<int>, d: nat) -> Seq<int> {
    Seq::new(256, |i: int| spec_decompress(p[i], d))
}

/// Every entry of a vector compressed to `d` bits.
pub open spec fn spec_compress_vec(v: Seq<Seq<int>>, d: nat) -> Seq<Seq<int>> {
    Seq::new(v.len(), |i: int| spec_compress_coeffs(v[i], d))
}

/// Every entry of a vector decompressed from `d` bits.
pub open spec fn spec_decompress_vec(v: Seq<Seq<int>>, d: nat) -> Seq<Seq<int>> {
    Seq::new(v.len(), |i: int| spec_decompress_coeffs(v[i], d))
}

/// 2^d as a machine integer.
pub fn pow2_exec(d: usize) -> (r: u64)
    requires
        d <= 24,
    ensures
        r == pow2(d as nat),
{
    let mut m: u64 = 1;
    let mut i: usize = 0;
    proof {
        vstd::arithmetic::power2::lemma2_to64();
    }
    while i < d
        invariant
            0 <= i <= d <= 24,
            m == pow2(i as nat),
        decreases d - i,
    {
        proof {
            vstd::arithmetic::power2::lemma_pow2_unfold((i + 1) as nat);
            vstd::arithmetic::power2::lemma_pow2_strictly_increases(i as nat, 24);
            vstd::arithmetic::power2::lemma2_to64();
        }
        m = m * 2;
        i = i + 1;
    }
    m
}

/// Compress a single canonical coefficient to `d` bits.
pub fn compress_integer(x: usize, d: usize, q: usize) -> (r: usize)
    requires
        q == 3329,
        x < q,
        1 <= d <= 12,
    ensures
        r == spec_compress(x as int, d as nat),
        r < pow2(d as nat),
{
    let m = pow2_exec(d);
    proof {
        vstd::arithmetic::power2::lemma_pow2_strictly_increases(d as nat, 13);
        vstd::arithmetic::power2::lemma2_to64();
        vstd::arithmetic::mul::lemma_mul_upper_bound(2 * (m as int), 16384int, x as int, 3328int);
        lemma_mod_bound(2 * (pow2(d as nat) as int) * x + 3329, pow2(d as nat) as int);
    }
    let num: u64 = 2 * m * (x as u64) + (q as u64);
    let r = (num / (2 * 3329)) % m;
    r as usize
}

/// Decompress a `d`-bit value back to a canonical coefficient.
pub fn decompress_integer(x: usize, d: usize, q: usize) -> (r: usize)
    requires
        q == 3329,
        1 <= d <= 12,
        x < pow2(d as nat),
    ensures
        r == spec_decompress(x as int, d as nat),
        r < 3329,
{
    let m = pow2_exec(d);
    proof {
        vstd::arithmetic::power2::lemma_pow2_strictly_increases(d as nat, 13);
        vstd::arithmetic::power2::lemma2_to64();
        vstd::arithmetic::mul::lemma_mul_upper_bound(6658int, 6658int, x as int, m as int - 1);
    }
    let num: u64 = 2 * (q as u64) * (x as u64) + m;
    let r = num / (2 * m);
    proof {
        assert(2 * 3329 * x + m <= 2 * 3329 * (m - 1) + m) by (nonlinear_arith)
            requires x <= m - 1;
        assert(2 * 3329 * (m - 1) + m < (2 * (m as int)) * 3329) by (nonlinear_arith)
            requires 2 <= m <= 4096;
        vstd::arithmetic::div_mod::lemma_multiply_divide_lt(num as int, 2 * (m as int), 3329);
    }
    r as usize
}

/// Compress every coefficient of a polynomial to `d` bits.  For d = 12 a
/// compressed value can reach past q and is then reduced mod q.
pub fn compress_poly(x: Polynomial, d: usize, q: usize) -> (r: Polynomial)
    requires
        q == 3329,
        1 <= d <= 12,
        x.wf(),
    ensures
        r.wf(),
        r@ == spec_compress_coeffs(x@, d as nat),
        forall|i: int| 0 <= i < 256 ==>
            #[trigger] r@[i] == spec_compress(x@[i], d as nat) % 3329,
{
    let mut coeffs: Vec<PrimeField3329> = Vec::new();
    let mut i: usize = 0;
    while i < 256
        invariant
            0 <= i <= 256,
            q == 3329,
            1 <= d <= 12,
            x.wf(),
            coeffs@.len() == i,
            forall|j: int| 0 <= j < i ==> (#[trigger] coeffs@[j]).is_canonical(),
            forall|j: int| 0 <= j < i ==>
                (#[trigger] coeffs@[j])@ == spec_compress(x@[j], d as nat) % 3329,
        decreases 256 - i,
    {
        let xi = x.get(i).to_int();
        let c = compress_integer(xi as usize, d, q);
        proof {
            vstd::arithmetic::power2::lemma_pow2_strictly_increases(d as nat, 13);
            vstd::arithmetic::power2::lemma2_to64();
        }
        coeffs.push(PrimeField3329::from_int(c as i64));
        i = i + 1;
    }
    let r = Polynomial::from_vec(coeffs);
    proof {
        assert(r@ =~= spec_compress_coeffs(x@, d as nat));
    }
    r
}

/// Decompress every coefficient of a polynomial from `d` bits.
pub fn decompress_poly(x: Polynomial, d: usize, q: usize) -> (r: Polynomial)
    requires
        q == 3329,
        1 <= d <= 12,
        x.wf(),
        forall|i: int| 0 <= i < 256 ==> #[trigger] x@[i] < pow2(d as nat),
    ensures
        r.wf(),
        r@ == spec_decompress_coeffs(x@, d as nat),
        forall|i: int| 0 <= i < 256 ==>
            #[trigger] r@[i] == spec_decompress(x@[i], d as nat),
{
    let mut coeffs: Vec<PrimeField3329> = Vec::new();
    let mut i: usize = 0;
    while i < 256
        invariant
            0 <= i <= 256,
            q == 3329,
            1 <= d <= 12,
            x.wf(),
            forall|j: int| 0 <= j < 256 ==> #[trigger] x@[j] < pow2(d as nat),
            coeffs@.len() == i,
            forall|j: int| 0 <= j < i ==> (#[trigger] coeffs@[j]).is_canonical(),
            forall|j: int| 0 <= j < i ==>
                (#[trigger] coeffs@[j])@ == spec_decompress(x@[j], d as nat),
        decreases 256 - i,
    {
        let xi = x.get(i).to_int();
        let c = decompress_integer(xi as usize, d, q);
        proof {
            lemma_small_mod(c as nat, 3329);
        }
        coeffs.push(PrimeField3329::from_int(c as i64));
        i = i + 1;
    }
    let r = Polynomial::from_vec(coeffs);
    proof {
        assert(r@ =~= spec_decompress_coeffs(x@, d as nat));
    }
    r
}

/// Compress every polynomial of a vector to `d` bits.
pub fn compress_polyvec(x: PolyVec, d: usize, q: usize) -> (r: PolyVec)
    requires
        q == 3329,
        1 <= d <= 12,
        x.wf(),
    ensures
        r.wf(),
        r@ == spec_compress_vec(x@, d as nat),
        r@.len() == x@.len(),
        forall|i: int, j: int| 0 <= i < x@.len() && 0 <= j < 256 ==>
            #[trigger] r@[i][j] == spec_compress(x@[i][j], d as nat) % 3329,
{
    let n = x.dimension();
    let mut polys: Vec<Polynomial> = Vec::new();
    let mut i: usize = 0;
    while i < n
        invariant
            0 <= i <= n,
            n == x@.len(),
            q == 3329,
            1 <= d <= 12,
            x.wf(),
            polys@.len() == i,
            forall|j: int| 0 <= j < i ==> (#[trigger] polys@[j]).wf(),
            forall|j: int, c: int| 0 <= j < i && 0 <= c < 256 ==>
                #[trigger] polys@[j]@[c] == spec_compress(x@[j][c], d as nat) % 3329,
        decreases n - i,
    {
        polys.push(compress_poly(x.get(i), d, q));
        i = i + 1;
    }
    let r = PolyVec::from_vec(polys);
    proof {
        assert(forall|j: int| 0 <= j < n ==> (#[trigger] r@[j]) == polys@[j]@);
        assert forall|j: int| 0 <= j < n implies
            #[trigger] r@[j] == spec_compress_coeffs(x@[j], d as nat) by {
            assert(r@[j] =~= spec_compress_coeffs(x@[j], d as nat));
        }
        assert(r@ =~= spec_compress_vec(x@, d as nat));
    }
    r
}

/// Decompress every polynomial of a vector from `d` bits.
pub fn decompress_polyvec(x: PolyVec, d: usize, q: usize) -> (r: PolyVec)
    requires
        q == 3329,
        1 <= d <= 12,
        x.wf(),
        forall|i: int, j: int| 0 <= i < x@.len() && 0 <= j < 256 ==>
            #[trigger] x@[i][j] < pow2(d as nat),
    ensures
        r.wf(),
        r@ == spec_decompress_vec(x@, d as nat),
        r@.len() == x@.len(),
        forall|i: int, j: int| 0 <= i < x@.len() && 0 <= j < 256 ==>
            #[trigger] r@[i][j] == spec_decompress(x@[i][j], d as nat),
{
    let n = x.dimension();
    let mut polys: Vec<Polynomial> = Vec::new();
    let mut i: usize = 0;
    while i < n
        invariant
            0 <= i <= n,
            n == x@.len(),
            q == 3329,
            1 <= d <= 12,
            x.wf(),
            forall|j: int, c: int| 0 <= j < n && 0 <= c < 256 ==>
                #[trigger] x@[j][c] < pow2(d as nat),
            polys@.len() == i,
            forall|j: int| 0 <= j < i ==> (#[trigger] polys@[j]).wf(),
            forall|j: int, c: int| 0 <= j < i && 0 <= c < 256 ==>
                #[trigger] polys@[j]@[c] == spec_decompress(x@[j][c], d as nat),
        decreases n - i,
    {
        polys.push(decompress_poly(x.get(i), d, q));
        i = i + 1;
    }
    let r = PolyVec::from_vec(polys);
    proof {
        assert(forall|j: int| 0 <= j < n ==> (#[trigger] r@[j]) == polys@[j]@);
        assert forall|j: int| 0 <= j < n implies
            #[trigger] r@[j] == spec_decompress_coeffs(x@[j], d as nat) by {
            assert(r@[j] =~= spec_decompress_coeffs(x@[j], d as nat));
        }
        assert(r@ =~= spec_decompress_vec(x@, d as nat));
    }
    r
}

/// Decompressing a compressed coefficient lands within ceil(q / 2^(d+1))
/// of the original, measured in the centered metric mod q.
pub proof fn lemma_compress_decompress_bound(x: int, d: nat)
    requires
        0 <= x < 3329,
        1 <= d <= 12,
    ensures
        ({
            let y = spec_decompress(spec_compress(x, d), d);
            let b = (3329 + pow2(d + 1) - 1) as int / pow2(d + 1) as int;
            abs(y - x) <= b || 3329 - abs(y - x) <= b
        }),
{
    let m = pow2(d) as int;
    let q: int = 3329;
    vstd::arithmetic::power2::lemma_pow2_strictly_increases(d, 13);
    vstd::arithmetic::power2::lemma_pow2_strictly_increases(0, d);
    vstd::arithmetic::power2::lemma_pow2_adds(d, 1);
    vstd::arithmetic::power2::lemma2_to64();
    assert(2 <= m <= 4096);
    assert(pow2(d + 1) == 2 * m);

    let b = (q + 2 * m - 1) / (2 * m);
    // 2*m*b >= q, from the division identity on q + 2*m - 1.
    lemma_fundamental_div_mod(q + 2 * m - 1, 2 * m);
    lemma_mod_bound(q + 2 * m - 1, 2 * m);
    assert(2 * m * b >= q);

    let a0 = 2 * m * x + q;
    let c0 = a0 / (2 * q);
    let r1 = a0 % (2 * q);
    lemma_fundamental_div_mod(a0, 2 * q);
    lemma_mod_bound(a0, 2 * q);

    // c0 <= m: the numerator is below 2*q*(m+1).
    assert(a0 <= 2 * m * (q - 1) + q) by (nonlinear_arith)
        requires a0 == 2 * m * x + q, x <= q - 1, m >= 2, q == 3329;
    assert(2 * m * (q - 1) + q < 2 * q * (m + 1)) by (nonlinear_arith)
        requires m >= 2, q == 3329;
    assert(c0 < m + 1) by {
        if c0 >= m + 1 {
            assert(2 * q * c0 >= 2 * q * (m + 1)) by (nonlinear_arith)
                requires c0 >= m + 1, q == 3329;
        }
    }

    if c0 == m {
        // The rounded value wraps to zero; x lies within b of q.
        assert(spec_compress(x, d) == m % m);
        lemma_small_mod(0, m as nat);
        assert(m % m == 0) by {
            vstd::arithmetic::div_mod::lemma_mod_self_0(m);
        }
        assert(spec_compress(x, d) == 0);
        assert(spec_decompress(0, d) == m / (2 * m));
        vstd::arithmetic::div_mod::lemma_basic_div(m, 2 * m);
        assert(spec_decompress(0, d) == 0);
        // From a0 / (2q) == m we get 2*m*(q - x) <= q.
        assert(a0 >= 2 * q * m);
        assert(2 * m * (q - x) <= q) by (nonlinear_arith)
            requires 2 * m * x + q >= 2 * q * m, q == 3329;
        assert(q - x <= b) by {
            if q - x > b {
                assert(2 * m * (q - x) >= 2 * m * (b + 1)) by (nonlinear_arith)
                    requires q - x >= b + 1, m >= 2;
                assert(2 * m * (b + 1) == 2 * m * b + 2 * m) by (nonlinear_arith);
            }
        }
        assert(abs(0 - x) == x);
        assert(3329 - abs(0 - x) <= b);
    } else {
        // No wrap: c0 < m, so the compressed value is c0 itself.
        lemma_small_mod(c0 as nat, m as nat);
        assert(c0 % m == c0);
        assert(spec_compress(x, d) == c0);
        let b0 = 2 * q * c0 + m;
        let y = b0 / (2 * m);
        let r2 = b0 % (2 * m);
        lemma_fundamental_div_mod(b0, 2 * m);
        lemma_mod_bound(b0, 2 * m);
        assert(spec_decompress(c0, d) == y);
        // 2*m*(y - x) == q + m - r1 - r2.
        assert(2 * m * y == 2 * q * c0 + m - r2);
        assert(2 * q * c0 == 2 * m * x + q - r1);
        assert(2 * m * (y - x) == q + m - r1 - r2) by (nonlinear_arith)
            requires
                2 * m * y == 2 * q * c0 + m - r2,
                2 * q * c0 == 2 * m * x + q - r1;
        assert(q + m - r1 - r2 <= q + m);
        assert(q + m - r1 - r2 >= q + m - (2 * q - 1) - (2 * m - 1));
        assert(abs(y - x) <= b) by {
            if abs(y - x) > b {
                assert(abs(y - x) >= b + 1);
                assert(2 * m * abs(y - x) >= 2 * m * (b + 1)) by (nonlinear_arith)
                    requires abs(y - x) >= b + 1, m >= 2;
                assert(2 * m * (b + 1) == 2 * m * b + 2 * m) by (nonlinear_arith);
                assert(2 * m * abs(y - x) >= q + 2 * m);
                assert(2 * m * abs(y - x) == abs(2 * m * (y - x))) by (nonlinear_arith)
                    requires m >= 2;
                assert(abs(2 * m * (y - x)) <= q + m);
                assert(q + 2 * m > q + m);
                assert(false);
            }
        }
    }
}

} // verus!
