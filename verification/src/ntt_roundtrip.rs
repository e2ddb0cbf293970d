//! The round-trip theorems for the NTT: the inverse transform undoes the
//! forward transform, and the forward transform undoes the inverse.
//!
//! The proofs work with the defining sums.  Exchanging the two summations
//! reduces each claim to the orthogonality of a character sum: the sum of
//! zeta^((2 br(i) + 1) d) over i, or of zeta^(d u) over u, which vanishes
//! for d != 0 because it factors level by level into terms
//! (1 + zeta^(2^l d)), one of which is 1 + zeta^128 = 1 + (q - 1) = 0.
//! For the first kernel the levels come from the 7-bit reversal, which
//! pairs index 2s + 1 with index 2s at distance 64; for the second they
//! come from splitting the index range into halves.

use crate::ntt::{inv_exp, ntt_sum, rev_ntt_sum, spec_bit_rev7, spec_ntt, spec_rev_ntt, zeta_pow};
use vstd::prelude::*;
use vstd::calc;
use vstd::arithmetic::power::pow;
use vstd::arithmetic::power2::pow2;
use vstd::arithmetic::div_mod::{
    lemma_add_mod_noop, lemma_mul_mod_noop_left, lemma_mul_mod_noop_right, lemma_mod_bound,
    lemma_small_mod, lemma_sub_mod_noop, lemma_mod_add_multiples_vanish,
    lemma_fundamental_div_mod_converse_div, lemma_fundamental_div_mod_converse_mod,
    lemma_mod_multiples_vanish, lemma_div_denominator,
};
use vstd::arithmetic::power::{lemma_pow_adds, lemma_pow1, lemma_pow_positive};

verus! {

/// Every power of zeta is canonical.
proof fn lemma_zeta_bounds(e: nat)
    ensures
        0 <= zeta_pow(e) < 3329,
{
    lemma_pow_positive(17, e);
    lemma_mod_bound(pow(17, e), 3329);
}

/// zeta^a * zeta^b is zeta^(a+b), mod q.
proof fn lemma_zeta_add(a: nat, b: nat)
    ensures
        (zeta_pow(a) * zeta_pow(b)) % 3329 == zeta_pow(a + b),
{
    lemma_pow_adds(17, a, b);
    vstd::arithmetic::div_mod::lemma_mul_mod_noop_general(pow(17, a), pow(17, b), 3329);
}

/// The doubling identity for powers of zeta.
proof fn lemma_zeta_double(e: nat)
    ensures
        zeta_pow(2 * e) == (zeta_pow(e) * zeta_pow(e)) % 3329,
{
    lemma_zeta_add(e, e);
}

/// zeta^128 = q - 1 and zeta^256 = 1: zeta = 17 is a primitive 256th
/// root of unity mod q.
proof fn lemma_zeta_key_values()
    ensures
        zeta_pow(128) == 3328,
        zeta_pow(256) == 1,
{
    assert(zeta_pow(0) == 1) by {
        vstd::arithmetic::power::lemma_pow0(17);
        lemma_small_mod(1, 3329);
    }
    assert(zeta_pow(1) == 17) by {
        lemma_pow1(17);
        lemma_small_mod(17, 3329);
    }
    lemma_zeta_double(1);
    assert(zeta_pow(2) == 289);
    lemma_zeta_double(2);
    assert(zeta_pow(4) == (289 * 289) % 3329);
    assert(zeta_pow(4) == 296);
    lemma_zeta_double(4);
    assert(zeta_pow(8) == 1062);
    lemma_zeta_double(8);
    assert(zeta_pow(16) == 2642);
    lemma_zeta_double(16);
    assert(zeta_pow(32) == 2580);
    lemma_zeta_double(32);
    assert(zeta_pow(64) == 1729);
    lemma_zeta_double(64);
    assert(zeta_pow(128) == 3328);
    lemma_zeta_double(128);
    assert(zeta_pow(256) == 1);
}

/// Exponents of zeta only matter mod 256.
proof fn lemma_zeta_wrap(a: nat)
    ensures
        zeta_pow(a + 256) == zeta_pow(a),
{
    lemma_zeta_add(a, 256);
    lemma_zeta_key_values();
    lemma_zeta_bounds(a);
    lemma_small_mod(zeta_pow(a) as nat, 3329);
}

/// Reducing the exponent mod 256 does not change the power.
proof fn lemma_zeta_mod(a: nat)
    ensures
        zeta_pow((a % 256) as nat) == zeta_pow(a),
    decreases a,
{
    if a >= 256 {
        lemma_zeta_wrap((a - 256) as nat);
        lemma_mod_add_multiples_vanish(a - 256, 256);
        lemma_zeta_mod((a - 256) as nat);
    } else {
        lemma_small_mod(a, 256);
    }
}

/// The product of two powers with already reduced exponents is the power
/// of the reduced sum of the exponents.
proof fn lemma_zeta_exp_add(x: int, y: int)
    ensures
        (zeta_pow((x % 256) as nat) * zeta_pow((y % 256) as nat)) % 3329
            == zeta_pow(((x + y) % 256) as nat),
{
    let a = (x % 256) as nat;
    let b = (y % 256) as nat;
    lemma_zeta_add(a, b);
    lemma_zeta_mod(a + b);
    lemma_add_mod_noop(x, y, 256);
    assert((x % 256 + y % 256) % 256 == (x + y) % 256);
    assert(((a + b) % 256) as nat == ((x + y) % 256) as nat);
}

/// The bit reversal of width `ell`: the low bit moves to the top.
spec fn brv(ell: nat, i: int) -> int
    decreases ell,
{
    if ell == 0 {
        0
    } else {
        (pow2((ell - 1) as nat) as int) * (i % 2) + brv((ell - 1) as nat, i / 2)
    }
}

/// The reversal stays below 2^ell.
proof fn lemma_brv_bounds(ell: nat, i: int)
    ensures
        0 <= brv(ell, i) < pow2(ell),
    decreases ell,
{
    if ell == 0 {
        vstd::arithmetic::power2::lemma2_to64();
    } else {
        lemma_brv_bounds((ell - 1) as nat, i / 2);
        vstd::arithmetic::power2::lemma_pow2_unfold(ell);
        lemma_mod_bound(i, 2);
        let p = pow2((ell - 1) as nat) as int;
        if i % 2 == 0 {
            assert(p * (i % 2) == 0) by (nonlinear_arith)
                requires i % 2 == 0;
        } else {
            assert(p * (i % 2) == p) by (nonlinear_arith)
                requires i % 2 == 1;
        }
    }
}

/// At width 7 the recursive reversal agrees with the closed formula.
proof fn lemma_brv_seven(i: int)
    requires
        0 <= i,
    ensures
        brv(7, i) == spec_bit_rev7(i),
{
    vstd::arithmetic::power2::lemma2_to64();
    lemma_div_denominator(i, 2, 2);
    lemma_div_denominator(i, 4, 2);
    lemma_div_denominator(i, 8, 2);
    lemma_div_denominator(i, 16, 2);
    lemma_div_denominator(i, 32, 2);
    lemma_div_denominator(i, 64, 2);
    assert(i / 2 / 2 == i / 4);
    assert(i / 4 / 2 == i / 8);
    assert(i / 8 / 2 == i / 16);
    assert(i / 16 / 2 == i / 32);
    assert(i / 32 / 2 == i / 64);
    assert(i / 64 / 2 == i / 128);
    assert(brv(0, i / 128) == 0);
    assert(brv(1, i / 64) == (pow2(0) as int) * ((i / 64) % 2) + brv(0, (i / 64) / 2));
    assert(brv(1, i / 64) == (i / 64) % 2);
    assert(brv(2, i / 32) == 2 * ((i / 32) % 2) + brv(1, i / 64));
    assert(brv(3, i / 16) == 4 * ((i / 16) % 2) + brv(2, i / 32));
    assert(brv(4, i / 8) == 8 * ((i / 8) % 2) + brv(3, i / 16));
    assert(brv(5, i / 4) == 16 * ((i / 4) % 2) + brv(4, i / 8));
    assert(brv(6, i / 2) == 32 * ((i / 2) % 2) + brv(5, i / 4));
    assert(brv(7, i) == 64 * (i % 2) + brv(6, i / 2));
}

/// One character term: zeta^((2 brv(ell, i) + 1) m mod 256).
spec fn kterm(m: int, ell: nat, i: int) -> int {
    zeta_pow((((2 * brv(ell, i) + 1) * m) % 256) as nat)
}

/// The partial character sum over the first `j` indices.
spec fn ksum(m: int, ell: nat, j: nat) -> int
    decreases j,
{
    if j == 0 {
        0
    } else {
        ksum(m, ell, (j - 1) as nat) + kterm(m, ell, j - 1)
    }
}

/// Splitting one index: even indices reproduce the next level down, odd
/// indices carry an extra factor zeta^(2^ell m).
proof fn lemma_kterm_pair(m: int, ell: nat, s: int)
    requires
        ell >= 1,
        s >= 0,
    ensures
        kterm(m, ell, 2 * s) == kterm(m, (ell - 1) as nat, s),
        kterm(m, ell, 2 * s + 1) % 3329 == (kterm(m, (ell - 1) as nat, s) * zeta_pow(
            ((pow2(ell) as int * m) % 256) as nat,
        )) % 3329,
{
    lemma_fundamental_div_mod_converse_div(2 * s, 2, s, 0);
    lemma_fundamental_div_mod_converse_mod(2 * s, 2, s, 0);
    lemma_fundamental_div_mod_converse_div(2 * s + 1, 2, s, 1);
    lemma_fundamental_div_mod_converse_mod(2 * s + 1, 2, s, 1);
    assert(brv(ell, 2 * s) == brv((ell - 1) as nat, s));
    assert(brv(ell, 2 * s + 1) == (pow2((ell - 1) as nat) as int) + brv((ell - 1) as nat, s));
    let b = brv((ell - 1) as nat, s);
    let p = pow2((ell - 1) as nat) as int;
    vstd::arithmetic::power2::lemma_pow2_unfold(ell);
    assert((2 * (p + b) + 1) * m == (2 * b + 1) * m + (2 * p) * m) by (nonlinear_arith);
    assert(2 * p == pow2(ell) as int);
    lemma_zeta_exp_add((2 * b + 1) * m, (pow2(ell) as int) * m);
    lemma_zeta_bounds((((pow2(ell) as int * m) % 256)) as nat);
    let f = zeta_pow(((pow2(ell) as int * m) % 256) as nat);
    lemma_mod_bound((pow2(ell) as int) * m, 256);
    assert(kterm(m, ell, 2 * s + 1)
        == zeta_pow((((2 * b + 1) * m + (pow2(ell) as int) * m) % 256) as nat));
    assert((kterm(m, (ell - 1) as nat, s) * f) % 3329 == kterm(m, ell, 2 * s + 1)) by {
        lemma_zeta_mod((((2 * b + 1) * m) % 256) as nat);
        assert(kterm(m, (ell - 1) as nat, s) == zeta_pow(((((2 * b + 1) * m) % 256)) as nat));
    }
    lemma_zeta_bounds((((2 * b + 1) * m + (pow2(ell) as int) * m) % 256) as nat);
    lemma_small_mod(kterm(m, ell, 2 * s + 1) as nat, 3329);
}

/// The character sum over 2j indices factors as the sum over j indices
/// one level down times (1 + zeta^(2^ell m)), mod q.
proof fn lemma_ksum_halves(m: int, ell: nat, j: nat)
    requires
        ell >= 1,
    ensures
        ksum(m, ell, 2 * j) % 3329 == (ksum(m, (ell - 1) as nat, j) * (1 + zeta_pow(
            ((pow2(ell) as int * m) % 256) as nat,
        ))) % 3329,
    decreases j,
{
    let f = zeta_pow(((pow2(ell) as int * m) % 256) as nat);
    if j == 0 {
    } else {
        lemma_ksum_halves(m, ell, (j - 1) as nat);
        lemma_kterm_pair(m, ell, j - 1);
        let prev_top = ksum(m, ell, (2 * j - 2) as nat);
        let prev_bot = ksum(m, (ell - 1) as nat, (j - 1) as nat);
        let t = kterm(m, (ell - 1) as nat, j - 1);
        assert(ksum(m, ell, 2 * j) == ksum(m, ell, (2 * j - 1) as nat) + kterm(
            m,
            ell,
            2 * j - 1,
        ));
        assert(ksum(m, ell, (2 * j - 1) as nat) == prev_top + kterm(m, ell, 2 * j - 2));
        assert(kterm(m, ell, 2 * (j - 1)) == t);
        assert(kterm(m, ell, 2 * (j - 1) + 1) % 3329 == (t * f) % 3329);
        assert(2 * (j - 1) == 2 * j - 2);
        assert(2 * (j - 1) + 1 == 2 * j - 1);
        // ksum(2j) = prev_top + t + kterm_odd; mod q this is
        // prev_bot*(1+f) + t + t*f = (prev_bot + t)*(1+f).
        calc! {
            (==)
            ksum(m, ell, 2 * j) % 3329;
                {}
            (prev_top + t + kterm(m, ell, 2 * j - 1)) % 3329;
                {
                    lemma_add_mod_noop(prev_top + t, kterm(m, ell, 2 * j - 1), 3329);
                    lemma_add_mod_noop(prev_top + t, t * f, 3329);
                }
            (prev_top + t + t * f) % 3329;
                {
                    lemma_add_mod_noop(prev_top, t + t * f, 3329);
                    lemma_add_mod_noop(prev_bot * (1 + f), t + t * f, 3329);
                }
            (prev_bot * (1 + f) + (t + t * f)) % 3329;
                {
                    assert(prev_bot * (1 + f) + (t + t * f) == (prev_bot + t) * (1 + f))
                        by (nonlinear_arith);
                }
            ((prev_bot + t) * (1 + f)) % 3329;
                {}
            (ksum(m, (ell - 1) as nat, j) * (1 + f)) % 3329;
        }
    }
}

/// If some doubling of m lands on 128 mod 256, the character sum over a
/// full level vanishes mod q.
proof fn lemma_ksum_zero(m: int, ell: nat)
    requires
        1 <= ell <= 7,
        exists|j: int| 1 <= j <= ell && ((#[trigger] pow2(j as nat)) as int * m) % 256 == 128,
    ensures
        ksum(m, ell, pow2(ell)) % 3329 == 0,
    decreases ell,
{
    let f = zeta_pow(((pow2(ell) as int * m) % 256) as nat);
    vstd::arithmetic::power2::lemma_pow2_unfold(ell);
    lemma_ksum_halves(m, ell, pow2((ell - 1) as nat));
    assert(pow2(ell) == 2 * pow2((ell - 1) as nat));
    if ((pow2(ell) as int) * m) % 256 == 128 {
        lemma_zeta_key_values();
        assert(f == 3328);
        assert((ksum(m, (ell - 1) as nat, pow2((ell - 1) as nat)) * (1 + f)) % 3329 == 0) by {
            lemma_mul_mod_noop_right(
                ksum(m, (ell - 1) as nat, pow2((ell - 1) as nat)),
                1 + f,
                3329,
            );
        }
    } else {
        let j0 = choose|j: int| 1 <= j <= ell && ((#[trigger] pow2(j as nat)) as int * m) % 256 == 128;
        assert(1 <= j0 <= ell - 1);
        lemma_ksum_zero(m, (ell - 1) as nat);
        lemma_mul_mod_noop_left(
            ksum(m, (ell - 1) as nat, pow2((ell - 1) as nat)),
            1 + f,
            3329,
        );
    }
}

/// Every d in (0, 256) other than 128 has a doubling that lands on 128
/// mod 256.
proof fn lemma_halving_witness(d: int)
    requires
        0 < d < 256,
        d != 128,
    ensures
        exists|j: int| 1 <= j <= 7 && ((#[trigger] pow2(j as nat)) as int * d) % 256 == 128,
    decreases d,
{
    vstd::arithmetic::power2::lemma2_to64();
    if d % 2 == 1 {
        let c = d / 2;
        assert(d == 2 * c + 1);
        assert(128 * d == 256 * c + 128) by (nonlinear_arith)
            requires d == 2 * c + 1;
        lemma_mod_multiples_vanish(c, 128, 256);
        lemma_small_mod(128, 256);
        let j7: int = 7;
        assert(1 <= j7 <= 7 && ((pow2(j7 as nat) as int) * d) % 256 == 128);
    } else {
        let h = d / 2;
        assert(d == 2 * h);
        assert(0 < h < 128);
        lemma_halving_witness(h);
        let j0 = choose|j: int| 1 <= j <= 7 && ((#[trigger] pow2(j as nat)) as int * h) % 256 == 128;
        assert(j0 >= 2) by {
            if j0 == 1 {
                assert(((pow2(1) as int) * h) % 256 == 128);
                assert(2 * h == d);
                lemma_small_mod(d as nat, 256);
                assert(d == 128);
            }
        }
        assert((pow2((j0 - 1) as nat) as int) * d == (pow2(j0 as nat) as int) * h) by {
            vstd::arithmetic::power2::lemma_pow2_unfold(j0 as nat);
            assert((2 * (pow2((j0 - 1) as nat) as int)) * h == (pow2((j0 - 1) as nat) as int) * (
                2 * h)) by (nonlinear_arith);
        }
        assert(1 <= j0 - 1 <= 7 && ((pow2((j0 - 1) as nat) as int) * d) % 256 == 128);
    }
}

/// The character sum over all 128 indices vanishes for every offset m
/// that is not 0 mod 256 and not 128 mod 256.
proof fn lemma_character_sum_zero(m: int)
    requires
        m % 256 != 0,
        m % 256 != 128,
    ensures
        ksum(m, 7, 128) % 3329 == 0,
{
    let d = m % 256;
    lemma_mod_bound(m, 256);
    lemma_halving_witness(d);
    let j0 = choose|j: int| 1 <= j <= 7 && ((#[trigger] pow2(j as nat)) as int * d) % 256 == 128;
    assert(((pow2(j0 as nat) as int) * m) % 256 == 128) by {
        lemma_mul_mod_noop_right(pow2(j0 as nat) as int, m, 256);
        lemma_mul_mod_noop_right(pow2(j0 as nat) as int, d, 256);
        vstd::arithmetic::div_mod::lemma_mod_twice(m, 256);
    }
    vstd::arithmetic::power2::lemma2_to64();
    lemma_ksum_zero(m, 7);
}

} // verus!
// The remainder of this file exchanges the two sums of the composed
// transforms and applies the character-sum lemmas.

verus! {

/// The forward exponent of pair block i at source index u.
spec fn fwd_exp(i: int, u: int) -> nat {
    (((2 * spec_bit_rev7(i) + 1) * u) % 256) as nat
}

/// The combined twiddle of source index u, block i and target index t.
spec fn zcomb(i: int, u: int, t: int) -> int {
    (zeta_pow(fwd_exp(i, u)) * zeta_pow(inv_exp(i, t))) % 3329
}

/// The inverse-side sum with the forward sums substituted in, unreduced.
spec fn comp_outer(p: Seq<int>, t: int, par: int, j: nat) -> int
    decreases j,
{
    if j == 0 {
        0
    } else {
        comp_outer(p, t, par, (j - 1) as nat) + ntt_sum(p, j - 1, par, 128) * zeta_pow(
            inv_exp(j - 1, t),
        )
    }
}

/// The contribution of block i, summed over the first j source indices.
spec fn row_sum(p: Seq<int>, t: int, par: int, i: int, j: nat) -> int
    decreases j,
{
    if j == 0 {
        0
    } else {
        row_sum(p, t, par, i, (j - 1) as nat) + p[2 * (j - 1) + par] * zcomb(i, j - 1, t)
    }
}

/// The double sum ordered blocks first.
spec fn dsum_i(p: Seq<int>, t: int, par: int, j: nat) -> int
    decreases j,
{
    if j == 0 {
        0
    } else {
        dsum_i(p, t, par, (j - 1) as nat) + row_sum(p, t, par, j - 1, 128)
    }
}

/// The contribution of source index u, summed over the first m blocks.
spec fn col_sum(p: Seq<int>, t: int, par: int, u: int, m: nat) -> int
    decreases m,
{
    if m == 0 {
        0
    } else {
        col_sum(p, t, par, u, (m - 1) as nat) + p[2 * u + par] * zcomb(m - 1, u, t)
    }
}

/// The double sum ordered source indices first, with m blocks each.
spec fn dsum_u_at(p: Seq<int>, t: int, par: int, n: nat, m: nat) -> int
    decreases n,
{
    if n == 0 {
        0
    } else {
        dsum_u_at(p, t, par, (n - 1) as nat, m) + col_sum(p, t, par, n - 1, m)
    }
}

/// The bare twiddle sum of a source / target pair over the first m blocks.
spec fn wsum(u: int, t: int, m: nat) -> int
    decreases m,
{
    if m == 0 {
        0
    } else {
        wsum(u, t, (m - 1) as nat) + zcomb(m - 1, u, t)
    }
}

/// Substituting the forward sums into the inverse sum preserves the value
/// mod q.
proof fn lemma_comp_outer(p: Seq<int>, t: int, par: int, j: nat)
    requires
        p.len() == 256,
        0 <= par < 2,
        j <= 128,
    ensures
        rev_ntt_sum(spec_ntt(p), t, par, j) % 3329 == comp_outer(p, t, par, j) % 3329,
    decreases j,
{
    if j > 0 {
        lemma_comp_outer(p, t, par, (j - 1) as nat);
        let idx = 2 * (j - 1) + par;
        lemma_fundamental_div_mod_converse_div(idx, 2, j - 1, par);
        lemma_fundamental_div_mod_converse_mod(idx, 2, j - 1, par);
        assert(spec_ntt(p)[idx] == ntt_sum(p, j - 1, par, 128) % 3329);
        let s = ntt_sum(p, j - 1, par, 128);
        let z = zeta_pow(inv_exp(j - 1, t));
        lemma_mul_mod_noop_left(s, z, 3329);
        lemma_add_mod_noop(rev_ntt_sum(spec_ntt(p), t, par, (j - 1) as nat), (s % 3329) * z, 3329);
        lemma_add_mod_noop(comp_outer(p, t, par, (j - 1) as nat), s * z, 3329);
        lemma_mod_bound((s % 3329) * z, 3329);
        lemma_mod_bound(s * z, 3329);
    }
}

/// Distributing the inverse twiddle into one forward sum preserves the
/// value mod q.
proof fn lemma_row(p: Seq<int>, t: int, par: int, i: int, j: nat)
    ensures
        (ntt_sum(p, i, par, j) * zeta_pow(inv_exp(i, t))) % 3329 == row_sum(p, t, par, i, j)
            % 3329,
    decreases j,
{
    let z = zeta_pow(inv_exp(i, t));
    if j == 0 {
    } else {
        lemma_row(p, t, par, i, (j - 1) as nat);
        let s = ntt_sum(p, i, par, (j - 1) as nat);
        let c = p[2 * (j - 1) + par];
        let f = zeta_pow(fwd_exp(i, j - 1));
        assert(ntt_sum(p, i, par, j) == s + c * f);
        assert((s + c * f) * z == s * z + c * (f * z)) by (nonlinear_arith);
        lemma_add_mod_noop(s * z, c * (f * z), 3329);
        lemma_mul_mod_noop_right(c, f * z, 3329);
        assert((c * (f * z)) % 3329 == (c * zcomb(i, j - 1, t)) % 3329);
        lemma_add_mod_noop(row_sum(p, t, par, i, (j - 1) as nat), c * zcomb(i, j - 1, t), 3329);
        lemma_add_mod_noop(s * z, c * (f * z), 3329);
    }
}

/// The two substituted forms agree mod q.
proof fn lemma_dsum_congruent(p: Seq<int>, t: int, par: int, j: nat)
    ensures
        comp_outer(p, t, par, j) % 3329 == dsum_i(p, t, par, j) % 3329,
    decreases j,
{
    if j > 0 {
        lemma_dsum_congruent(p, t, par, (j - 1) as nat);
        lemma_row(p, t, par, j - 1, 128);
        lemma_add_mod_noop(
            comp_outer(p, t, par, (j - 1) as nat),
            ntt_sum(p, j - 1, par, 128) * zeta_pow(inv_exp(j - 1, t)),
            3329,
        );
        lemma_add_mod_noop(dsum_i(p, t, par, (j - 1) as nat), row_sum(p, t, par, j - 1, 128), 3329);
    }
}

/// Adding one block to every column adds one row.
proof fn lemma_col_step(p: Seq<int>, t: int, par: int, n: nat, m: nat)
    requires
        m >= 1,
    ensures
        dsum_u_at(p, t, par, n, m) == dsum_u_at(p, t, par, n, (m - 1) as nat) + row_sum(
            p,
            t,
            par,
            m - 1,
            n,
        ),
    decreases n,
{
    if n > 0 {
        lemma_col_step(p, t, par, (n - 1) as nat, m);
    }
}

/// With no blocks, the column ordering sums to zero.
proof fn lemma_dsum_u_zero(p: Seq<int>, t: int, par: int, n: nat)
    ensures
        dsum_u_at(p, t, par, n, 0) == 0,
    decreases n,
{
    if n > 0 {
        lemma_dsum_u_zero(p, t, par, (n - 1) as nat);
    }
}

/// The two orderings of the double sum are equal.
proof fn lemma_swap(p: Seq<int>, t: int, par: int, m: nat)
    ensures
        dsum_i(p, t, par, m) == dsum_u_at(p, t, par, 128, m),
    decreases m,
{
    if m == 0 {
        lemma_dsum_u_zero(p, t, par, 128);
    } else {
        lemma_swap(p, t, par, (m - 1) as nat);
        lemma_col_step(p, t, par, 128, m);
    }
}

/// A column is its coefficient times the bare twiddle sum.
proof fn lemma_col_factor(p: Seq<int>, t: int, par: int, u: int, m: nat)
    ensures
        col_sum(p, t, par, u, m) == p[2 * u + par] * wsum(u, t, m),
    decreases m,
{
    if m > 0 {
        lemma_col_factor(p, t, par, u, (m - 1) as nat);
        assert(p[2 * u + par] * (wsum(u, t, (m - 1) as nat) + zcomb(m - 1, u, t)) == p[2 * u
            + par] * wsum(u, t, (m - 1) as nat) + p[2 * u + par] * zcomb(m - 1, u, t))
            by (nonlinear_arith);
    }
}

/// On the diagonal every combined twiddle is 1.
proof fn lemma_zcomb_diag(i: int, u: int)
    ensures
        zcomb(i, u, u) == 1,
{
    let e = ((2 * spec_bit_rev7(i) + 1) * u) % 256;
    lemma_mod_bound((2 * spec_bit_rev7(i) + 1) * u, 256);
    lemma_zeta_key_values();
    assert(zeta_pow(0) == 1) by {
        vstd::arithmetic::power::lemma_pow0(17);
        lemma_small_mod(1, 3329);
    }
    if e == 0 {
        lemma_small_mod(0, 256);
        assert(inv_exp(i, u) == ((256 - 0) % 256) as nat);
        assert((256 - 0) % 256 == 0) by {
            vstd::arithmetic::div_mod::lemma_mod_self_0(256);
        }
        assert(zcomb(i, u, u) == (1 * 1) % 3329);
        lemma_small_mod(1, 3329);
    } else {
        lemma_small_mod((256 - e) as nat, 256);
        assert(inv_exp(i, u) == (256 - e) as nat);
        lemma_zeta_add(e as nat, (256 - e) as nat);
        assert((zeta_pow(e as nat) * zeta_pow((256 - e) as nat)) % 3329 == zeta_pow(256));
    }
}

/// On the diagonal the bare twiddle sum counts the blocks.
proof fn lemma_wsum_diag(u: int, m: nat)
    ensures
        wsum(u, u, m) == m,
    decreases m,
{
    if m > 0 {
        lemma_wsum_diag(u, (m - 1) as nat);
        lemma_zcomb_diag(m - 1, u);
    }
}

/// Off the diagonal the combined twiddle is a character term at offset
/// u - t.
proof fn lemma_zcomb_offdiag(i: int, u: int, t: int)
    requires
        0 <= i,
    ensures
        zcomb(i, u, t) == kterm(u - t, 7, i),
{
    lemma_brv_seven(i);
    let b = spec_bit_rev7(i);
    let x = (2 * b + 1) * u;
    let y = (2 * b + 1) * t;
    // inv_exp(i, t) is (-y) mod 256.
    lemma_mod_bound(y, 256);
    assert(inv_exp(i, t) == ((256 - y % 256) % 256) as nat);
    assert((256 - y % 256) % 256 == (0 - y) % 256) by {
        lemma_sub_mod_noop(0, y, 256);
        assert((0int % 256 - y % 256) % 256 == (0 - y) % 256);
        lemma_mod_add_multiples_vanish(0 - y % 256, 256);
        assert((0int % 256) == 0) by {
            lemma_small_mod(0, 256);
        }
    }
    lemma_zeta_exp_add(x, 0 - y);
    assert(zeta_pow((x % 256) as nat) == zeta_pow(fwd_exp(i, u)));
    assert(zeta_pow(((0 - y) % 256) as nat) == zeta_pow(inv_exp(i, t)));
    assert(x + (0 - y) == (2 * b + 1) * (u - t)) by (nonlinear_arith)
        requires x == (2 * b + 1) * u, y == (2 * b + 1) * t;
    assert(zcomb(i, u, t) == zeta_pow((((2 * b + 1) * (u - t)) % 256) as nat));
    assert(kterm(u - t, 7, i) == zeta_pow((((2 * brv(7, i) + 1) * (u - t)) % 256) as nat));
}

/// The bare twiddle sum is the character sum at offset u - t.
proof fn lemma_wsum_is_ksum(u: int, t: int, m: nat)
    ensures
        wsum(u, t, m) == ksum(u - t, 7, m),
    decreases m,
{
    if m > 0 {
        lemma_wsum_is_ksum(u, t, (m - 1) as nat);
        lemma_zcomb_offdiag(m - 1, u, t);
    }
}

/// Off the diagonal the bare twiddle sum over all blocks vanishes mod q.
proof fn lemma_wsum_offdiag(u: int, t: int)
    requires
        0 <= u < 128,
        0 <= t < 128,
        u != t,
    ensures
        wsum(u, t, 128) % 3329 == 0,
{
    lemma_wsum_is_ksum(u, t, 128);
    let m = u - t;
    assert(m % 256 != 0 && m % 256 != 128) by {
        if 0 < m {
            lemma_small_mod(m as nat, 256);
        } else {
            lemma_mod_add_multiples_vanish(m, 256);
            lemma_small_mod((m + 256) as nat, 256);
        }
    }
    lemma_character_sum_zero(m);
}

/// The column ordering evaluates to 128 times the matching coefficient.
proof fn lemma_dsum_u_value(p: Seq<int>, t: int, par: int, n: nat)
    requires
        0 <= t < 128,
        n <= 128,
    ensures
        dsum_u_at(p, t, par, n, 128) % 3329 == (if t < n {
            128 * p[2 * t + par]
        } else {
            0
        }) % 3329,
    decreases n,
{
    if n > 0 {
        lemma_dsum_u_value(p, t, par, (n - 1) as nat);
        lemma_col_factor(p, t, par, n - 1, 128);
        let c = p[2 * (n - 1) + par];
        if n - 1 == t {
            lemma_wsum_diag(t, 128);
            assert(col_sum(p, t, par, n - 1, 128) == c * 128);
            lemma_add_mod_noop(dsum_u_at(p, t, par, (n - 1) as nat, 128), c * 128, 3329);
            lemma_mod_bound(c * 128, 3329);
            assert((0int + c * 128 % 3329) % 3329 == (c * 128) % 3329) by {
                vstd::arithmetic::div_mod::lemma_mod_twice(c * 128, 3329);
            }
            assert(c * 128 == 128 * c) by (nonlinear_arith);
        } else {
            lemma_wsum_offdiag(n - 1, t);
            lemma_mul_mod_noop_right(c, wsum(n - 1, t, 128), 3329);
            assert((c * wsum(n - 1, t, 128)) % 3329 == (c * 0) % 3329);
            lemma_small_mod(0, 3329);
            lemma_add_mod_noop(
                dsum_u_at(p, t, par, (n - 1) as nat, 128),
                col_sum(p, t, par, n - 1, 128),
                3329,
            );
            vstd::arithmetic::div_mod::lemma_mod_twice(
                dsum_u_at(p, t, par, (n - 1) as nat, 128),
                3329,
            );
        }
    }
}

/// The inverse NTT undoes the forward NTT on every polynomial.
pub proof fn lemma_ntt_roundtrip(p: Seq<int>)
    requires
        crate::polynomial::coeffs_wf(p),
    ensures
        spec_rev_ntt(spec_ntt(p)) == p,
{
    assert forall|n: int| 0 <= n < 256 implies
        #[trigger] spec_rev_ntt(spec_ntt(p))[n] == p[n] by {
        let t = n / 2;
        let par = n % 2;
        lemma_mod_bound(n, 2);
        vstd::arithmetic::div_mod::lemma_div_pos_is_pos(n, 2);
        vstd::arithmetic::div_mod::lemma_fundamental_div_mod(n, 2);
        assert(0 <= t < 128);
        let big = rev_ntt_sum(spec_ntt(p), t, par, 128);
        lemma_comp_outer(p, t, par, 128);
        lemma_dsum_congruent(p, t, par, 128);
        lemma_swap(p, t, par, 128);
        lemma_dsum_u_value(p, t, par, 128);
        assert(big % 3329 == (128 * p[n]) % 3329);
        assert(spec_rev_ntt(spec_ntt(p))[n] == (3303 * big) % 3329);
        lemma_mul_mod_noop_right(3303, big, 3329);
        lemma_mul_mod_noop_right(3303, 128 * p[n], 3329);
        assert((3303 * big) % 3329 == (3303 * (128 * p[n])) % 3329);
        assert(3303 * (128 * p[n]) == 422784 * p[n]) by (nonlinear_arith);
        lemma_mul_mod_noop_left(422784, p[n], 3329);
        assert((422784 * p[n]) % 3329 == ((422784int % 3329) * p[n]) % 3329);
        assert(422784int % 3329 == 1);
        assert((1 * p[n]) % 3329 == p[n]) by {
            lemma_small_mod(p[n] as nat, 3329);
        }
    }
    assert(spec_rev_ntt(spec_ntt(p)) =~= p);
}

} // verus!
// The opposite composition: the forward transform undoes the inverse
// transform.  Exchanging the sums here leads to plain geometric sums
// sum of zeta^(2 (br(i) - br(j)) u) over u, which vanish for i != j
// because the reversal is injective and the sum splits into halves with
// a factor (1 + zeta^(2^l m)) at each level.

verus! {

/// One geometric term: zeta^(m u mod 256).
spec fn gterm(m: int, u: int) -> int {
    zeta_pow(((m * u) % 256) as nat)
}

/// The geometric sum over the first j indices from `base` on.
spec fn gsum_from(m: int, base: int, j: nat) -> int
    decreases j,
{
    if j == 0 {
        0
    } else {
        gsum_from(m, base, (j - 1) as nat) + gterm(m, base + j - 1)
    }
}

/// Prepending a run: the sum from 0 over a + b terms splits at a.
proof fn lemma_gsum_split(m: int, a: nat, b: nat)
    ensures
        gsum_from(m, 0, a + b) == gsum_from(m, 0, a) + gsum_from(m, a as int, b),
    decreases b,
{
    if b > 0 {
        lemma_gsum_split(m, a, (b - 1) as nat);
    }
}

/// Shifting the base multiplies the sum by the power at the base.
proof fn lemma_gsum_shift(m: int, base: int, j: nat)
    ensures
        gsum_from(m, base, j) % 3329 == (zeta_pow(((m * base) % 256) as nat) * gsum_from(m, 0, j))
            % 3329,
    decreases j,
{
    let f = zeta_pow(((m * base) % 256) as nat);
    if j == 0 {
    } else {
        lemma_gsum_shift(m, base, (j - 1) as nat);
        assert(m * (base + (j - 1)) == m * base + m * (j - 1)) by (nonlinear_arith);
        lemma_zeta_exp_add(m * base, m * (j - 1));
        assert((f * gterm(m, j - 1)) % 3329 == gterm(m, base + j - 1));
        lemma_zeta_bounds(((m * (base + j - 1)) % 256) as nat);
        lemma_add_mod_noop(gsum_from(m, base, (j - 1) as nat), gterm(m, base + j - 1), 3329);
        lemma_add_mod_noop(
            (f * gsum_from(m, 0, (j - 1) as nat)) % 3329,
            (f * gterm(m, j - 1)) % 3329,
            3329,
        );
        vstd::arithmetic::div_mod::lemma_mod_twice(f * gsum_from(m, 0, (j - 1) as nat), 3329);
        vstd::arithmetic::div_mod::lemma_mod_twice(f * gterm(m, j - 1), 3329);
        lemma_add_mod_noop(f * gsum_from(m, 0, (j - 1) as nat), f * gterm(m, j - 1), 3329);
        assert(f * gsum_from(m, 0, (j - 1) as nat) + f * gterm(m, j - 1) == f * (gsum_from(
            m,
            0,
            (j - 1) as nat,
        ) + gterm(m, j - 1))) by (nonlinear_arith);
    }
}

/// The geometric sum over 2^w terms factors level by level.
proof fn lemma_gsum_halves(m: int, w: nat)
    requires
        w >= 1,
    ensures
        gsum_from(m, 0, pow2(w)) % 3329 == ((1 + zeta_pow(
            ((m * (pow2((w - 1) as nat) as int)) % 256) as nat,
        )) * gsum_from(m, 0, pow2((w - 1) as nat))) % 3329,
{
    let half = pow2((w - 1) as nat);
    let f = zeta_pow(((m * (half as int)) % 256) as nat);
    vstd::arithmetic::power2::lemma_pow2_unfold(w);
    assert(pow2(w) == half + half);
    lemma_gsum_split(m, half, half);
    lemma_gsum_shift(m, half as int, half);
    let s = gsum_from(m, 0, half);
    lemma_add_mod_noop(s, gsum_from(m, half as int, half), 3329);
    lemma_add_mod_noop(s, (f * s) % 3329, 3329);
    vstd::arithmetic::div_mod::lemma_mod_twice(f * s, 3329);
    lemma_add_mod_noop(s, f * s, 3329);
    assert(s + f * s == (1 + f) * s) by (nonlinear_arith);
}

/// If some doubling of m lands on 128 mod 256 below the level, the
/// geometric sum over the level vanishes mod q.
proof fn lemma_gsum_zero(m: int, w: nat)
    requires
        1 <= w <= 7,
        exists|j: int| 0 <= j <= w - 1 && ((#[trigger] pow2(j as nat)) as int * m) % 256 == 128,
    ensures
        gsum_from(m, 0, pow2(w)) % 3329 == 0,
    decreases w,
{
    let half = pow2((w - 1) as nat);
    let f = zeta_pow(((m * (half as int)) % 256) as nat);
    lemma_gsum_halves(m, w);
    if ((half as int) * m) % 256 == 128 {
        lemma_zeta_key_values();
        assert((half as int) * m == m * (half as int)) by (nonlinear_arith);
        assert(f == 3328);
        lemma_mul_mod_noop_left(1 + f, gsum_from(m, 0, half), 3329);
        assert(((1 + f) * gsum_from(m, 0, half)) % 3329 == 0) by {
            assert((1 + f) % 3329 == 0);
            assert((((1 + f) % 3329) * gsum_from(m, 0, half)) % 3329 == 0) by {
                assert((0 * gsum_from(m, 0, half)) == 0) by (nonlinear_arith);
                lemma_small_mod(0, 3329);
            }
        }
    } else {
        let j0 = choose|j: int| 0 <= j <= w - 1 && ((#[trigger] pow2(j as nat)) as int * m) % 256
            == 128;
        assert(j0 <= w - 2);
        assert(w - 1 >= 1);
        lemma_gsum_zero(m, (w - 1) as nat);
        lemma_mul_mod_noop_right(1 + f, gsum_from(m, 0, half), 3329);
        assert(((1 + f) * 0) == 0) by (nonlinear_arith);
        lemma_small_mod(0, 3329);
    }
}

/// Every even m that is not 0 mod 256 has a doubling at level at most 6
/// that lands on 128 mod 256.
proof fn lemma_gsum_witness(m: int)
    requires
        m % 2 == 0,
        m % 256 != 0,
    ensures
        exists|j: int| 0 <= j <= 6 && ((#[trigger] pow2(j as nat)) as int * m) % 256 == 128,
{
    vstd::arithmetic::power2::lemma2_to64();
    let d = m % 256;
    lemma_mod_bound(m, 256);
    assert(d % 2 == 0) by {
        vstd::arithmetic::div_mod::lemma_mod_mod(m, 2, 128);
        assert(2 * 128 == 256);
    }
    if d == 128 {
        let j0: int = 0;
        assert(((pow2(j0 as nat)) as int * m) % 256 == 128) by {
            lemma_mul_mod_noop_right(1, m, 256);
        }
        assert(0 <= j0 <= 6 && ((pow2(j0 as nat)) as int * m) % 256 == 128);
    } else {
        let h = d / 2;
        assert(d == 2 * h);
        assert(0 < h < 128);
        lemma_halving_witness(h);
        let j2 = choose|j: int| 1 <= j <= 7 && ((#[trigger] pow2(j as nat)) as int * h) % 256
            == 128;
        let j0 = j2 - 1;
        assert((pow2(j0 as nat) as int) * d == (pow2(j2 as nat) as int) * h) by {
            vstd::arithmetic::power2::lemma_pow2_unfold(j2 as nat);
            assert((2 * (pow2(j0 as nat) as int)) * h == (pow2(j0 as nat) as int) * (2 * h))
                by (nonlinear_arith);
        }
        assert(((pow2(j0 as nat) as int) * m) % 256 == 128) by {
            lemma_mul_mod_noop_right(pow2(j0 as nat) as int, m, 256);
            lemma_mul_mod_noop_right(pow2(j0 as nat) as int, d, 256);
            vstd::arithmetic::div_mod::lemma_mod_twice(m, 256);
        }
        assert(0 <= j0 <= 6 && ((pow2(j0 as nat)) as int * m) % 256 == 128);
    }
}

/// The width-ell reversal is injective.
proof fn lemma_brv_injective(ell: nat, i: int, j: int)
    requires
        0 <= i < pow2(ell),
        0 <= j < pow2(ell),
        brv(ell, i) == brv(ell, j),
    ensures
        i == j,
    decreases ell,
{
    if ell == 0 {
        vstd::arithmetic::power2::lemma2_to64();
    } else {
        let p = pow2((ell - 1) as nat) as int;
        lemma_brv_bounds((ell - 1) as nat, i / 2);
        lemma_brv_bounds((ell - 1) as nat, j / 2);
        lemma_mod_bound(i, 2);
        lemma_mod_bound(j, 2);
        assert(p * (i % 2) == (if i % 2 == 1 { p } else { 0 })) by (nonlinear_arith);
        assert(p * (j % 2) == (if j % 2 == 1 { p } else { 0 })) by (nonlinear_arith);
        assert(i % 2 == j % 2 && brv((ell - 1) as nat, i / 2) == brv((ell - 1) as nat, j / 2));
        vstd::arithmetic::power2::lemma_pow2_unfold(ell);
        assert(i / 2 < p) by {
            vstd::arithmetic::div_mod::lemma_fundamental_div_mod(i, 2);
        }
        assert(j / 2 < p) by {
            vstd::arithmetic::div_mod::lemma_fundamental_div_mod(j, 2);
        }
        vstd::arithmetic::div_mod::lemma_div_pos_is_pos(i, 2);
        vstd::arithmetic::div_mod::lemma_div_pos_is_pos(j, 2);
        lemma_brv_injective((ell - 1) as nat, i / 2, j / 2);
        vstd::arithmetic::div_mod::lemma_fundamental_div_mod(i, 2);
        vstd::arithmetic::div_mod::lemma_fundamental_div_mod(j, 2);
    }
}

/// The combined twiddle of forward block i against inverse block jj at
/// source index u.
spec fn zcomb2(i: int, jj: int, u: int) -> int {
    (zeta_pow(fwd_exp(i, u)) * zeta_pow(inv_exp(jj, u))) % 3329
}

/// Off the diagonal the combined twiddle is a geometric term.
proof fn lemma_zcomb2_geometric(i: int, jj: int, u: int)
    ensures
        zcomb2(i, jj, u) == gterm(2 * (spec_bit_rev7(i) - spec_bit_rev7(jj)), u),
{
    let bi = spec_bit_rev7(i);
    let bj = spec_bit_rev7(jj);
    let x = (2 * bi + 1) * u;
    let y = (2 * bj + 1) * u;
    lemma_mod_bound(y, 256);
    assert(inv_exp(jj, u) == ((256 - y % 256) % 256) as nat);
    assert((256 - y % 256) % 256 == (0 - y) % 256) by {
        lemma_sub_mod_noop(0, y, 256);
        assert((0int % 256 - y % 256) % 256 == (0 - y) % 256);
        lemma_mod_add_multiples_vanish(0 - y % 256, 256);
        assert((0int % 256) == 0) by {
            lemma_small_mod(0, 256);
        }
    }
    lemma_zeta_exp_add(x, 0 - y);
    assert(x + (0 - y) == (2 * (bi - bj)) * u) by (nonlinear_arith)
        requires x == (2 * bi + 1) * u, y == (2 * bj + 1) * u;
}

/// The twiddle sum of one inverse block against one forward block.
spec fn k2sum(i: int, jj: int, n: nat) -> int
    decreases n,
{
    if n == 0 {
        0
    } else {
        k2sum(i, jj, (n - 1) as nat) + zcomb2(i, jj, n - 1)
    }
}

/// On the diagonal the twiddle sum counts the source indices.
proof fn lemma_k2sum_diag(i: int, n: nat)
    ensures
        k2sum(i, i, n) == n,
    decreases n,
{
    if n > 0 {
        lemma_k2sum_diag(i, (n - 1) as nat);
        assert(zcomb2(i, i, n - 1) == zcomb(i, n - 1, n - 1));
        lemma_zcomb_diag(i, n - 1);
    }
}

/// The twiddle sum equals the geometric sum at offset 2 (br i - br jj).
proof fn lemma_k2sum_is_gsum(i: int, jj: int, n: nat)
    ensures
        k2sum(i, jj, n) == gsum_from(2 * (spec_bit_rev7(i) - spec_bit_rev7(jj)), 0, n),
    decreases n,
{
    if n > 0 {
        lemma_k2sum_is_gsum(i, jj, (n - 1) as nat);
        lemma_zcomb2_geometric(i, jj, n - 1);
    }
}

/// Off the diagonal the twiddle sum over all source indices vanishes.
proof fn lemma_k2sum_offdiag(i: int, jj: int)
    requires
        0 <= i < 128,
        0 <= jj < 128,
        i != jj,
    ensures
        k2sum(i, jj, 128) % 3329 == 0,
{
    lemma_k2sum_is_gsum(i, jj, 128);
    let bi = spec_bit_rev7(i);
    let bj = spec_bit_rev7(jj);
    lemma_brv_seven(i);
    lemma_brv_seven(jj);
    lemma_brv_bounds(7, i);
    lemma_brv_bounds(7, jj);
    vstd::arithmetic::power2::lemma2_to64();
    assert(bi != bj) by {
        if bi == bj {
            lemma_brv_injective(7, i, jj);
        }
    }
    let m = 2 * (bi - bj);
    assert(-256 < m < 256 && m != 0 && m % 2 == 0) by {
        lemma_mod_multiples_vanish(bi - bj, 0, 2);
        lemma_small_mod(0, 2);
    }
    assert(m % 256 != 0) by {
        if m > 0 {
            lemma_small_mod(m as nat, 256);
        } else {
            lemma_mod_add_multiples_vanish(m, 256);
            lemma_small_mod((m + 256) as nat, 256);
        }
    }
    lemma_gsum_witness(m);
    lemma_gsum_zero(m, 7);
}

/// The inverse sums of the transform of Q, with the scale factor pulled
/// out; outer over the source indices of the forward sum.
spec fn comp2_outer(q: Seq<int>, i: int, par: int, j: nat) -> int
    decreases j,
{
    if j == 0 {
        0
    } else {
        comp2_outer(q, i, par, (j - 1) as nat) + rev_ntt_sum(q, j - 1, par, 128) * zeta_pow(
            fwd_exp(i, j - 1),
        )
    }
}

/// The forward sum over the inverse transform equals the scaled double
/// sum, mod q.
proof fn lemma_comp2_outer(q: Seq<int>, i: int, par: int, j: nat)
    requires
        q.len() == 256,
        0 <= par < 2,
        j <= 128,
    ensures
        ntt_sum(spec_rev_ntt(q), i, par, j) % 3329 == (3303 * comp2_outer(q, i, par, j)) % 3329,
    decreases j,
{
    if j > 0 {
        lemma_comp2_outer(q, i, par, (j - 1) as nat);
        let idx = 2 * (j - 1) + par;
        lemma_fundamental_div_mod_converse_div(idx, 2, j - 1, par);
        lemma_fundamental_div_mod_converse_mod(idx, 2, j - 1, par);
        let r = rev_ntt_sum(q, j - 1, par, 128);
        let z = zeta_pow(fwd_exp(i, j - 1));
        assert(spec_rev_ntt(q)[idx] == (3303 * r) % 3329);
        let prev_l = ntt_sum(spec_rev_ntt(q), i, par, (j - 1) as nat);
        let prev_r = comp2_outer(q, i, par, (j - 1) as nat);
        assert(ntt_sum(spec_rev_ntt(q), i, par, j) == prev_l + ((3303 * r) % 3329) * z);
        lemma_mul_mod_noop_left(3303 * r, z, 3329);
        assert((((3303 * r) % 3329) * z) % 3329 == ((3303 * r) * z) % 3329);
        assert((3303 * r) * z == 3303 * (r * z)) by (nonlinear_arith);
        lemma_add_mod_noop(prev_l, ((3303 * r) % 3329) * z, 3329);
        lemma_add_mod_noop((3303 * prev_r) % 3329, (3303 * (r * z)) % 3329, 3329);
        vstd::arithmetic::div_mod::lemma_mod_twice(3303 * prev_r, 3329);
        vstd::arithmetic::div_mod::lemma_mod_twice(3303 * (r * z), 3329);
        lemma_add_mod_noop(3303 * prev_r, 3303 * (r * z), 3329);
        assert(3303 * prev_r + 3303 * (r * z) == 3303 * (prev_r + r * z)) by (nonlinear_arith);
        assert(comp2_outer(q, i, par, j) == prev_r + r * z);
        lemma_mod_bound(prev_l + ((3303 * r) % 3329) * z, 3329);
    }
}

/// Distributing the forward twiddle into one inverse sum preserves the
/// value mod q.
proof fn lemma_row2(q: Seq<int>, i: int, par: int, u: int, n: nat)
    ensures
        (rev_ntt_sum(q, u, par, n) * zeta_pow(fwd_exp(i, u))) % 3329 == row2_sum_at(q, i, par, u, n)
            % 3329,
    decreases n,
{
    let z = zeta_pow(fwd_exp(i, u));
    if n > 0 {
        lemma_row2(q, i, par, u, (n - 1) as nat);
        let s = rev_ntt_sum(q, u, par, (n - 1) as nat);
        let c = q[2 * (n - 1) + par];
        let f = zeta_pow(inv_exp(n - 1, u));
        assert(rev_ntt_sum(q, u, par, n) == s + c * f);
        assert((s + c * f) * z == s * z + c * (z * f)) by (nonlinear_arith);
        lemma_add_mod_noop(s * z, c * (z * f), 3329);
        lemma_mul_mod_noop_right(c, z * f, 3329);
        assert((c * (z * f)) % 3329 == (c * zcomb2(i, n - 1, u)) % 3329);
        lemma_add_mod_noop(row2_sum_at(q, i, par, u, (n - 1) as nat), c * zcomb2(i, n - 1, u), 3329);
    }
}

/// The inner sum over inverse blocks, at one source index, over the first
/// n blocks.
spec fn row2_sum_at(q: Seq<int>, i: int, par: int, u: int, n: nat) -> int
    decreases n,
{
    if n == 0 {
        0
    } else {
        row2_sum_at(q, i, par, u, (n - 1) as nat) + q[2 * (n - 1) + par] * zcomb2(i, n - 1, u)
    }
}

/// The substituted double sum agrees with the outer form mod q.
proof fn lemma_dsum2_congruent(q: Seq<int>, i: int, par: int, j: nat)
    ensures
        comp2_outer(q, i, par, j) % 3329 == dsum2_acc(q, i, par, j) % 3329,
    decreases j,
{
    if j > 0 {
        lemma_dsum2_congruent(q, i, par, (j - 1) as nat);
        lemma_row2(q, i, par, j - 1, 128);
        lemma_add_mod_noop(
            comp2_outer(q, i, par, (j - 1) as nat),
            rev_ntt_sum(q, j - 1, par, 128) * zeta_pow(fwd_exp(i, j - 1)),
            3329,
        );
        lemma_add_mod_noop(
            dsum2_acc(q, i, par, (j - 1) as nat),
            row2_sum_at(q, i, par, j - 1, 128),
            3329,
        );
    }
}

/// The double sum ordered source indices first, fully expanded.
spec fn dsum2_acc(q: Seq<int>, i: int, par: int, n: nat) -> int
    decreases n,
{
    if n == 0 {
        0
    } else {
        dsum2_acc(q, i, par, (n - 1) as nat) + row2_sum_at(q, i, par, n - 1, 128)
    }
}

/// The column of one inverse block over the first n source indices.
spec fn col2_sum(q: Seq<int>, i: int, par: int, jj: int, n: nat) -> int
    decreases n,
{
    if n == 0 {
        0
    } else {
        col2_sum(q, i, par, jj, (n - 1) as nat) + q[2 * jj + par] * zcomb2(i, jj, n - 1)
    }
}

/// The column ordering over the first n source indices with m blocks.
spec fn dsum2_cols(q: Seq<int>, i: int, par: int, n: nat, m: nat) -> int
    decreases m,
{
    if m == 0 {
        0
    } else {
        dsum2_cols(q, i, par, n, (m - 1) as nat) + col2_sum(q, i, par, m - 1, n)
    }
}

/// Adding one source index to every column adds one inner block sum.
proof fn lemma_col2_step(q: Seq<int>, i: int, par: int, n: nat, m: nat)
    requires
        n >= 1,
    ensures
        dsum2_cols(q, i, par, n, m) == dsum2_cols(q, i, par, (n - 1) as nat, m) + row2_sum_at_take(
            q,
            i,
            par,
            n - 1,
            m,
        ),
    decreases m,
{
    if m > 0 {
        lemma_col2_step(q, i, par, n, (m - 1) as nat);
    }
}

/// The inner block sum truncated to the first m blocks.
spec fn row2_sum_at_take(q: Seq<int>, i: int, par: int, u: int, m: nat) -> int
    decreases m,
{
    if m == 0 {
        0
    } else {
        row2_sum_at_take(q, i, par, u, (m - 1) as nat) + q[2 * (m - 1) + par] * zcomb2(i, m - 1, u)
    }
}

/// Over all 128 blocks the truncated and full inner sums agree.
proof fn lemma_row2_take_full(q: Seq<int>, i: int, par: int, u: int, m: nat)
    ensures
        row2_sum_at_take(q, i, par, u, m) == row2_sum_at(q, i, par, u, m),
    decreases m,
{
    if m > 0 {
        lemma_row2_take_full(q, i, par, u, (m - 1) as nat);
    }
}

/// With no source indices every column is zero.
proof fn lemma_dsum2_cols_zero(q: Seq<int>, i: int, par: int, m: nat)
    ensures
        dsum2_cols(q, i, par, 0, m) == 0,
    decreases m,
{
    if m > 0 {
        lemma_dsum2_cols_zero(q, i, par, (m - 1) as nat);
    }
}

/// The two orderings of the double sum are equal.
proof fn lemma_swap2(q: Seq<int>, i: int, par: int, n: nat)
    ensures
        dsum2_acc(q, i, par, n) == dsum2_cols(q, i, par, n, 128),
    decreases n,
{
    if n == 0 {
        lemma_dsum2_cols_zero(q, i, par, 128);
    } else {
        lemma_swap2(q, i, par, (n - 1) as nat);
        lemma_col2_step(q, i, par, n, 128);
        lemma_row2_take_full(q, i, par, n - 1, 128);
    }
}

/// A column is its coefficient times the twiddle sum.
proof fn lemma_col2_factor(q: Seq<int>, i: int, par: int, jj: int, n: nat)
    ensures
        col2_sum(q, i, par, jj, n) == q[2 * jj + par] * k2sum(i, jj, n),
    decreases n,
{
    if n > 0 {
        lemma_col2_factor(q, i, par, jj, (n - 1) as nat);
        assert(q[2 * jj + par] * (k2sum(i, jj, (n - 1) as nat) + zcomb2(i, jj, n - 1)) == q[2 * jj
            + par] * k2sum(i, jj, (n - 1) as nat) + q[2 * jj + par] * zcomb2(i, jj, n - 1))
            by (nonlinear_arith);
    }
}

/// The column ordering evaluates to 128 times the matching coefficient.
proof fn lemma_dsum2_value(q: Seq<int>, i: int, par: int, m: nat)
    requires
        0 <= i < 128,
        m <= 128,
    ensures
        dsum2_cols(q, i, par, 128, m) % 3329 == (if i < m {
            128 * q[2 * i + par]
        } else {
            0
        }) % 3329,
    decreases m,
{
    if m > 0 {
        lemma_dsum2_value(q, i, par, (m - 1) as nat);
        lemma_col2_factor(q, i, par, m - 1, 128);
        let c = q[2 * (m - 1) + par];
        if m - 1 == i {
            lemma_k2sum_diag(i, 128);
            assert(col2_sum(q, i, par, m - 1, 128) == c * 128);
            lemma_add_mod_noop(dsum2_cols(q, i, par, 128, (m - 1) as nat), c * 128, 3329);
            lemma_mod_bound(c * 128, 3329);
            assert((0int + c * 128 % 3329) % 3329 == (c * 128) % 3329) by {
                vstd::arithmetic::div_mod::lemma_mod_twice(c * 128, 3329);
            }
            assert(c * 128 == 128 * c) by (nonlinear_arith);
        } else {
            lemma_k2sum_offdiag(i, m - 1);
            lemma_mul_mod_noop_right(c, k2sum(i, m - 1, 128), 3329);
            assert((c * k2sum(i, m - 1, 128)) % 3329 == (c * 0) % 3329);
            lemma_small_mod(0, 3329);
            lemma_add_mod_noop(
                dsum2_cols(q, i, par, 128, (m - 1) as nat),
                col2_sum(q, i, par, m - 1, 128),
                3329,
            );
            vstd::arithmetic::div_mod::lemma_mod_twice(
                dsum2_cols(q, i, par, 128, (m - 1) as nat),
                3329,
            );
        }
    }
}

/// The forward NTT undoes the inverse NTT on every polynomial.
pub proof fn lemma_rev_ntt_roundtrip(q: Seq<int>)
    requires
        crate::polynomial::coeffs_wf(q),
    ensures
        spec_ntt(spec_rev_ntt(q)) == q,
{
    assert forall|n: int| 0 <= n < 256 implies
        #[trigger] spec_ntt(spec_rev_ntt(q))[n] == q[n] by {
        let i = n / 2;
        let par = n % 2;
        lemma_mod_bound(n, 2);
        vstd::arithmetic::div_mod::lemma_div_pos_is_pos(n, 2);
        vstd::arithmetic::div_mod::lemma_fundamental_div_mod(n, 2);
        assert(0 <= i < 128);
        let big = ntt_sum(spec_rev_ntt(q), i, par, 128);
        lemma_comp2_outer(q, i, par, 128);
        lemma_dsum2_congruent(q, i, par, 128);
        lemma_swap2(q, i, par, 128);
        lemma_dsum2_value(q, i, par, 128);
        assert(dsum2_acc(q, i, par, 128) % 3329 == (128 * q[n]) % 3329);
        assert(spec_ntt(spec_rev_ntt(q))[n] == big % 3329);
        // big = 3303 * comp2_outer mod q, and comp2_outer = 128 q[n] mod q.
        lemma_mul_mod_noop_right(3303, comp2_outer(q, i, par, 128), 3329);
        lemma_mul_mod_noop_right(3303, 128 * q[n], 3329);
        assert(big % 3329 == (3303 * (128 * q[n])) % 3329);
        assert(3303 * (128 * q[n]) == 422784 * q[n]) by (nonlinear_arith);
        lemma_mul_mod_noop_left(422784, q[n], 3329);
        assert((422784 * q[n]) % 3329 == ((422784int % 3329) * q[n]) % 3329);
        assert(422784int % 3329 == 1);
        assert((1 * q[n]) % 3329 == q[n]) by {
            lemma_small_mod(q[n] as nat, 3329);
        }
    }
    assert(spec_ntt(spec_rev_ntt(q)) =~= q);
}

} // verus!
