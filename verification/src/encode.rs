//! Bit-packed serialization of polynomials and vectors.
//!
//! `encode_poly` writes the low `ell` bits of each of the 256 coefficients
//! contiguously, in little-endian bit order, into exactly 32 * ell bytes;
//! `decode_to_poly` reads them back.  Vector codecs concatenate the
//! per-polynomial encodings.

use crate::bytearray::{spec_bit_of_bytes, ByteArray};
use crate::polynomial::Polynomial;
use crate::polyvec::PolyVec;
use crate::primefield::PrimeField3329;
use vstd::prelude::*;
use vstd::arithmetic::power2::pow2;
use vstd::arithmetic::div_mod::{
    lemma_fundamental_div_mod_converse, lemma_small_mod, lemma_mod_breakdown,
    lemma_div_multiples_vanish, lemma_mod_add_multiples_vanish,
    lemma_multiply_divide_lt,
};
use vstd::arithmetic::mul::lemma_mul_inequality;

verus! {

/// Bit `j` of the non-negative integer `c`.
pub open spec fn coeff_bit(c: int, j: nat) -> bool {
    (c / (pow2(j) as int)) % 2 == 1
}

/// Bit `g` of the bit stream obtained by writing the low `ell` bits of
/// each coefficient of `p` in order.
pub open spec fn poly_bit(p: Seq<int>, ell: nat, g: int) -> bool {
    coeff_bit(p[g / (ell as int)], (g % (ell as int)) as nat)
}

/// The value of the low `s` bits of byte `idx` of the encoding of `p`.
pub open spec fn byte_from_bits(p: Seq<int>, ell: nat, idx: int, s: nat) -> int
    decreases s,
{
    if s == 0 {
        0
    } else {
        byte_from_bits(p, ell, idx, (s - 1) as nat)
            + if poly_bit(p, ell, 8 * idx + s - 1) { pow2((s - 1) as nat) as int } else { 0 }
    }
}

/// The 32 * ell bytes that encode the low `ell` bits of the coefficients
/// of `p`.
pub open spec fn spec_encode_poly(p: Seq<int>, ell: nat) -> Seq<u8> {
    Seq::new(32 * ell, |idx: int| byte_from_bits(p, ell, idx, 8) as u8)
}

/// The value of the low `j` bits of coefficient `i` read back from the
/// byte stream `bs`.
pub open spec fn decoded_partial(bs: Seq<u8>, ell: nat, i: int, j: nat) -> int
    decreases j,
{
    if j == 0 {
        0
    } else {
        decoded_partial(bs, ell, i, (j - 1) as nat)
            + if spec_bit_of_bytes(bs, i * (ell as int) + j - 1) {
                pow2((j - 1) as nat) as int
            } else {
                0
            }
    }
}

/// The 256 coefficients read back from `bs`, each reduced mod q.
pub open spec fn spec_decode_poly(bs: Seq<u8>, ell: nat) -> Seq<int> {
    Seq::new(256, |i: int| decoded_partial(bs, ell, i, ell) % 3329)
}

/// The concatenated encodings of the entries of a vector.
pub open spec fn spec_encode_polyvec(v: Seq<Seq<int>>, ell: nat) -> Seq<u8> {
    v.map_values(|p: Seq<int>| spec_encode_poly(p, ell)).flatten()
}

/// The vector of `k` polynomials read back from `bs`, one from each
/// 32 * ell byte block.
pub open spec fn spec_decode_polyvec(bs: Seq<u8>, ell: nat, k: nat) -> Seq<Seq<int>> {
    Seq::new(k, |i: int| spec_decode_poly(
        bs.subrange(i * 32 * (ell as int), (i + 1) * 32 * (ell as int)),
        ell,
    ))
}

/// The partial byte value stays below 2^s.
proof fn lemma_byte_from_bits_bound(p: Seq<int>, ell: nat, idx: int, s: nat)
    ensures
        0 <= byte_from_bits(p, ell, idx, s) < pow2(s),
    decreases s,
{
    if s == 0 {
        vstd::arithmetic::power2::lemma2_to64();
    } else {
        lemma_byte_from_bits_bound(p, ell, idx, (s - 1) as nat);
        vstd::arithmetic::power2::lemma_pow2_unfold(s);
    }
}

/// The partial decoded value stays below 2^j.
proof fn lemma_decoded_partial_bound(bs: Seq<u8>, ell: nat, i: int, j: nat)
    ensures
        0 <= decoded_partial(bs, ell, i, j) < pow2(j),
    decreases j,
{
    if j == 0 {
        vstd::arithmetic::power2::lemma2_to64();
    } else {
        lemma_decoded_partial_bound(bs, ell, i, (j - 1) as nat);
        vstd::arithmetic::power2::lemma_pow2_unfold(j);
    }
}

/// For widths up to 11 bits a decoded coefficient is below 2^ell, so the
/// final reduction mod q never changes it.
pub proof fn lemma_decode_poly_bounds(bs: Seq<u8>, ell: nat)
    requires
        1 <= ell <= 11,
    ensures
        forall|i: int| 0 <= i < 256 ==>
            0 <= #[trigger] spec_decode_poly(bs, ell)[i] < pow2(ell),
{
    assert forall|i: int| 0 <= i < 256 implies
        0 <= #[trigger] spec_decode_poly(bs, ell)[i] < pow2(ell) by {
        lemma_decoded_partial_bound(bs, ell, i, ell);
        vstd::arithmetic::power2::lemma_pow2_strictly_increases(ell, 12);
        vstd::arithmetic::power2::lemma2_to64();
        lemma_small_mod(decoded_partial(bs, ell, i, ell) as nat, 3329);
    }
}

/// Bit `t` of an encoded byte is the corresponding bit of the bit stream.
proof fn lemma_byte_from_bits_bit(p: Seq<int>, ell: nat, idx: int, s: nat, t: nat)
    requires
        t < s <= 8,
    ensures
        (byte_from_bits(p, ell, idx, s) / (pow2(t) as int)) % 2
            == if poly_bit(p, ell, 8 * idx + t) { 1int } else { 0int },
    decreases s,
{
    let x = byte_from_bits(p, ell, idx, (s - 1) as nat);
    let d = pow2(t) as int;
    vstd::arithmetic::power2::lemma_pow2_pos(t);
    if s == t + 1 {
        lemma_byte_from_bits_bound(p, ell, idx, t);
        if poly_bit(p, ell, 8 * idx + t) {
            assert(byte_from_bits(p, ell, idx, s) == x + d);
            vstd::arithmetic::div_mod::lemma_hoist_over_denominator(x, 1, pow2(t));
            assert(x / d + 1 == (x + 1 * d) / d);
            assert(x / d == 0) by {
                vstd::arithmetic::div_mod::lemma_basic_div(x, d);
            }
            assert((x + d) / d == 1);
            assert((byte_from_bits(p, ell, idx, s) / d) % 2 == 1);
        } else {
            assert(byte_from_bits(p, ell, idx, s) == x);
            vstd::arithmetic::div_mod::lemma_basic_div(x, d);
            assert((byte_from_bits(p, ell, idx, s) / d) % 2 == 0);
        }
    } else {
        lemma_byte_from_bits_bit(p, ell, idx, (s - 1) as nat, t);
        let e = (s - 1 - t) as nat;
        vstd::arithmetic::power2::lemma_pow2_adds(t, e);
        vstd::arithmetic::power2::lemma_pow2_unfold(e);
        let half = pow2((e - 1) as nat) as int;
        assert(pow2((s - 1) as nat) as int == d * (2 * half));
        if poly_bit(p, ell, 8 * idx + s - 1) {
            assert(byte_from_bits(p, ell, idx, s) == x + d * (2 * half)) by (nonlinear_arith)
                requires
                    byte_from_bits(p, ell, idx, s) == x + pow2((s - 1) as nat) as int,
                    pow2((s - 1) as nat) as int == d * (2 * half);
            vstd::arithmetic::div_mod::lemma_hoist_over_denominator(x, 2 * half, pow2(t));
            assert((x + (2 * half) * d) / d == x / d + 2 * half) by (nonlinear_arith)
                requires
                    x / (pow2(t) as int) + 2 * half == (x + (2 * half) * (pow2(t) as int)) / (pow2(t) as int),
                    d == pow2(t) as int;
            assert(x + d * (2 * half) == x + (2 * half) * d) by (nonlinear_arith);
            assert(byte_from_bits(p, ell, idx, s) / d == x / d + 2 * half);
            vstd::arithmetic::div_mod::lemma_mod_multiples_vanish(half, x / d, 2);
            assert((byte_from_bits(p, ell, idx, s) / d) % 2 == (x / d) % 2);
        } else {
            assert(byte_from_bits(p, ell, idx, s) == x);
        }
    }
}

/// Bit `g` of the encoding of `p` is bit `g % ell` of coefficient
/// `g / ell`.
proof fn lemma_encode_poly_bit(p: Seq<int>, ell: nat, g: int)
    requires
        1 <= ell,
        0 <= g < 256 * ell,
    ensures
        spec_bit_of_bytes(spec_encode_poly(p, ell), g) == poly_bit(p, ell, g),
{
    let idx = g / 8;
    let t = (g % 8) as nat;
    assert(g < 8 * (32 * ell)) by (nonlinear_arith)
        requires g < 256 * ell;
    lemma_multiply_divide_lt(g, 8, 32 * (ell as int));
    vstd::arithmetic::div_mod::lemma_fundamental_div_mod(g, 8);
    lemma_byte_from_bits_bound(p, ell, idx, 8);
    vstd::arithmetic::power2::lemma2_to64();
    assert(spec_encode_poly(p, ell)[g / 8] as int == byte_from_bits(p, ell, idx, 8));
    lemma_byte_from_bits_bit(p, ell, idx, 8, t);
    assert(8 * idx + t == g);
}

/// Reading back `j` bits of coefficient `i` from the encoding gives the
/// coefficient reduced mod 2^j.
proof fn lemma_decoded_partial_of_encoding(p: Seq<int>, ell: nat, i: int, j: nat)
    requires
        1 <= ell <= 12,
        0 <= i < 256,
        j <= ell,
        p.len() == 256,
        0 <= p[i],
    ensures
        decoded_partial(spec_encode_poly(p, ell), ell, i, j)
            == p[i] % (pow2(j) as int),
    decreases j,
{
    let enc = spec_encode_poly(p, ell);
    let c = p[i];
    if j == 0 {
        vstd::arithmetic::power2::lemma2_to64();
        assert(c % 1int == 0) by (nonlinear_arith);
    } else {
        lemma_decoded_partial_of_encoding(p, ell, i, (j - 1) as nat);
        let g = i * (ell as int) + j - 1;
        assert(0 <= g < 256 * ell) by (nonlinear_arith)
            requires g == i * (ell as int) + j - 1, 0 <= i < 256, 1 <= j <= ell;
        lemma_encode_poly_bit(p, ell, g);
        vstd::arithmetic::div_mod::lemma_fundamental_div_mod_converse_div(
            g, ell as int, i, j - 1,
        );
        vstd::arithmetic::div_mod::lemma_fundamental_div_mod_converse_mod(
            g, ell as int, i, j - 1,
        );
        assert(poly_bit(p, ell, g) == coeff_bit(c, (j - 1) as nat));
        vstd::arithmetic::power2::lemma_pow2_pos((j - 1) as nat);
        vstd::arithmetic::power2::lemma_pow2_unfold(j);
        let y = pow2((j - 1) as nat) as int;
        lemma_mod_breakdown(c, y, 2);
        assert(c % (y * 2) == y * ((c / y) % 2) + c % y);
        assert(y * 2 == pow2(j) as int) by (nonlinear_arith)
            requires pow2(j) == 2 * pow2((j - 1) as nat), y == pow2((j - 1) as nat) as int;
        vstd::arithmetic::div_mod::lemma_div_pos_is_pos(c, y);
        vstd::arithmetic::div_mod::lemma_mod_bound(c / y, 2);
        if coeff_bit(c, (j - 1) as nat) {
            assert((c / y) % 2 == 1);
            assert(y * ((c / y) % 2) == y) by (nonlinear_arith)
                requires (c / y) % 2 == 1;
        } else {
            assert((c / y) % 2 == 0);
            assert(y * ((c / y) % 2) == 0) by (nonlinear_arith)
                requires (c / y) % 2 == 0;
        }
        assert(decoded_partial(spec_encode_poly(p, ell), ell, i, j)
            == c % (pow2(j) as int));
    }
}

/// Decoding an encoded polynomial gives the polynomial back, provided
/// every coefficient fits in `ell` bits.
pub proof fn lemma_decode_encode_poly(p: Seq<int>, ell: nat)
    requires
        crate::polynomial::coeffs_wf(p),
        1 <= ell <= 12,
        forall|i: int| 0 <= i < 256 ==> #[trigger] p[i] < pow2(ell),
    ensures
        spec_decode_poly(spec_encode_poly(p, ell), ell) == p,
{
    let enc = spec_encode_poly(p, ell);
    assert forall|i: int| 0 <= i < 256 implies
        #[trigger] spec_decode_poly(enc, ell)[i] == p[i] by {
        lemma_decoded_partial_of_encoding(p, ell, i, ell);
        lemma_small_mod(p[i] as nat, pow2(ell));
        lemma_small_mod(p[i] as nat, 3329);
    }
    assert(spec_decode_poly(enc, ell) =~= p);
}

/// The flattening of uniformly sized blocks has their total length.
proof fn lemma_flatten_uniform_len(s: Seq<Seq<u8>>, blocklen: int)
    requires
        forall|t: int| 0 <= t < s.len() ==> (#[trigger] s[t]).len() == blocklen,
        blocklen >= 0,
    ensures
        s.flatten().len() == s.len() * blocklen,
    decreases s.len(),
{
    if s.len() == 0 {
    } else {
        lemma_flatten_uniform_len(s.drop_first(), blocklen);
        assert(blocklen + (s.len() - 1) * blocklen == s.len() * blocklen) by (nonlinear_arith);
    }
}

/// Block `i` of the flattening of uniformly sized blocks.
proof fn lemma_flatten_uniform_subrange(s: Seq<Seq<u8>>, blocklen: int, i: int)
    requires
        forall|t: int| 0 <= t < s.len() ==> (#[trigger] s[t]).len() == blocklen,
        blocklen >= 0,
        0 <= i < s.len(),
    ensures
        s.flatten().subrange(i * blocklen, (i + 1) * blocklen) == s[i],
    decreases s.len(),
{
    lemma_flatten_uniform_len(s, blocklen);
    assert(0 <= i * blocklen && (i + 1) * blocklen <= s.len() * blocklen) by (nonlinear_arith)
        requires 0 <= i < s.len(), blocklen >= 0;
    if i == 0 {
        assert(s.flatten() == s.first() + s.drop_first().flatten());
        assert(i * blocklen == 0) by (nonlinear_arith)
            requires i == 0;
        assert((i + 1) * blocklen == blocklen) by (nonlinear_arith)
            requires i == 0;
        assert(s.flatten().subrange(0, blocklen) =~= s[0]);
    } else {
        lemma_flatten_uniform_subrange(s.drop_first(), blocklen, i - 1);
        lemma_flatten_uniform_len(s.drop_first(), blocklen);
        assert(s.flatten() == s.first() + s.drop_first().flatten());
        assert(s.first() == s[0]);
        assert(s.first().len() == blocklen);
        assert((i - 1) * blocklen == i * blocklen - blocklen) by (nonlinear_arith);
        assert(i * blocklen >= blocklen) by (nonlinear_arith)
            requires i >= 1, blocklen >= 0;
        assert((i + 1) * blocklen == i * blocklen + blocklen) by (nonlinear_arith);
        assert(i * blocklen <= s.drop_first().len() * blocklen)
            by (nonlinear_arith)
            requires 0 <= i - 1 < s.drop_first().len(), blocklen >= 0;
        assert(s.flatten().subrange(i * blocklen, (i + 1) * blocklen)
            =~= s.drop_first().flatten().subrange(
                (i - 1) * blocklen,
                i * blocklen,
            ));
        assert(s.drop_first()[i - 1] == s[i]);
    }
}

/// Decoding an encoded vector gives the vector back, provided every
/// coefficient fits in `ell` bits.
pub proof fn lemma_decode_encode_polyvec(v: Seq<Seq<int>>, ell: nat)
    requires
        crate::polyvec::polyvec_wf(v),
        1 <= ell <= 12,
        forall|i: int, j: int| 0 <= i < v.len() && 0 <= j < 256 ==> #[trigger] v[i][j] < pow2(ell),
    ensures
        spec_decode_polyvec(spec_encode_polyvec(v, ell), ell, v.len()) == v,
{
    let encodings = v.map_values(|p: Seq<int>| spec_encode_poly(p, ell));
    let enc = spec_encode_polyvec(v, ell);
    let blocklen = 32 * (ell as int);
    assert forall|i: int| 0 <= i < v.len() implies
        #[trigger] spec_decode_polyvec(enc, ell, v.len())[i] == v[i] by {
        lemma_flatten_uniform_subrange(encodings, blocklen, i);
        assert(i * 32 * (ell as int) == i * blocklen) by (nonlinear_arith)
            requires blocklen == 32 * (ell as int);
        assert((i + 1) * 32 * (ell as int) == (i + 1) * blocklen) by (nonlinear_arith)
            requires blocklen == 32 * (ell as int);
        assert(enc.subrange(i * 32 * (ell as int), (i + 1) * 32 * (ell as int))
            == spec_encode_poly(v[i], ell));
        lemma_decode_encode_poly(v[i], ell);
    }
    assert(spec_decode_polyvec(enc, ell, v.len()) =~= v);
}

/// Serialize the low `ell` bits of each coefficient into 32 * ell bytes.
pub fn encode_poly(p: Polynomial, ell: usize) -> (r: ByteArray)
    requires
        p.wf(),
        1 <= ell <= 12,
    ensures
        r@ == spec_encode_poly(p@, ell as nat),
        r@.len() == 32 * ell,
{
    let mut buf: Vec<u8> = Vec::new();
    let n = 32 * ell;
    let mut idx: usize = 0;
    while idx < n
        invariant
            0 <= idx <= n,
            n == 32 * ell,
            1 <= ell <= 12,
            p.wf(),
            buf@.len() == idx,
            forall|t: int| 0 <= t < idx ==>
                #[trigger] buf@[t] == byte_from_bits(p@, ell as nat, t, 8) as u8,
        decreases n - idx,
    {
        let mut byte: u16 = 0;
        let mut pw: u16 = 1;
        let mut s: usize = 0;
        proof {
            vstd::arithmetic::power2::lemma2_to64();
        }
        while s < 8
            invariant
                0 <= s <= 8,
                idx < n,
                n == 32 * ell,
                1 <= ell <= 12,
                p.wf(),
                pw == pow2(s as nat),
                byte == byte_from_bits(p@, ell as nat, idx as int, s as nat),
                0 <= byte < pw,
            decreases 8 - s,
        {
            let g = 8 * idx + s;
            let i = g / ell;
            let j = g % ell;
            proof {
                assert(g < 256 * ell) by (nonlinear_arith)
                    requires g == 8 * idx + s, idx < 32 * ell, s < 8, ell >= 1;
                lemma_multiply_divide_lt(g as int, ell as int, 256);
            }
            let c = p.get(i).to_int();
            let bit = ((c as u64) >> (j as u64)) & 1 == 1;
            proof {
                vstd::bits::lemma_u64_shr_is_div(c as u64, j as u64);
                vstd::bits::lemma_u64_low_bits_mask_is_mod((c as u64) >> (j as u64), 1);
                vstd::bits::lemma_low_bits_mask_values();
                vstd::arithmetic::power2::lemma2_to64();
                assert(bit == coeff_bit(p@[i as int], j as nat));
                assert(poly_bit(p@, ell as nat, g as int) == bit);
                vstd::arithmetic::power2::lemma_pow2_unfold((s + 1) as nat);
            }
            if bit {
                byte = byte + pw;
            }
            pw = pw * 2;
            s = s + 1;
        }
        proof {
            lemma_byte_from_bits_bound(p@, ell as nat, idx as int, 8);
            vstd::arithmetic::power2::lemma2_to64();
        }
        buf.push(byte as u8);
        idx = idx + 1;
    }
    let r = ByteArray { data: buf };
    proof {
        assert(r@ =~= spec_encode_poly(p@, ell as nat));
    }
    r
}

/// Read 256 coefficients of `ell` bits each back from 32 * ell bytes.
pub fn decode_to_poly(bs: ByteArray, ell: usize) -> (r: Polynomial)
    requires
        1 <= ell <= 12,
        bs@.len() == 32 * ell,
    ensures
        r.wf(),
        r@ == spec_decode_poly(bs@, ell as nat),
{
    let mut coeffs: Vec<PrimeField3329> = Vec::new();
    let mut i: usize = 0;
    while i < 256
        invariant
            0 <= i <= 256,
            1 <= ell <= 12,
            bs@.len() == 32 * ell,
            coeffs@.len() == i,
            forall|t: int| 0 <= t < i ==> (#[trigger] coeffs@[t]).is_canonical(),
            forall|t: int| 0 <= t < i ==>
                (#[trigger] coeffs@[t])@ == decoded_partial(bs@, ell as nat, t, ell as nat) % 3329,
        decreases 256 - i,
    {
        let mut v: u16 = 0;
        let mut pw: u16 = 1;
        let mut j: usize = 0;
        proof {
            vstd::arithmetic::power2::lemma2_to64();
        }
        while j < ell
            invariant
                0 <= j <= ell <= 12,
                i < 256,
                bs@.len() == 32 * ell,
                pw == pow2(j as nat),
                v == decoded_partial(bs@, ell as nat, i as int, j as nat),
                0 <= v < pw,
            decreases ell - j,
        {
            proof {
                assert(i * ell + j < 256 * ell) by (nonlinear_arith)
                    requires i < 256, j < ell;
                vstd::arithmetic::power2::lemma_pow2_unfold((j + 1) as nat);
                vstd::arithmetic::power2::lemma_pow2_strictly_increases(j as nat, 13);
                vstd::arithmetic::power2::lemma2_to64();
            }
            if bs.get_bit(i * ell + j) {
                v = v + pw;
            }
            pw = pw * 2;
            j = j + 1;
        }
        coeffs.push(PrimeField3329::from_int(v as i64));
        i = i + 1;
    }
    let r = Polynomial::from_vec(coeffs);
    proof {
        assert(r@ =~= spec_decode_poly(bs@, ell as nat));
    }
    r
}

/// Serialize a vector by concatenating the encodings of its entries.
pub fn encode_polyvec(p_vec: PolyVec, s: usize) -> (r: ByteArray)
    requires
        p_vec.wf(),
        1 <= s <= 12,
    ensures
        r@ == spec_encode_polyvec(p_vec@, s as nat),
        r@.len() == p_vec@.len() * 32 * s,
{
    let ghost encodings = p_vec@.map_values(|p: Seq<int>| spec_encode_poly(p, s as nat));
    let k = p_vec.dimension();
    let mut b = ByteArray::new();
    let mut i: usize = 0;
    proof {
        assert(encodings.take(0) =~= Seq::<Seq<u8>>::empty());
        assert(b@ =~= encodings.take(0).flatten());
    }
    while i < k
        invariant
            0 <= i <= k,
            k == p_vec@.len(),
            1 <= s <= 12,
            p_vec.wf(),
            encodings == p_vec@.map_values(|p: Seq<int>| spec_encode_poly(p, s as nat)),
            b@ == encodings.take(i as int).flatten(),
            b@.len() == i * 32 * s,
        decreases k - i,
    {
        let p = p_vec.get(i);
        let e = encode_poly(p, s);
        b = b.append(&e);
        proof {
            assert(encodings.take(i + 1)
                =~= encodings.take(i as int).push(encodings[i as int]));
            encodings.take(i as int).lemma_flatten_push(encodings[i as int]);
            assert((i + 1) * 32 * s == i * 32 * s + 32 * s) by (nonlinear_arith);
        }
        i = i + 1;
    }
    proof {
        assert(encodings.take(k as int) =~= encodings);
    }
    b
}

/// Read a vector back from a whole number of 32 * ell byte blocks.
pub fn decode_to_polyvec(bs: ByteArray, ell: usize) -> (r: PolyVec)
    requires
        1 <= ell <= 12,
        (bs@.len() as int) % (32 * (ell as int)) == 0,
        bs@.len() <= 65536,
    ensures
        r.wf(),
        r@ == spec_decode_polyvec(bs@, ell as nat, ((bs@.len() as int) / (32 * (ell as int))) as nat),
{
    let step = 32 * ell;
    let k = bs.len() / step;
    let ghost whole = bs@;
    proof {
        vstd::arithmetic::div_mod::lemma_fundamental_div_mod(bs@.len() as int, step as int);
    }
    let mut b = bs;
    let mut p_vec = PolyVec::init(k);
    let mut i: usize = 0;
    while i < k
        invariant
            0 <= i <= k,
            1 <= ell <= 12,
            step == 32 * ell,
            whole.len() == k * step,
            b@ == whole.skip(i as int * step),
            p_vec.wf(),
            p_vec@.len() == k,
            forall|t: int| 0 <= t < i ==> #[trigger] p_vec@[t] == spec_decode_poly(
                whole.subrange(t * 32 * (ell as int), (t + 1) * 32 * (ell as int)),
                ell as nat,
            ),
        decreases k - i,
    {
        proof {
            assert((i + 1) * step <= k * step) by (nonlinear_arith)
                requires i < k, step >= 32;
            assert(i * step + step == (i + 1) * step) by (nonlinear_arith);
            assert(i as int * 32 * (ell as int) == i as int * step) by (nonlinear_arith)
                requires step == 32 * ell;
            assert((i as int + 1) * 32 * (ell as int) == (i as int + 1) * step)
                by (nonlinear_arith)
                requires step == 32 * ell;
        }
        let (a, c) = b.split_at(step);
        let p = decode_to_poly(a, ell);
        proof {
            assert(b@.take(step as int) =~= whole.subrange(
                i as int * step,
                i as int * step + step,
            ));
            assert(b@.skip(step as int) =~= whole.skip((i + 1) as int * step));
        }
        p_vec.set(i, p);
        b = c;
        i = i + 1;
    }
    proof {
        assert(p_vec@ =~= spec_decode_polyvec(whole, ell as nat, k as nat));
    }
    p_vec
}

} // verus!
