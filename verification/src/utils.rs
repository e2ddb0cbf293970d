//! The samplers and keyed-hash helpers used by the PKE and the KEM.
//!
//! `parse` is the uniform rejection sampler over XOF output; `cbd` is the
//! centered binomial sampler.  `prf`, `xof`, `h`, `g` and `kdf` are thin
//! compositions over the SHA-3 primitives; their contracts say exactly
//! which bytes are hashed.

use crate::bytearray::{spec_bit_of_bytes, ByteArray};
use crate::hash;
use crate::polynomial::Polynomial;
use crate::primefield::PrimeField3329;
use vstd::prelude::*;
use vstd::arithmetic::power2::pow2;
use vstd::arithmetic::div_mod::lemma_small_mod;

verus! {

/// The 8-byte big-endian encoding of a counter.
pub open spec fn spec_be_bytes_8(b: int) -> Seq<u8> {
    Seq::new(8, |i: int| ((b / (pow2((8 * (7 - i)) as nat) as int)) % 256) as u8)
}

/// The accepted 12-bit values among the 3-byte groups of `bs`, starting
/// at byte `i`: each group yields up to two candidates below q.
pub open spec fn parse_accepted(bs: Seq<u8>, i: nat) -> Seq<int>
    decreases bs.len() - i,
{
    if i + 3 > bs.len() {
        Seq::empty()
    } else {
        let d1 = bs[i as int] as int + 256 * ((bs[i as int + 1] as int) % 16);
        let d2 = (bs[i as int + 1] as int) / 16 + 16 * (bs[i as int + 2] as int);
        let first: Seq<int> = if d1 < 3329 { seq![d1] } else { Seq::empty() };
        let second: Seq<int> = if d2 < 3329 { seq![d2] } else { Seq::empty() };
        first + second + parse_accepted(bs, i + 3)
    }
}

/// Whether `bs` holds enough accepted values for a full polynomial.
pub open spec fn parse_ok(bs: Seq<u8>) -> bool {
    parse_accepted(bs, 0).len() >= 256
}

/// The polynomial sampled from `bs`: the first 256 accepted values.
pub open spec fn spec_parse(bs: Seq<u8>) -> Seq<int> {
    parse_accepted(bs, 0).take(256)
}

/// The number of set bits among `count` bits starting at `start`.
pub open spec fn cbd_bits(bs: Seq<u8>, start: int, count: nat) -> int
    decreases count,
{
    if count == 0 {
        0
    } else {
        cbd_bits(bs, start, (count - 1) as nat)
            + if spec_bit_of_bytes(bs, start + count - 1) { 1int } else { 0int }
    }
}

/// The centered binomial polynomial drawn from 64 * eta bytes.
pub open spec fn spec_cbd(bs: Seq<u8>, eta: nat) -> Seq<int> {
    Seq::new(256, |i: int|
        (cbd_bits(bs, 2 * i * eta, eta) - cbd_bits(bs, 2 * i * eta + eta, eta)) % 3329)
}

/// Every accepted value is canonical.
proof fn lemma_parse_accepted_canonical(bs: Seq<u8>, i: nat)
    ensures
        forall|t: int| 0 <= t < parse_accepted(bs, i).len()
            ==> 0 <= #[trigger] parse_accepted(bs, i)[t] < 3329,
    decreases bs.len() - i,
{
    if i + 3 > bs.len() {
    } else {
        let d1 = bs[i as int] as int + 256 * ((bs[i as int + 1] as int) % 16);
        let d2 = (bs[i as int + 1] as int) / 16 + 16 * (bs[i as int + 2] as int);
        let first: Seq<int> = if d1 < 3329 { seq![d1] } else { Seq::empty() };
        let second: Seq<int> = if d2 < 3329 { seq![d2] } else { Seq::empty() };
        let rest = parse_accepted(bs, i + 3);
        lemma_parse_accepted_canonical(bs, i + 3);
        assert(parse_accepted(bs, i) == first + second + rest);
        assert forall|t: int| 0 <= t < parse_accepted(bs, i).len()
            implies 0 <= #[trigger] parse_accepted(bs, i)[t] < 3329 by {
            if t >= first.len() + second.len() {
                assert(parse_accepted(bs, i)[t] == rest[t - first.len() - second.len()]);
            }
        }
    }
}

/// The 8-byte big-endian encoding of `b`.
fn be_bytes_8(b: u64) -> (r: ByteArray)
    ensures
        r@ == spec_be_bytes_8(b as int),
        r@.len() == 8,
{
    let mut v: Vec<u8> = Vec::new();
    let mut i: usize = 0;
    while i < 8
        invariant
            0 <= i <= 8,
            v@.len() == i,
            forall|t: int| 0 <= t < i ==> #[trigger] v@[t] == spec_be_bytes_8(b as int)[t],
        decreases 8 - i,
    {
        let shift = (8 * (7 - i)) as u64;
        let byte = ((b >> shift) & 0xff) as u8;
        proof {
            vstd::bits::lemma_u64_shr_is_div(b, shift);
            vstd::bits::lemma_u64_low_bits_mask_is_mod(b >> shift, 8);
            vstd::bits::lemma_low_bits_mask_values();
            vstd::arithmetic::power2::lemma2_to64();
        }
        v.push(byte);
        i = i + 1;
    }
    let r = ByteArray { data: v };
    proof {
        assert(r@ =~= spec_be_bytes_8(b as int));
    }
    r
}

/// The uniform rejection sampler: reads the byte stream three bytes at a
/// time and keeps the 12-bit candidates below q until 256 coefficients
/// are filled.  Returns `None` when the stream runs out first.
pub fn parse(bs: &ByteArray) -> (r: Option<Polynomial>)
    ensures
        match r {
            Some(p) => parse_ok(bs@) && p.wf() && p@ == spec_parse(bs@),
            None => !parse_ok(bs@),
        },
{
    let ghost acc = parse_accepted(bs@, 0);
    let ghost mut pref = Seq::<int>::empty();
    let len = bs.len();
    let mut p = Polynomial::init();
    let mut i: usize = 0;
    let mut j: usize = 0;
    proof {
        assert(pref + parse_accepted(bs@, 0) =~= parse_accepted(bs@, 0));
        lemma_parse_accepted_canonical(bs@, 0);
    }
    while j < 256 && len - i > 2
        invariant
            0 <= j <= 256,
            i <= len,
            len == bs@.len(),
            acc == parse_accepted(bs@, 0),
            acc == pref + parse_accepted(bs@, i as nat),
            j == if pref.len() <= 256 { pref.len() as int } else { 256int },
            p.wf(),
            forall|t: int| 0 <= t < j ==> #[trigger] p@[t] == acc[t],
            forall|t: int| 0 <= t < acc.len() ==> 0 <= #[trigger] acc[t] < 3329,
        decreases len - i,
    {
        let b0 = bs.data[i];
        let b1 = bs.data[i + 1];
        let b2 = bs.data[i + 2];
        let d1: usize = (b0 as usize) + 256 * ((b1 as usize) % 16);
        let d2: usize = ((b1 as usize) / 16) + 16 * (b2 as usize);
        let ghost group_first: Seq<int> = if d1 < 3329 { seq![d1 as int] } else { Seq::empty() };
        let ghost group_second: Seq<int> = if d2 < 3329 { seq![d2 as int] } else { Seq::empty() };
        proof {
            assert(parse_accepted(bs@, i as nat)
                == group_first + group_second + parse_accepted(bs@, i as nat + 3));
        }
        if d1 < 3329 {
            proof {
                assert(acc[pref.len() as int] == d1 as int);
                lemma_small_mod(d1 as nat, 3329);
            }
            p.set_coeff(j, PrimeField3329::from_int(d1 as i64));
            j = j + 1;
            proof {
                pref = pref + group_first;
                assert(acc =~= pref + (group_second + parse_accepted(bs@, i as nat + 3)));
            }
        } else {
            proof {
                pref = pref + group_first;
                assert(acc =~= pref + (group_second + parse_accepted(bs@, i as nat + 3)));
            }
        }
        if d2 < 3329 && j < 256 {
            proof {
                assert(acc[pref.len() as int] == d2 as int);
                lemma_small_mod(d2 as nat, 3329);
            }
            p.set_coeff(j, PrimeField3329::from_int(d2 as i64));
            j = j + 1;
            proof {
                pref = pref + group_second;
                assert(acc =~= pref + parse_accepted(bs@, i as nat + 3));
            }
        } else {
            proof {
                pref = pref + group_second;
                assert(acc =~= pref + parse_accepted(bs@, i as nat + 3));
            }
        }
        i = i + 3;
    }
    if j == 256 {
        proof {
            assert(acc.len() >= 256);
            assert(p@ =~= spec_parse(bs@));
        }
        Some(p)
    } else {
        proof {
            assert(len - i <= 2);
            assert(parse_accepted(bs@, i as nat) =~= Seq::<int>::empty());
            assert(acc =~= pref);
            assert(acc.len() < 256);
        }
        None
    }
}

/// The centered binomial sampler on 64 * eta bytes: coefficient i is the
/// difference of two eta-bit popcounts, mod q.
pub fn cbd(bs: ByteArray, eta: usize) -> (r: Polynomial)
    requires
        eta == 2 || eta == 3,
        bs@.len() >= 64 * eta,
    ensures
        r.wf(),
        r@ == spec_cbd(bs@, eta as nat),
{
    let mut p = Polynomial::init();
    let mut i: usize = 0;
    while i < 256
        invariant
            0 <= i <= 256,
            eta == 2 || eta == 3,
            bs@.len() >= 64 * eta,
            p.wf(),
            forall|t: int| 0 <= t < i ==> #[trigger] p@[t] == spec_cbd(bs@, eta as nat)[t],
        decreases 256 - i,
    {
        let mut a: usize = 0;
        let mut b: usize = 0;
        let mut j: usize = 0;
        while j < eta
            invariant
                0 <= j <= eta,
                i < 256,
                eta == 2 || eta == 3,
                bs@.len() >= 64 * eta,
                a == cbd_bits(bs@, 2 * i as int * eta as int, j as nat),
                b == cbd_bits(bs@, 2 * i as int * eta as int + eta as int, j as nat),
                0 <= a <= j,
                0 <= b <= j,
            decreases eta - j,
        {
            proof {
                assert(2 * i * eta + eta + j < 512 * eta) by (nonlinear_arith)
                    requires i < 256, j < eta, eta >= 1;
                assert(512 * eta <= 8 * bs@.len()) by (nonlinear_arith)
                    requires bs@.len() >= 64 * eta;
            }
            if bs.get_bit(2 * i * eta + j) {
                a = a + 1;
            }
            if bs.get_bit(2 * i * eta + eta + j) {
                b = b + 1;
            }
            j = j + 1;
        }
        let a_hat = PrimeField3329::from_int(a as i64);
        let b_hat = PrimeField3329::from_int(b as i64);
        proof {
            lemma_small_mod(a as nat, 3329);
            lemma_small_mod(b as nat, 3329);
        }
        p.set_coeff(i, a_hat.sub(&b_hat));
        i = i + 1;
    }
    proof {
        assert(p@ =~= spec_cbd(bs@, eta as nat));
    }
    p
}

/// The pseudo-random function: SHAKE-256 over s || be_bytes_8(b).
pub fn prf(s: &ByteArray, b: usize, len: usize) -> (r: ByteArray)
    ensures
        r@ == hash::shake256_of(s@ + spec_be_bytes_8(b as int), len as nat),
        r@.len() == len,
{
    let b_as_bytes = be_bytes_8(b as u64);
    let input = s.append(&b_as_bytes);
    ByteArray { data: hash::shake_256(input.data.as_slice(), len) }
}

/// The extendable-output function: SHAKE-128 over r || be_bytes_8(i) ||
/// be_bytes_8(j).
pub fn xof(r: &ByteArray, i: usize, j: usize, len: usize) -> (out: ByteArray)
    ensures
        out@ == hash::shake128_of(
            r@ + spec_be_bytes_8(i as int) + spec_be_bytes_8(j as int),
            len as nat,
        ),
        out@.len() == len,
{
    let i_as_bytes = be_bytes_8(i as u64);
    let j_as_bytes = be_bytes_8(j as u64);
    let input = r.append(&i_as_bytes).append(&j_as_bytes);
    ByteArray { data: hash::shake_128(input.data.as_slice(), len) }
}

/// The hash H: SHA3-256, split into two 16-byte halves.
pub fn h(r: &ByteArray) -> (out: (ByteArray, ByteArray))
    ensures
        out.0@ == hash::sha3_256_of(r@).take(16),
        out.1@ == hash::sha3_256_of(r@).skip(16),
        out.0@.len() == 16,
        out.1@.len() == 16,
        hash::sha3_256_of(r@).len() == 32,
{
    let digest = ByteArray { data: hash::sha3_256(r.data.as_slice()) };
    digest.split_at(16)
}

/// The hash G: SHA3-512, split into two 32-byte halves.
pub fn g(r: &ByteArray) -> (out: (ByteArray, ByteArray))
    ensures
        out.0@ == hash::sha3_512_of(r@).take(32),
        out.1@ == hash::sha3_512_of(r@).skip(32),
        out.0@.len() == 32,
        out.1@.len() == 32,
        hash::sha3_512_of(r@).len() == 64,
{
    let digest = ByteArray { data: hash::sha3_512(r.data.as_slice()) };
    digest.split_at(32)
}

/// The key-derivation function: SHAKE-256 with `len` output bytes.
pub fn kdf(r: &ByteArray, len: usize) -> (out: ByteArray)
    ensures
        out@ == hash::shake256_of(r@, len as nat),
        out@.len() == len,
{
    ByteArray { data: hash::shake_256(r.data.as_slice(), len) }
}

} // verus!
