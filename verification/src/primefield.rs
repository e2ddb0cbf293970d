//! Arithmetic in the prime field F_q with q = 3329.
//!
//! Every stored element is kept in canonical form, that is in the range
//! [0, q).  The operations never branch on the values they combine.

use vstd::prelude::*;
use vstd::arithmetic::power::pow;

verus! {

/// The Kyber modulus.
pub const FIELD_Q: u16 = 3329;

/// An element of F_q, canonically represented in [0, q).
#[derive(Clone, Copy, Debug, PartialEq, Eq, Structural)]
pub struct PrimeField3329 {
    val: u16,
}

impl View for PrimeField3329 {
    type V = int;

    closed spec fn view(&self) -> int {
        self.val as int
    }
}

impl PrimeField3329 {
    /// Canonical form: the representative lies in [0, q).
    pub open spec fn is_canonical(self) -> bool {
        0 <= self@ < FIELD_Q
    }

    /// The additive identity.
    pub fn zero() -> (r: Self)
        ensures
            r@ == 0,
            r.is_canonical(),
    {
        Self { val: 0 }
    }

    /// The multiplicative identity.
    pub fn one() -> (r: Self)
        ensures
            r@ == 1,
            r.is_canonical(),
    {
        Self { val: 1 }
    }

    /// Whether the element is zero.  Not constant time; never applied to
    /// secret values by this crate.
    pub fn is_zero(&self) -> (r: bool)
        ensures
            r == (self@ == 0),
    {
        self.val == 0
    }

    /// Reduce an integer into the canonical range.
    pub fn from_int(x: i64) -> (r: Self)
        requires
            -3329 <= x <= 0x7fff_ffff_ffff_0000,
        ensures
            r@ == x as int % 3329,
            r.is_canonical(),
    {
        let v: i64 = (x + 3329) % 3329;
        proof {
            vstd::arithmetic::div_mod::lemma_mod_add_multiples_vanish(x as int, 3329);
        }
        Self { val: v as u16 }
    }

    /// The canonical representative as an integer.
    pub fn to_int(&self) -> (r: i64)
        ensures
            r as int == self@,
    {
        self.val as i64
    }

    /// Addition mod q.
    pub fn add(&self, other: &Self) -> (r: Self)
        requires
            self.is_canonical(),
            other.is_canonical(),
        ensures
            r@ == (self@ + other@) % 3329,
            r.is_canonical(),
    {
        Self { val: (self.val + other.val) % FIELD_Q }
    }

    /// Subtraction mod q, computed as (a + q - b) mod q so that the
    /// intermediate value never goes negative.
    pub fn sub(&self, other: &Self) -> (r: Self)
        requires
            self.is_canonical(),
            other.is_canonical(),
        ensures
            r@ == (self@ - other@) % 3329,
            r.is_canonical(),
    {
        let v: u16 = (self.val + FIELD_Q - other.val) % FIELD_Q;
        proof {
            vstd::arithmetic::div_mod::lemma_mod_add_multiples_vanish(
                self@ - other@,
                3329,
            );
        }
        Self { val: v }
    }

    /// Negation mod q.
    pub fn neg(&self) -> (r: Self)
        requires
            self.is_canonical(),
        ensures
            r@ == (0 - self@) % 3329,
            r.is_canonical(),
    {
        Self::zero().sub(self)
    }

    /// Multiplication mod q; the product is formed in 32 bits so it cannot
    /// overflow.
    pub fn mul(&self, other: &Self) -> (r: Self)
        requires
            self.is_canonical(),
            other.is_canonical(),
        ensures
            r@ == (self@ * other@) % 3329,
            r.is_canonical(),
    {
        proof {
            vstd::arithmetic::mul::lemma_mul_upper_bound(self@, 3328, other@, 3328);
        }
        let p: u32 = (self.val as u32) * (other.val as u32);
        Self { val: (p % (FIELD_Q as u32)) as u16 }
    }

    /// The multiplicative inverse by Fermat exponentiation, x^(q-2).
    /// Returns `None` for zero.  Only ever applied to public constants.
    pub fn inv(&self) -> (r: Option<Self>)
        requires
            self.is_canonical(),
        ensures
            self@ == 0 <==> r is None,
            r is Some ==> r->Some_0@ == pow(self@, 3327) % 3329 && r->Some_0.is_canonical(),
    {
        if self.is_zero() {
            return None;
        }
        let mut acc = Self::one();
        let mut i: u64 = 0;
        proof {
            vstd::arithmetic::power::lemma_pow0(self@);
        }
        while i < 3327
            invariant
                0 <= i <= 3327,
                self.is_canonical(),
                acc.is_canonical(),
                acc@ == pow(self@, i as nat) % 3329,
            decreases 3327 - i,
        {
            let prev = acc;
            acc = acc.mul(self);
            proof {
                vstd::arithmetic::power::lemma_pow1(self@);
                vstd::arithmetic::power::lemma_pow_adds(self@, i as nat, 1);
                vstd::arithmetic::div_mod::lemma_mul_mod_noop_left(
                    pow(self@, i as nat),
                    self@,
                    3329,
                );
            }
            i = i + 1;
        }
        Some(acc)
    }

    /// Division a / b, that is a * b^(q-2); `None` when b is zero.
    pub fn div(&self, other: &Self) -> (r: Option<Self>)
        requires
            self.is_canonical(),
            other.is_canonical(),
        ensures
            other@ == 0 <==> r is None,
            r is Some ==> r->Some_0@ == (self@ * (pow(other@, 3327) % 3329)) % 3329
                && r->Some_0.is_canonical(),
    {
        match other.inv() {
            None => None,
            Some(oi) => Some(self.mul(&oi)),
        }
    }
}

impl Default for PrimeField3329 {
    /// The default element is zero.
    fn default() -> (r: Self)
        ensures
            r@ == 0,
            r.is_canonical(),
    {
        Self { val: 0 }
    }
}

} // verus!
