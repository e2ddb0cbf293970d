//! The polynomial ring R_q = Z_q[X]/(X^256 + 1).
//!
//! A value holds exactly 256 canonical field coefficients.  The same type
//! carries polynomials in the normal domain and in the NTT domain; the
//! operation that produced a value says which domain it is in.

use crate::primefield::PrimeField3329;
use vstd::prelude::*;

verus! {

/// The number of coefficients of every polynomial.
pub const POLY_N: usize = 256;

/// A well-formed coefficient sequence: 256 entries, each in [0, q).
pub open spec fn coeffs_wf(s: Seq<int>) -> bool {
    &&& s.len() == 256
    &&& forall|i: int| 0 <= i < 256 ==> 0 <= #[trigger] s[i] < 3329
}

/// The coefficient-wise sum mod q of two coefficient sequences.
pub open spec fn poly_mod_add(a: Seq<int>, b: Seq<int>) -> Seq<int> {
    Seq::new(256, |i: int| (a[i] + b[i]) % 3329)
}

/// The coefficient-wise difference mod q of two coefficient sequences.
pub open spec fn poly_mod_sub(a: Seq<int>, b: Seq<int>) -> Seq<int> {
    Seq::new(256, |i: int| (a[i] - b[i]) % 3329)
}

/// Every coefficient multiplied by a scalar, mod q.
pub open spec fn poly_mod_scale(a: Seq<int>, c: int) -> Seq<int> {
    Seq::new(256, |i: int| (a[i] * c) % 3329)
}

/// An element of R_q (or of its NTT-domain image), 256 coefficients
/// indexed 0..255.
#[derive(Debug, Eq)]
pub struct Polynomial {
    coefficients: Vec<PrimeField3329>,
}

impl View for Polynomial {
    type V = Seq<int>;

    closed spec fn view(&self) -> Seq<int> {
        self.coefficients@.map_values(|c: PrimeField3329| c@)
    }
}

impl Clone for Polynomial {
    /// An exact copy, coefficient for coefficient.
    fn clone(&self) -> (r: Self)
        ensures
            r@ == self@,
    {
        let mut v: Vec<PrimeField3329> = Vec::new();
        let mut i: usize = 0;
        while i < self.coefficients.len()
            invariant
                0 <= i <= self.coefficients@.len(),
                v@ =~= self.coefficients@.take(i as int),
            decreases self.coefficients@.len() - i,
        {
            v.push(self.coefficients[i]);
            proof {
                assert(v@ =~= self.coefficients@.take(i + 1));
            }
            i = i + 1;
        }
        proof {
            assert(self.coefficients@.take(self.coefficients@.len() as int)
                =~= self.coefficients@);
        }
        let r = Self { coefficients: v };
        proof {
            assert(r@ =~= self@);
        }
        r
    }
}

impl PartialEq for Polynomial {
    /// Coefficient-wise equality.
    fn eq(&self, other: &Self) -> (r: bool) {
        if self.coefficients.len() != other.coefficients.len() {
            proof {
                assert(self@.len() != other@.len());
            }
            return false;
        }
        let n = self.coefficients.len();
        let mut i: usize = 0;
        while i < n
            invariant
                n == self.coefficients@.len(),
                n == other.coefficients@.len(),
                0 <= i <= n,
                forall|j: int| 0 <= j < i ==> #[trigger] self@[j] == other@[j],
            decreases n - i,
        {
            if self.coefficients[i].to_int() != other.coefficients[i].to_int() {
                proof {
                    assert(self@[i as int] != other@[i as int]);
                }
                return false;
            }
            i = i + 1;
        }
        proof {
            assert(self@ =~= other@);
        }
        true
    }
}

impl vstd::std_specs::cmp::PartialEqSpecImpl for Polynomial {
    open spec fn obeys_eq_spec() -> bool {
        true
    }

    open spec fn eq_spec(&self, other: &Self) -> bool {
        self@ == other@
    }
}

impl Polynomial {
    /// Well-formedness: exactly 256 coefficients, all canonical.
    pub open spec fn wf(self) -> bool {
        coeffs_wf(self@)
    }

    /// The zero polynomial.
    pub fn zero() -> (r: Self)
        ensures
            r.wf(),
            forall|i: int| 0 <= i < 256 ==> #[trigger] r@[i] == 0,
    {
        let mut v: Vec<PrimeField3329> = Vec::new();
        let mut i: usize = 0;
        while i < POLY_N
            invariant
                0 <= i <= 256,
                v@.len() == i,
                forall|j: int| 0 <= j < i ==> #[trigger] v@[j]@ == 0,
            decreases 256 - i,
        {
            v.push(PrimeField3329::zero());
            i = i + 1;
        }
        Self { coefficients: v }
    }

    /// A fresh polynomial with every coefficient zero.
    pub fn init() -> (r: Self)
        ensures
            r.wf(),
            forall|i: int| 0 <= i < 256 ==> #[trigger] r@[i] == 0,
    {
        Self::zero()
    }

    /// The constant polynomial 1.
    pub fn one() -> (r: Self)
        ensures
            r.wf(),
            r@[0] == 1,
            forall|i: int| 1 <= i < 256 ==> #[trigger] r@[i] == 0,
    {
        let mut p = Self::zero();
        p.set_coeff(0, PrimeField3329::one());
        p
    }

    /// The number of coefficients.
    pub fn dimension() -> (r: usize)
        ensures
            r == 256,
    {
        POLY_N
    }

    /// A polynomial from the given 256 canonical coefficients.
    pub fn from_vec(coefficients: Vec<PrimeField3329>) -> (r: Self)
        requires
            coefficients@.len() == 256,
            forall|i: int| 0 <= i < 256 ==> (#[trigger] coefficients@[i]).is_canonical(),
        ensures
            r.wf(),
            r@ == coefficients@.map_values(|c: PrimeField3329| c@),
    {
        Self { coefficients }
    }

    /// The coefficient at `index`.
    pub fn get(&self, index: usize) -> (r: PrimeField3329)
        requires
            self.wf(),
            index < 256,
        ensures
            r@ == self@[index as int],
            r.is_canonical(),
    {
        self.coefficients[index]
    }

    /// Replace the coefficient at `index`.
    pub fn set_coeff(&mut self, index: usize, val: PrimeField3329)
        requires
            old(self).wf(),
            index < 256,
            val.is_canonical(),
        ensures
            final(self).wf(),
            final(self)@ == old(self)@.update(index as int, val@),
    {
        self.coefficients.set(index, val);
        proof {
            assert(final(self)@ =~= old(self)@.update(index as int, val@));
        }
    }

    /// The degree: the highest index with a non-zero coefficient, or
    /// `None` for the zero polynomial.
    pub fn degree(&self) -> (r: Option<usize>)
        requires
            self.wf(),
        ensures
            match r {
                None => forall|i: int| 0 <= i < 256 ==> #[trigger] self@[i] == 0,
                Some(d) => d < 256 && self@[d as int] != 0
                    && forall|i: int| d < i < 256 ==> #[trigger] self@[i] == 0,
            },
    {
        let mut i: usize = POLY_N;
        while i > 0
            invariant
                0 <= i <= 256,
                self.wf(),
                forall|j: int| i <= j < 256 ==> #[trigger] self@[j] == 0,
            decreases i,
        {
            i = i - 1;
            if !self.coefficients[i].is_zero() {
                return Some(i);
            }
        }
        None
    }

    /// Whether every coefficient is zero.  Not constant time; never
    /// applied to secret values by this crate.
    pub fn is_zero(&self) -> (r: bool)
        requires
            self.wf(),
        ensures
            r == forall|i: int| 0 <= i < 256 ==> #[trigger] self@[i] == 0,
    {
        match self.degree() {
            None => true,
            Some(_) => false,
        }
    }

    /// Coefficient-wise sum mod q.
    pub fn add(&self, other: &Self) -> (r: Self)
        requires
            self.wf(),
            other.wf(),
        ensures
            r.wf(),
            r@ == poly_mod_add(self@, other@),
            forall|i: int| 0 <= i < 256 ==>
                #[trigger] r@[i] == (self@[i] + other@[i]) % 3329,
    {
        let mut v: Vec<PrimeField3329> = Vec::new();
        let mut i: usize = 0;
        while i < POLY_N
            invariant
                0 <= i <= 256,
                self.wf(),
                other.wf(),
                v@.len() == i,
                forall|j: int| 0 <= j < i ==> (#[trigger] v@[j])@ == (self@[j] + other@[j]) % 3329,
                forall|j: int| 0 <= j < i ==> (#[trigger] v@[j]).is_canonical(),
            decreases 256 - i,
        {
            proof {
                assert(self.coefficients@[i as int]@ == self@[i as int]);
                assert(other.coefficients@[i as int]@ == other@[i as int]);
            }
            v.push(self.coefficients[i].add(&other.coefficients[i]));
            i = i + 1;
        }
        let r = Self { coefficients: v };
        proof {
            assert(r@ =~= poly_mod_add(self@, other@));
        }
        r
    }

    /// Coefficient-wise difference mod q.
    pub fn sub(&self, other: &Self) -> (r: Self)
        requires
            self.wf(),
            other.wf(),
        ensures
            r.wf(),
            r@ == poly_mod_sub(self@, other@),
            forall|i: int| 0 <= i < 256 ==>
                #[trigger] r@[i] == (self@[i] - other@[i]) % 3329,
    {
        let mut v: Vec<PrimeField3329> = Vec::new();
        let mut i: usize = 0;
        while i < POLY_N
            invariant
                0 <= i <= 256,
                self.wf(),
                other.wf(),
                v@.len() == i,
                forall|j: int| 0 <= j < i ==> (#[trigger] v@[j])@ == (self@[j] - other@[j]) % 3329,
                forall|j: int| 0 <= j < i ==> (#[trigger] v@[j]).is_canonical(),
            decreases 256 - i,
        {
            proof {
                assert(self.coefficients@[i as int]@ == self@[i as int]);
                assert(other.coefficients@[i as int]@ == other@[i as int]);
            }
            v.push(self.coefficients[i].sub(&other.coefficients[i]));
            i = i + 1;
        }
        let r = Self { coefficients: v };
        proof {
            assert(r@ =~= poly_mod_sub(self@, other@));
        }
        r
    }

    /// Coefficient-wise negation mod q.
    pub fn neg(&self) -> (r: Self)
        requires
            self.wf(),
        ensures
            r.wf(),
            forall|i: int| 0 <= i < 256 ==>
                #[trigger] r@[i] == (0 - self@[i]) % 3329,
    {
        Self::zero().sub(self)
    }

    /// Multiplication of every coefficient by a scalar, mod q.
    pub fn mulf(&self, other: &PrimeField3329) -> (r: Self)
        requires
            self.wf(),
            other.is_canonical(),
        ensures
            r.wf(),
            r@ == poly_mod_scale(self@, other@),
            forall|i: int| 0 <= i < 256 ==>
                #[trigger] r@[i] == (self@[i] * other@) % 3329,
    {
        let mut v: Vec<PrimeField3329> = Vec::new();
        let mut i: usize = 0;
        while i < POLY_N
            invariant
                0 <= i <= 256,
                self.wf(),
                other.is_canonical(),
                v@.len() == i,
                forall|j: int| 0 <= j < i ==> (#[trigger] v@[j])@ == (self@[j] * other@) % 3329,
                forall|j: int| 0 <= j < i ==> (#[trigger] v@[j]).is_canonical(),
            decreases 256 - i,
        {
            proof {
                assert(self.coefficients@[i as int]@ == self@[i as int]);
            }
            v.push(self.coefficients[i].mul(other));
            i = i + 1;
        }
        let r = Self { coefficients: v };
        proof {
            assert(r@ =~= poly_mod_scale(self@, other@));
        }
        r
    }
}

impl Default for Polynomial {
    /// The default polynomial is zero.
    fn default() -> (r: Self)
        ensures
            r.wf(),
            forall|i: int| 0 <= i < 256 ==> #[trigger] r@[i] == 0,
    {
        Self::zero()
    }
}

} // verus!
