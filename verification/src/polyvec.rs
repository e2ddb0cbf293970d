//! Vectors over R_q: the module R_q^k.

use crate::polynomial::Polynomial;
use vstd::prelude::*;

verus! {

/// A well-formed vector view: every entry is a well-formed coefficient
/// sequence.
pub open spec fn polyvec_wf(s: Seq<Seq<int>>) -> bool {
    forall|i: int| 0 <= i < s.len() ==> crate::polynomial::coeffs_wf(#[trigger] s[i])
}

/// A fixed-length vector of polynomials.
#[derive(Debug)]
pub struct PolyVec {
    coefficients: Vec<Polynomial>,
}

impl View for PolyVec {
    type V = Seq<Seq<int>>;

    closed spec fn view(&self) -> Seq<Seq<int>> {
        self.coefficients@.map_values(|p: Polynomial| p@)
    }
}

impl Clone for PolyVec {
    /// An exact copy, entry for entry.
    fn clone(&self) -> (r: Self)
        ensures
            r@ == self@,
    {
        let mut v: Vec<Polynomial> = Vec::new();
        let mut i: usize = 0;
        while i < self.coefficients.len()
            invariant
                0 <= i <= self.coefficients@.len(),
                v@.len() == i,
                forall|j: int| 0 <= j < i ==> (#[trigger] v@[j])@ == self.coefficients@[j]@,
            decreases self.coefficients@.len() - i,
        {
            v.push(self.coefficients[i].clone());
            i = i + 1;
        }
        let r = Self { coefficients: v };
        proof {
            assert(r@ =~= self@);
        }
        r
    }
}

impl PolyVec {
    /// Well-formedness: every entry is a well-formed polynomial.
    pub open spec fn wf(self) -> bool {
        polyvec_wf(self@)
    }

    /// A vector of `dim` zero polynomials.
    pub fn init(dim: usize) -> (r: Self)
        ensures
            r.wf(),
            r@.len() == dim,
            forall|i: int, j: int| 0 <= i < dim && 0 <= j < 256 ==> #[trigger] r@[i][j] == 0,
    {
        let mut v: Vec<Polynomial> = Vec::new();
        let mut i: usize = 0;
        while i < dim
            invariant
                0 <= i <= dim,
                v@.len() == i,
                forall|j: int| 0 <= j < i ==> (#[trigger] v@[j])@.len() == 256,
                forall|j: int| 0 <= j < i ==> crate::polynomial::coeffs_wf((#[trigger] v@[j])@),
                forall|j: int, c: int| 0 <= j < i && 0 <= c < 256 ==> #[trigger] v@[j]@[c] == 0,
            decreases dim - i,
        {
            v.push(Polynomial::zero());
            i = i + 1;
        }
        Self { coefficients: v }
    }

    /// A vector holding exactly the given polynomials.
    pub fn from_vec(coefficients: Vec<Polynomial>) -> (r: Self)
        requires
            forall|i: int| 0 <= i < coefficients@.len()
                ==> (#[trigger] coefficients@[i]).wf(),
        ensures
            r.wf(),
            r@ == coefficients@.map_values(|p: Polynomial| p@),
    {
        Self { coefficients }
    }

    /// The number of entries.
    pub fn dimension(&self) -> (r: usize)
        ensures
            r == self@.len(),
    {
        self.coefficients.len()
    }

    /// The entry at `position`.
    pub fn get(&self, position: usize) -> (r: Polynomial)
        requires
            position < self@.len(),
        ensures
            r@ == self@[position as int],
    {
        self.coefficients[position].clone()
    }

    /// Replace the entry at `position`.
    pub fn set(&mut self, position: usize, value: Polynomial)
        requires
            position < old(self)@.len(),
            value.wf(),
        ensures
            final(self)@ == old(self)@.update(position as int, value@),
    {
        self.coefficients.set(position, value);
        proof {
            assert(final(self)@ =~= old(self)@.update(position as int, value@));
        }
    }

    /// Entry-wise sum mod q.
    pub fn add(&self, other: &Self) -> (r: Self)
        requires
            self.wf(),
            other.wf(),
            self@.len() == other@.len(),
        ensures
            r.wf(),
            r@.len() == self@.len(),
            forall|i: int, j: int| 0 <= i < self@.len() && 0 <= j < 256 ==>
                #[trigger] r@[i][j] == (self@[i][j] + other@[i][j]) % 3329,
    {
        let n = self.coefficients.len();
        let mut v: Vec<Polynomial> = Vec::new();
        let mut i: usize = 0;
        while i < n
            invariant
                0 <= i <= n,
                n == self@.len(),
                n == other@.len(),
                self.wf(),
                other.wf(),
                v@.len() == i,
                forall|j: int| 0 <= j < i ==> (#[trigger] v@[j]).wf(),
                forall|j: int, c: int| 0 <= j < i && 0 <= c < 256 ==>
                    #[trigger] v@[j]@[c] == (self@[j][c] + other@[j][c]) % 3329,
            decreases n - i,
        {
            proof {
                assert(self.coefficients@[i as int]@ == self@[i as int]);
                assert(other.coefficients@[i as int]@ == other@[i as int]);
            }
            v.push(self.coefficients[i].add(&other.coefficients[i]));
            i = i + 1;
        }
        let r = Self { coefficients: v };
        proof {
            assert(forall|j: int| 0 <= j < n ==> (#[trigger] r@[j]) == v@[j]@);
        }
        r
    }

    /// Entry-wise difference mod q.
    pub fn sub(&self, other: &Self) -> (r: Self)
        requires
            self.wf(),
            other.wf(),
            self@.len() == other@.len(),
        ensures
            r.wf(),
            r@.len() == self@.len(),
            forall|i: int, j: int| 0 <= i < self@.len() && 0 <= j < 256 ==>
                #[trigger] r@[i][j] == (self@[i][j] - other@[i][j]) % 3329,
    {
        let n = self.coefficients.len();
        let mut v: Vec<Polynomial> = Vec::new();
        let mut i: usize = 0;
        while i < n
            invariant
                0 <= i <= n,
                n == self@.len(),
                n == other@.len(),
                self.wf(),
                other.wf(),
                v@.len() == i,
                forall|j: int| 0 <= j < i ==> (#[trigger] v@[j]).wf(),
                forall|j: int, c: int| 0 <= j < i && 0 <= c < 256 ==>
                    #[trigger] v@[j]@[c] == (self@[j][c] - other@[j][c]) % 3329,
            decreases n - i,
        {
            proof {
                assert(self.coefficients@[i as int]@ == self@[i as int]);
                assert(other.coefficients@[i as int]@ == other@[i as int]);
            }
            v.push(self.coefficients[i].sub(&other.coefficients[i]));
            i = i + 1;
        }
        let r = Self { coefficients: v };
        proof {
            assert(forall|j: int| 0 <= j < n ==> (#[trigger] r@[j]) == v@[j]@);
        }
        r
    }
}

} // verus!
