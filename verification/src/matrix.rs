//! Matrices over R_q, used for the public matrix A and its transpose.

use crate::polynomial::Polynomial;
use crate::polyvec::PolyVec;
use vstd::prelude::*;

verus! {

/// A matrix of polynomials, stored row-major.
#[derive(Debug)]
pub struct Matrix {
    rows: Vec<PolyVec>,
    cols: usize,
}

impl View for Matrix {
    type V = Seq<Seq<Seq<int>>>;

    closed spec fn view(&self) -> Seq<Seq<Seq<int>>> {
        self.rows@.map_values(|r: PolyVec| r@)
    }
}

impl Matrix {
    /// The number of columns, as a spec value.
    pub closed spec fn spec_cols(self) -> int {
        self.cols as int
    }

    /// Well-formedness: every row has `cols` well-formed polynomials.
    pub open spec fn wf(self) -> bool {
        forall|i: int| 0 <= i < self@.len() ==> {
            &&& (#[trigger] self@[i]).len() == self.spec_cols()
            &&& crate::polyvec::polyvec_wf(self@[i])
        }
    }

    /// A zero matrix with `col_num` columns and `col_dim` rows.
    pub fn init(col_num: usize, col_dim: usize) -> (r: Self)
        ensures
            r.wf(),
            r@.len() == col_dim,
            r.spec_cols() == col_num,
            forall|i: int, j: int, c: int|
                0 <= i < col_dim && 0 <= j < col_num && 0 <= c < 256
                ==> #[trigger] r@[i][j][c] == 0,
    {
        let mut rows: Vec<PolyVec> = Vec::new();
        let mut i: usize = 0;
        while i < col_dim
            invariant
                0 <= i <= col_dim,
                rows@.len() == i,
                forall|j: int| 0 <= j < i ==> (#[trigger] rows@[j])@.len() == col_num,
                forall|j: int| 0 <= j < i ==> (#[trigger] rows@[j]).wf(),
                forall|j: int, k: int, c: int|
                    0 <= j < i && 0 <= k < col_num && 0 <= c < 256
                    ==> #[trigger] rows@[j]@[k][c] == 0,
            decreases col_dim - i,
        {
            rows.push(PolyVec::init(col_num));
            i = i + 1;
        }
        Self { rows, cols: col_num }
    }

    /// A zero matrix; the historical name of `init`.
    pub fn init_matrix(col_num: usize, col_dim: usize) -> (r: Self)
        ensures
            r.wf(),
            r@.len() == col_dim,
            r.spec_cols() == col_num,
            forall|i: int, j: int, c: int|
                0 <= i < col_dim && 0 <= j < col_num && 0 <= c < 256
                ==> #[trigger] r@[i][j][c] == 0,
    {
        Self::init(col_num, col_dim)
    }

    /// The dimensions (columns, rows).
    pub fn dimensions(&self) -> (r: (usize, usize))
        ensures
            r.0 == self.spec_cols(),
            r.1 == self@.len(),
    {
        (self.cols, self.rows.len())
    }

    /// The row at `index`.
    pub fn row(&self, index: usize) -> (r: PolyVec)
        requires
            index < self@.len(),
        ensures
            r@ == self@[index as int],
    {
        self.rows[index].clone()
    }

    /// The column at `index`.
    pub fn column(&self, index: usize) -> (r: PolyVec)
        requires
            self.wf(),
            index < self.spec_cols(),
        ensures
            r.wf(),
            r@.len() == self@.len(),
            forall|i: int| 0 <= i < self@.len() ==> #[trigger] r@[i] == self@[i][index as int],
    {
        let n = self.rows.len();
        let mut t = PolyVec::init(n);
        let mut i: usize = 0;
        while i < n
            invariant
                0 <= i <= n,
                n == self@.len(),
                self.wf(),
                index < self.spec_cols(),
                t.wf(),
                t@.len() == n,
                forall|j: int| 0 <= j < i ==> #[trigger] t@[j] == self@[j][index as int],
            decreases n - i,
        {
            proof {
                assert(self.rows@[i as int]@ == self@[i as int]);
            }
            let p = self.rows[i].get(index);
            proof {
                assert(crate::polynomial::coeffs_wf(self@[i as int][index as int]));
            }
            t.set(i, p);
            i = i + 1;
        }
        t
    }

    /// Replace the entry at (`row`, `column`).
    pub fn set(&mut self, row: usize, column: usize, value: Polynomial)
        requires
            old(self).wf(),
            row < old(self)@.len(),
            column < old(self).spec_cols(),
            value.wf(),
        ensures
            final(self).wf(),
            final(self)@.len() == old(self)@.len(),
            final(self).spec_cols() == old(self).spec_cols(),
            final(self)@ == old(self)@.update(
                row as int,
                old(self)@[row as int].update(column as int, value@),
            ),
    {
        let mut r = self.rows[row].clone();
        proof {
            assert(self.rows@[row as int]@ == self@[row as int]);
        }
        r.set(column, value);
        self.rows.set(row, r);
        proof {
            assert(final(self)@ =~= old(self)@.update(
                row as int,
                old(self)@[row as int].update(column as int, value@),
            ));
        }
    }

    /// The entry at (`row`, `column`).
    pub fn get(&self, row: usize, column: usize) -> (r: Polynomial)
        requires
            self.wf(),
            row < self@.len(),
            column < self.spec_cols(),
        ensures
            r@ == self@[row as int][column as int],
            r.wf(),
    {
        proof {
            assert(self.rows@[row as int]@ == self@[row as int]);
            assert(crate::polynomial::coeffs_wf(self@[row as int][column as int]));
        }
        self.rows[row].get(column)
    }
}

} // verus!
