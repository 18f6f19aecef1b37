//! Compilation of rank-1 constraint matrices into a quadratic arithmetic
//! program: one interpolated polynomial per witness column of each matrix,
//! and the target polynomial vanishing on the constraint domain.

use vstd::prelude::*;

use crate::field::{fr_from_u64, fr_neg, fsub, lemma_fmul_basics, lemma_fneg_cancel, Fr};
use crate::poly::{
    lemma_canon_props, lemma_conv_top, lemma_peval_linear, lemma_peval_mul, lemma_zeros, peval,
    pv_mul, vals, Poly,
};
use crate::utils::{field_row, to_poly, to_scalar};
use crate::SnarkError;

verus! {

/// Whether three matrices form one rectangular system with at least one row
/// and one column, and the public prefix within the witness width.
pub open spec fn valid_shape(
    l: Seq<Vec<i64>>,
    r: Seq<Vec<i64>>,
    o: Seq<Vec<i64>>,
    public: nat,
) -> bool {
    &&& l.len() >= 1
    &&& l[0]@.len() >= 1
    &&& r.len() == l.len()
    &&& o.len() == l.len()
    &&& forall|i: int| 0 <= i < l.len() ==> (#[trigger] l[i]@).len() == l[0]@.len()
    &&& forall|i: int| 0 <= i < r.len() ==> (#[trigger] r[i]@).len() == l[0]@.len()
    &&& forall|i: int| 0 <= i < o.len() ==> (#[trigger] o[i]@).len() == l[0]@.len()
    &&& public <= l[0]@.len()
}

/// A compiled constraint system: for each witness column `j` the polynomials
/// `A_j`, `B_j`, `C_j` interpolating that column of the three matrices over
/// the domain `1, ..., rows`, and the target `t(x) = (x-1)...(x-rows)`.
pub struct Program {
    pub rows: usize,
    pub cols: usize,
    pub left: Vec<Poly>,
    pub right: Vec<Poly>,
    pub output: Vec<Poly>,
    pub t: Poly,
    pub public: usize,
}

impl Program {
    /// Structural soundness: one polynomial of degree below `rows` per
    /// column, and a monic target of degree `rows` vanishing on the domain.
    pub open spec fn wf(&self) -> bool {
        &&& self.rows >= 1
        &&& self.cols >= 1
        &&& self.public <= self.cols
        &&& self.left@.len() == self.cols
        &&& self.right@.len() == self.cols
        &&& self.output@.len() == self.cols
        &&& forall|j: int|
            0 <= j < self.cols ==> (#[trigger] self.left@[j]).wf() && self.left@[j]@.len()
                <= self.rows
        &&& forall|j: int|
            0 <= j < self.cols ==> (#[trigger] self.right@[j]).wf() && self.right@[j]@.len()
                <= self.rows
        &&& forall|j: int|
            0 <= j < self.cols ==> (#[trigger] self.output@[j]).wf() && self.output@[j]@.len()
                <= self.rows
        &&& self.t.wf()
        &&& self.t@.len() == self.rows + 1
        &&& 2 * self.rows + 2 <= usize::MAX
        &&& self.t@.last() == 1
        &&& forall|x: nat| 1 <= x <= self.rows ==> peval(self.t@, x) == 0
    }

    /// Compile three equally shaped matrices of signed integers and a
    /// public-prefix length.  Fails with `ShapeMismatch` exactly when the
    /// matrices are empty, non-rectangular, of unequal row counts, or the
    /// prefix exceeds the width.
    pub fn new(
        left: &Vec<Vec<i64>>,
        right: &Vec<Vec<i64>>,
        output: &Vec<Vec<i64>>,
        public: usize,
    ) -> (r: Result<Program, SnarkError>)
        requires
            2 * left@.len() + 2 <= usize::MAX,
        ensures
            match r {
                Ok(p) => valid_shape(left@, right@, output@, public as nat) && p.wf() && p.rows
                    == left@.len() && p.cols == left@[0]@.len() && p.public == public && (forall|
                    j: int,
                    i: int,
                |
                    0 <= j < p.cols && 0 <= i < p.rows ==> peval(p.left@[j]@, (i + 1) as nat)
                        == #[trigger] field_row(left@[i]@)[j]) && (forall|j: int, i: int|
                    0 <= j < p.cols && 0 <= i < p.rows ==> peval(p.right@[j]@, (i + 1) as nat)
                        == #[trigger] field_row(right@[i]@)[j]) && (forall|j: int, i: int|
                    0 <= j < p.cols && 0 <= i < p.rows ==> peval(p.output@[j]@, (i + 1) as nat)
                        == #[trigger] field_row(output@[i]@)[j]),
                Err(e) => e == SnarkError::ShapeMismatch && !valid_shape(
                    left@,
                    right@,
                    output@,
                    public as nat,
                ),
            },
    {
        if left.len() == 0 {
            return Err(SnarkError::ShapeMismatch);
        }
        let rows = left.len();
        let cols = {
            let first = &left[0];
            first.len()
        };
        if cols == 0 || right.len() != rows || output.len() != rows || public > cols {
            return Err(SnarkError::ShapeMismatch);
        }
        let mut i: usize = 0;
        while i < rows
            invariant
                i <= rows,
                rows == left@.len(),
                rows == right@.len(),
                rows == output@.len(),
                cols == left@[0]@.len(),
                forall|t: int| 0 <= t < i ==> (#[trigger] left@[t]@).len() == cols,
                forall|t: int| 0 <= t < i ==> (#[trigger] right@[t]@).len() == cols,
                forall|t: int| 0 <= t < i ==> (#[trigger] output@[t]@).len() == cols,
            decreases rows - i,
        {
            let wl = {
                let row = &left[i];
                row.len()
            };
            let wr = {
                let row = &right[i];
                row.len()
            };
            let wo = {
                let row = &output[i];
                row.len()
            };
            if wl != cols || wr != cols || wo != cols {
                return Err(SnarkError::ShapeMismatch);
            }
            proof {
                assert(left@[i as int]@.len() == cols);
                assert(right@[i as int]@.len() == cols);
                assert(output@[i as int]@.len() == cols);
            }
            i = i + 1;
        }
        let sl = to_scalar(left);
        let sr = to_scalar(right);
        let so = to_scalar(output);
        proof {
            assert forall|t: int| 0 <= t < rows implies (#[trigger] sl@[t]@).len() == cols by {
                assert(vals(sl@[t]@) == field_row(left@[t]@));
                assert(vals(sl@[t]@).len() == sl@[t]@.len());
                assert(field_row(left@[t]@).len() == left@[t]@.len());
                assert(left@[t]@.len() == cols);
            }
            assert forall|t: int| 0 <= t < rows implies (#[trigger] sr@[t]@).len() == cols by {
                assert(vals(sr@[t]@) == field_row(right@[t]@));
                assert(vals(sr@[t]@).len() == sr@[t]@.len());
                assert(field_row(right@[t]@).len() == right@[t]@.len());
                assert(right@[t]@.len() == cols);
            }
            assert forall|t: int| 0 <= t < rows implies (#[trigger] so@[t]@).len() == cols by {
                assert(vals(so@[t]@) == field_row(output@[t]@));
                assert(vals(so@[t]@).len() == so@[t]@.len());
                assert(field_row(output@[t]@).len() == output@[t]@.len());
                assert(output@[t]@.len() == cols);
            }
        }
        let (pl, pr, po) = to_poly(&sl, &sr, &so);
        // the target polynomial (x - 1)(x - 2)...(x - rows)
        let one = fr_from_u64(1);
        let mut tv: Vec<Fr> = Vec::new();
        tv.push(one);
        let mut t = Poly(tv);
        proof {
            assert(t@ =~= seq![1nat]);
            lemma_zeros();
        }
        let mut k: usize = 0;
        while k < rows
            invariant
                k <= rows,
                rows < usize::MAX - 1,
                t.wf(),
                t@.len() == k + 1,
                t@.last() == 1,
                forall|x: nat| 1 <= x <= k ==> peval(t@, x) == 0,
            decreases rows - k,
        {
            let c = fr_from_u64((k as u64) + 1);
            let nc = fr_neg(&c);
            let one2 = fr_from_u64(1);
            let mut lv: Vec<Fr> = Vec::new();
            lv.push(nc);
            lv.push(one2);
            let lin = Poly(lv);
            proof {
                assert(lin@ =~= seq![crate::field::fneg((k + 1) as nat), 1nat]);
                lemma_fneg_cancel((k + 1) as nat);
                assert(lin.wf());
            }
            let ghost told = t@;
            let t2 = Poly::mul(t, lin);
            proof {
                lemma_zeros();
                lemma_conv_top(told, seq![crate::field::fneg((k + 1) as nat), 1nat]);
                lemma_fmul_basics(1);
                assert(pv_mul(told, seq![crate::field::fneg((k + 1) as nat), 1nat]).last() == 1);
                lemma_canon_props(pv_mul(told, seq![crate::field::fneg((k + 1) as nat), 1nat]));
                assert(t2@ == pv_mul(told, seq![crate::field::fneg((k + 1) as nat), 1nat]));
                assert(t2@.len() == told.len() + 1);
                assert forall|x: nat| 1 <= x <= k + 1 implies peval(t2@, x) == 0 by {
                    lemma_peval_mul(told, seq![crate::field::fneg((k + 1) as nat), 1nat], x);
                    lemma_peval_linear((k + 1) as nat, x);
                    if x <= k {
                        assert(peval(told, x) == 0);
                    } else {
                        lemma_fneg_cancel((k + 1) as nat);
                        assert(fsub(x, (k + 1) as nat) == 0);
                        crate::poly::lemma_peval_in_field(told, x);
                        lemma_fmul_basics(peval(told, x));
                    }
                }
            }
            t = t2;
            k = k + 1;
        }
        proof {
            assert forall|j: int, i: int|
                0 <= j < cols && 0 <= i < rows implies peval(pl@[j]@, (i + 1) as nat)
                == #[trigger] field_row(left@[i]@)[j] by {
                assert(peval(pl@[j]@, (i + 1) as nat) == vals(sl@[i]@)[j]);
                assert(vals(sl@[i]@) == field_row(left@[i]@));
            }
            assert forall|j: int, i: int|
                0 <= j < cols && 0 <= i < rows implies peval(pr@[j]@, (i + 1) as nat)
                == #[trigger] field_row(right@[i]@)[j] by {
                assert(peval(pr@[j]@, (i + 1) as nat) == vals(sr@[i]@)[j]);
                assert(vals(sr@[i]@) == field_row(right@[i]@));
            }
            assert forall|j: int, i: int|
                0 <= j < cols && 0 <= i < rows implies peval(po@[j]@, (i + 1) as nat)
                == #[trigger] field_row(output@[i]@)[j] by {
                assert(peval(po@[j]@, (i + 1) as nat) == vals(so@[i]@)[j]);
                assert(vals(so@[i]@) == field_row(output@[i]@));
            }
        }
        Ok(
            Program {
                rows,
                cols,
                left: pl,
                right: pr,
                output: po,
                t,
                public,
            },
        )
    }
}

} // verus!
