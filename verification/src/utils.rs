//! Coercion of signed integers into the scalar field, and the compilation of
//! constraint matrices into per-column interpolated polynomials.

use vstd::arithmetic::div_mod::lemma_small_mod;
use vstd::prelude::*;

use crate::field::{fneg, fr_from_u64, fr_neg, fr_order, in_field, Fr};
use crate::poly::{bounded, peval, vals, Poly};

verus! {

/// The field value of a signed integer: nonnegative values map directly,
/// strictly negative values by negation in the field.
pub open spec fn field_of_i64(v: int) -> nat {
    if v >= 0 {
        (v as nat) % fr_order()
    } else {
        fneg(((0 - v) as nat) % fr_order())
    }
}

/// The field values of a row of signed integers.
pub open spec fn field_row(s: Seq<i64>) -> Seq<nat> {
    s.map_values(|v: i64| field_of_i64(v as int))
}

/// The field element of a signed integer; `i64::MIN` is handled by widening
/// before taking the absolute value.
pub fn fr_from_i64(v: i64) -> (r: Fr)
    ensures
        r@ == field_of_i64(v as int),
        in_field(r@),
{
    if v >= 0 {
        let r = fr_from_u64(v as u64);
        proof {
            lemma_small_mod(v as nat, fr_order());
        }
        r
    } else {
        let w: i128 = -(v as i128);
        let u = w as u64;
        proof {
            assert(w == 0 - (v as int));
            assert(0 < w <= 0x8000_0000_0000_0000);
            assert(u as int == w);
            lemma_small_mod(u as nat, fr_order());
        }
        let a = fr_from_u64(u);
        fr_neg(&a)
    }
}

/// Convert a witness row of signed integers to field elements.
pub fn witness_to_scalar(witness: &Vec<i64>) -> (r: Vec<Fr>)
    ensures
        vals(r@) == field_row(witness@),
        bounded(vals(r@)),
{
    let mut out: Vec<Fr> = Vec::new();
    let mut i: usize = 0;
    while i < witness.len()
        invariant
            i <= witness@.len(),
            out@.len() == i,
            forall|j: int| 0 <= j < i ==> vals(out@)[j] == field_of_i64(witness@[j] as int),
            bounded(vals(out@)),
        decreases witness@.len() - i,
    {
        let c = fr_from_i64(witness[i]);
        let ghost pre = out@;
        out.push(c);
        proof {
            assert(vals(out@) =~= vals(pre).push(c@));
        }
        i = i + 1;
    }
    proof {
        assert(vals(out@) =~= field_row(witness@));
    }
    out
}

/// Convert a matrix of signed integers to field elements, row by row.
pub fn to_scalar(input: &Vec<Vec<i64>>) -> (r: Vec<Vec<Fr>>)
    ensures
        r@.len() == input@.len(),
        forall|i: int|
            0 <= i < r@.len() ==> vals(#[trigger] r@[i]@) == field_row(input@[i]@) && bounded(
                vals(r@[i]@),
            ),
{
    let mut out: Vec<Vec<Fr>> = Vec::new();
    let mut i: usize = 0;
    while i < input.len()
        invariant
            i <= input@.len(),
            out@.len() == i,
            forall|j: int|
                0 <= j < i ==> vals(#[trigger] out@[j]@) == field_row(input@[j]@) && bounded(
                    vals(out@[j]@),
                ),
        decreases input@.len() - i,
    {
        let row = witness_to_scalar(&input[i]);
        out.push(row);
        i = i + 1;
    }
    out
}

/// The interpolation domain `1, 2, ..., m` as field elements.
fn make_domain(m: usize) -> (r: Vec<Fr>)
    requires
        m < usize::MAX,
    ensures
        r@.len() == m,
        forall|i: int| 0 <= i < m ==> vals(r@)[i] == i + 1,
        bounded(vals(r@)),
        forall|i: int, j: int| 0 <= i < j < m ==> vals(r@)[i] != vals(r@)[j],
{
    let mut out: Vec<Fr> = Vec::new();
    let mut i: usize = 0;
    while i < m
        invariant
            i <= m,
            m < usize::MAX,
            out@.len() == i,
            forall|j: int| 0 <= j < i ==> vals(out@)[j] == j + 1,
            bounded(vals(out@)),
        decreases m - i,
    {
        let c = fr_from_u64((i as u64) + 1);
        let ghost pre = out@;
        out.push(c);
        proof {
            assert(vals(out@) =~= vals(pre).push(c@));
        }
        i = i + 1;
    }
    out
}

/// Interpolate each column of a matrix over the domain.
fn column_polys(mat: &Vec<Vec<Fr>>, domain: &Vec<Fr>) -> (r: Vec<Poly>)
    requires
        mat@.len() == domain@.len(),
        domain@.len() > 0,
        domain@.len() < usize::MAX - 1,
        bounded(vals(domain@)),
        forall|i: int, j: int| 0 <= i < j < domain@.len() ==> vals(domain@)[i] != vals(domain@)[j],
        forall|i: int| 0 <= i < mat@.len() ==> bounded(vals(#[trigger] mat@[i]@)),
        forall|i: int| 0 <= i < mat@.len() ==> (#[trigger] mat@[i]@).len() == mat@[0]@.len(),
    ensures
        r@.len() == mat@[0]@.len(),
        forall|j: int|
            0 <= j < r@.len() ==> (#[trigger] r@[j]).wf() && r@[j]@.len() <= mat@.len(),
        forall|j: int, i: int|
            0 <= j < r@.len() && 0 <= i < mat@.len() ==> #[trigger] peval(r@[j]@, vals(domain@)[i])
                == vals(mat@[i]@)[j],
{
    let m = mat.len();
    let cols = mat[0].len();
    let mut out: Vec<Poly> = Vec::new();
    let mut j: usize = 0;
    while j < cols
        invariant
            j <= cols,
            out@.len() == j,
            m == mat@.len(),
            cols == mat@[0]@.len(),
            m == domain@.len(),
            m > 0,
            m < usize::MAX - 1,
            bounded(vals(domain@)),
            forall|a: int, b: int| 0 <= a < b < m ==> vals(domain@)[a] != vals(domain@)[b],
            forall|i: int| 0 <= i < m ==> bounded(vals(#[trigger] mat@[i]@)),
            forall|i: int| 0 <= i < m ==> (#[trigger] mat@[i]@).len() == cols,
            forall|t: int| 0 <= t < j ==> (#[trigger] out@[t]).wf() && out@[t]@.len() <= m,
            forall|t: int, i: int|
                0 <= t < j && 0 <= i < m ==> #[trigger] peval(out@[t]@, vals(domain@)[i]) == vals(
                    mat@[i]@,
                )[t],
        decreases cols - j,
    {
        let mut col: Vec<Fr> = Vec::new();
        let mut i: usize = 0;
        while i < m
            invariant
                i <= m,
                j < cols,
                col@.len() == i,
                m == mat@.len(),
                cols == mat@[0]@.len(),
                forall|t: int| 0 <= t < m ==> bounded(vals(#[trigger] mat@[t]@)),
                forall|t: int| 0 <= t < m ==> (#[trigger] mat@[t]@).len() == cols,
                forall|t: int| 0 <= t < i ==> vals(col@)[t] == vals(mat@[t]@)[j as int],
                bounded(vals(col@)),
            decreases m - i,
        {
            let row = &mat[i];
            let c = row[j];
            proof {
                assert(vals(mat@[i as int]@)[j as int] == mat@[i as int]@[j as int]@);
                assert(in_field(vals(mat@[i as int]@)[j as int]));
            }
            let ghost pre = col@;
            col.push(c);
            proof {
                assert(vals(col@) =~= vals(pre).push(c@));
            }
            i = i + 1;
        }
        let p = Poly::interpolate_impl(domain, &col);
        let ghost pre_out = out@;
        out.push(p);
        proof {
            assert forall|t: int, i: int| 0 <= t < j + 1 && 0 <= i < m implies #[trigger] peval(
                out@[t]@,
                vals(domain@)[i],
            ) == vals(mat@[i]@)[t] by {
                if t == j {
                    assert(peval(p@, vals(domain@)[i]) == vals(col@)[i]);
                    assert(vals(col@)[i] == vals(mat@[i]@)[t]);
                } else {
                    assert(out@[t] == pre_out[t]);
                    assert(peval(pre_out[t]@, vals(domain@)[i]) == vals(mat@[i]@)[t]);
                }
            }
        }
        j = j + 1;
    }
    out
}

/// Interpolate the columns of the three constraint matrices over the domain
/// `1, 2, ..., m`.
pub fn to_poly(left: &Vec<Vec<Fr>>, right: &Vec<Vec<Fr>>, output: &Vec<Vec<Fr>>) -> (r: (
    Vec<Poly>,
    Vec<Poly>,
    Vec<Poly>,
))
    requires
        left@.len() == right@.len(),
        right@.len() == output@.len(),
        left@.len() > 0,
        left@.len() < usize::MAX - 1,
        forall|i: int| 0 <= i < left@.len() ==> bounded(vals(#[trigger] left@[i]@)),
        forall|i: int| 0 <= i < right@.len() ==> bounded(vals(#[trigger] right@[i]@)),
        forall|i: int| 0 <= i < output@.len() ==> bounded(vals(#[trigger] output@[i]@)),
        forall|i: int| 0 <= i < left@.len() ==> (#[trigger] left@[i]@).len() == left@[0]@.len(),
        forall|i: int| 0 <= i < right@.len() ==> (#[trigger] right@[i]@).len() == left@[0]@.len(),
        forall|i: int| 0 <= i < output@.len() ==> (#[trigger] output@[i]@).len() == left@[0]@.len(),
    ensures
        r.0@.len() == left@[0]@.len(),
        r.1@.len() == left@[0]@.len(),
        r.2@.len() == left@[0]@.len(),
        forall|j: int|
            0 <= j < r.0@.len() ==> (#[trigger] r.0@[j]).wf() && r.0@[j]@.len() <= left@.len(),
        forall|j: int|
            0 <= j < r.1@.len() ==> (#[trigger] r.1@[j]).wf() && r.1@[j]@.len() <= left@.len(),
        forall|j: int|
            0 <= j < r.2@.len() ==> (#[trigger] r.2@[j]).wf() && r.2@[j]@.len() <= left@.len(),
        forall|j: int, i: int|
            0 <= j < r.0@.len() && 0 <= i < left@.len() ==> peval(r.0@[j]@, (i + 1) as nat)
                == #[trigger] vals(left@[i]@)[j],
        forall|j: int, i: int|
            0 <= j < r.1@.len() && 0 <= i < left@.len() ==> peval(r.1@[j]@, (i + 1) as nat)
                == #[trigger] vals(right@[i]@)[j],
        forall|j: int, i: int|
            0 <= j < r.2@.len() && 0 <= i < left@.len() ==> peval(r.2@[j]@, (i + 1) as nat)
                == #[trigger] vals(output@[i]@)[j],
{
    let domain = make_domain(left.len());
    let pl = column_polys(left, &domain);
    let pr = column_polys(right, &domain);
    let po = column_polys(output, &domain);
    proof {
        assert forall|j: int, i: int|
            0 <= j < pl@.len() && 0 <= i < left@.len() implies peval(pl@[j]@, (i + 1) as nat)
            == #[trigger] vals(left@[i]@)[j] by {
            assert(vals(domain@)[i] == i + 1);
            assert(peval(pl@[j]@, vals(domain@)[i]) == vals(left@[i]@)[j]);
        }
        assert forall|j: int, i: int|
            0 <= j < pr@.len() && 0 <= i < left@.len() implies peval(pr@[j]@, (i + 1) as nat)
            == #[trigger] vals(right@[i]@)[j] by {
            assert(vals(domain@)[i] == i + 1);
            assert(peval(pr@[j]@, vals(domain@)[i]) == vals(right@[i]@)[j]);
        }
        assert forall|j: int, i: int|
            0 <= j < po@.len() && 0 <= i < left@.len() implies peval(po@[j]@, (i + 1) as nat)
            == #[trigger] vals(output@[i]@)[j] by {
            assert(vals(domain@)[i] == i + 1);
            assert(peval(po@[j]@, vals(domain@)[i]) == vals(output@[i]@)[j]);
        }
    }
    (pl, pr, po)
}

} // verus!
