//! Univariate polynomials over the scalar field.
//!
//! A polynomial is a vector of field elements, least significant coefficient
//! first, kept canonical: no trailing zero coefficients.  The model of a
//! polynomial is the sequence of its coefficient values; `coeff` reads that
//! sequence as a total coefficient function, `peval` gives the value of the
//! polynomial at a point, and `conv_coeff` the coefficients of a product.

use vstd::pervasive::VecAdditionalExecFns;
use vstd::prelude::*;

use crate::field::{
    fadd, fmul, fneg, fr_add, fr_from_u64, fr_inv, fr_is_zero, fr_mul, fr_neg, fr_order, fr_sub,
    fsub, has_inverse, in_field, lemma_fadd_assoc, lemma_fadd_comm, lemma_fadd_zero,
    lemma_fmul_assoc,
    lemma_fmul_basics, lemma_fmul_comm, lemma_fmul_dist, lemma_fneg_as_mul, lemma_fneg_cancel,
    lemma_fsub_nonzero, Fr,
};

verus! {

/// The values of a sequence of field elements.
pub open spec fn vals(s: Seq<Fr>) -> Seq<nat> {
    s.map_values(|c: Fr| c@)
}

/// The coefficient of `x^i`, reading the sequence as a total function.
pub open spec fn coeff(s: Seq<nat>, i: int) -> nat {
    if 0 <= i < s.len() {
        s[i]
    } else {
        0
    }
}

/// Every entry is a field value.
pub open spec fn bounded(s: Seq<nat>) -> bool {
    forall|i: int| 0 <= i < s.len() ==> in_field(#[trigger] s[i])
}

/// No trailing zero coefficient: the canonical form of a polynomial.
pub open spec fn is_canon(s: Seq<nat>) -> bool {
    s.len() == 0 || s.last() != 0
}

/// Strip trailing zero coefficients.
pub open spec fn canon(s: Seq<nat>) -> Seq<nat>
    decreases s.len(),
{
    if s.len() == 0 {
        s
    } else if s.last() == 0 {
        canon(s.drop_last())
    } else {
        s
    }
}

/// Coefficientwise sum of two polynomials.
pub open spec fn pv_add(a: Seq<nat>, b: Seq<nat>) -> Seq<nat> {
    Seq::new(
        if a.len() >= b.len() {
            a.len()
        } else {
            b.len()
        },
        |i: int| fadd(coeff(a, i), coeff(b, i)),
    )
}

/// Coefficientwise negation of a polynomial.
pub open spec fn pv_neg(a: Seq<nat>) -> Seq<nat> {
    Seq::new(a.len(), |i: int| fneg(a[i]))
}

/// Coefficientwise difference of two polynomials.
pub open spec fn pv_sub(a: Seq<nat>, b: Seq<nat>) -> Seq<nat> {
    pv_add(a, pv_neg(b))
}

/// The `k`-th coefficient of the product: the sum of `a[i] * b[k - i]`.
pub open spec fn conv_coeff(a: Seq<nat>, b: Seq<nat>, k: int) -> nat
    decreases a.len(),
{
    if a.len() == 0 {
        0
    } else {
        fadd(
            if 0 <= k < b.len() {
                fmul(a[0], b[k])
            } else {
                0
            },
            conv_coeff(a.drop_first(), b, k - 1),
        )
    }
}

/// Product of two polynomials.
pub open spec fn pv_mul(a: Seq<nat>, b: Seq<nat>) -> Seq<nat> {
    if a.len() == 0 || b.len() == 0 {
        Seq::empty()
    } else {
        Seq::new((a.len() + b.len() - 1) as nat, |k: int| conv_coeff(a, b, k))
    }
}

/// Scaling a polynomial by a field value.
pub open spec fn pv_scale(c: nat, s: Seq<nat>) -> Seq<nat> {
    Seq::new(s.len(), |i: int| fmul(c, s[i]))
}

/// Multiplying a polynomial by `x`.
pub open spec fn pv_shift(s: Seq<nat>) -> Seq<nat> {
    Seq::new(
        s.len() + 1,
        |i: int|
            if i == 0 {
                0nat
            } else {
                s[i - 1]
            },
    )
}

/// The value of the polynomial at `x` (Horner form, modulo the field order).
pub open spec fn peval(s: Seq<nat>, x: nat) -> nat
    decreases s.len(),
{
    if s.len() == 0 {
        0
    } else {
        fadd(s[0], fmul(x, peval(s.drop_first(), x)))
    }
}

/// A univariate polynomial over the scalar field, least significant
/// coefficient first.
#[derive(Clone, Debug, PartialEq)]
pub struct Poly(pub Vec<Fr>);

impl View for Poly {
    type V = Seq<nat>;

    open spec fn view(&self) -> Seq<nat> {
        vals(self.0@)
    }
}

impl Poly {
    /// Canonical and made of field values: what every constructor returns.
    pub open spec fn wf(&self) -> bool {
        is_canon(self@) && bounded(self@)
    }
}

/// Stripping trailing zeros yields a canonical polynomial, no longer than the
/// input, with the same coefficient function, and bounded if the input was.
pub proof fn lemma_canon_props(s: Seq<nat>)
    ensures
        is_canon(canon(s)),
        canon(s).len() <= s.len(),
        forall|i: int| #[trigger] coeff(canon(s), i) == coeff(s, i),
        bounded(s) ==> bounded(canon(s)),
        is_canon(s) ==> canon(s) == s,
    decreases s.len(),
{
    if s.len() == 0 {
    } else if s.last() == 0 {
        lemma_canon_props(s.drop_last());
        assert forall|i: int| #[trigger] coeff(canon(s), i) == coeff(s, i) by {
            assert(coeff(canon(s), i) == coeff(s.drop_last(), i));
            if 0 <= i < s.len() - 1 {
                assert(s.drop_last()[i] == s[i]);
            }
        }
        assert(bounded(s) ==> bounded(s.drop_last()));
    } else {
    }
}

/// Canonical polynomials with the same coefficient function are equal.
pub proof fn lemma_canon_unique(s: Seq<nat>, t: Seq<nat>)
    requires
        is_canon(s),
        is_canon(t),
        forall|i: int| #[trigger] coeff(s, i) == coeff(t, i),
    ensures
        s == t,
{
    if s.len() < t.len() {
        assert(coeff(s, t.len() - 1) == 0);
        assert(coeff(t, t.len() - 1) == t.last());
    } else if t.len() < s.len() {
        assert(coeff(t, s.len() - 1) == 0);
        assert(coeff(s, s.len() - 1) == s.last());
    } else {
        assert forall|i: int| 0 <= i < s.len() implies s[i] == t[i] by {
            assert(coeff(s, i) == coeff(t, i));
        }
        assert(s =~= t);
    }
}

/// Polynomials with the same coefficient function have the same canonical
/// form.
pub proof fn lemma_coeff_eq_canon(s: Seq<nat>, t: Seq<nat>)
    requires
        forall|i: int| #[trigger] coeff(s, i) == coeff(t, i),
    ensures
        canon(s) == canon(t),
{
    lemma_canon_props(s);
    lemma_canon_props(t);
    assert forall|i: int| #[trigger] coeff(canon(s), i) == coeff(canon(t), i) by {
        assert(coeff(s, i) == coeff(t, i));
    }
    lemma_canon_unique(canon(s), canon(t));
}

/// The value of a polynomial is a field value.
pub proof fn lemma_peval_in_field(s: Seq<nat>, x: nat)
    ensures
        in_field(peval(s, x)),
{
    if s.len() == 0 {
    } else {
        assert(peval(s, x) == fadd(s[0], fmul(x, peval(s.drop_first(), x))));
    }
}

/// A trailing zero coefficient does not change the value.
proof fn lemma_peval_drop_last_zero(s: Seq<nat>, x: nat)
    requires
        s.len() > 0,
        s.last() == 0,
    ensures
        peval(s, x) == peval(s.drop_last(), x),
    decreases s.len(),
{
    if s.len() == 1 {
        assert(s.drop_first().len() == 0);
        assert(s[0] == s.last());
        assert(peval(s.drop_first(), x) == 0);
        assert(peval(s, x) == fadd(0, fmul(x, 0)));
        assert(fmul(x, 0) == 0) by {
            assert(x * 0 == 0);
        }
        assert(fadd(0nat, 0nat) == 0) by {
            assert((0nat + 0nat) % fr_order() == 0);
        }
        assert(s.drop_last().len() == 0);
    } else {
        let sf = s.drop_first();
        assert(sf.last() == s.last());
        lemma_peval_drop_last_zero(sf, x);
        assert(sf.drop_last() =~= s.drop_last().drop_first());
        assert(s.drop_last()[0] == s[0]);
        assert(peval(s.drop_last(), x) == fadd(s[0], fmul(x, peval(s.drop_last().drop_first(), x))));
    }
}

/// Evaluation only depends on the canonical form.
pub proof fn lemma_peval_canon(s: Seq<nat>, x: nat)
    ensures
        peval(canon(s), x) == peval(s, x),
    decreases s.len(),
{
    if s.len() == 0 {
    } else if s.last() == 0 {
        lemma_peval_drop_last_zero(s, x);
        lemma_peval_canon(s.drop_last(), x);
    } else {
    }
}

/// Evaluation only depends on the coefficient function.
pub proof fn lemma_peval_coeff_eq(s: Seq<nat>, t: Seq<nat>, x: nat)
    requires
        forall|i: int| #[trigger] coeff(s, i) == coeff(t, i),
    ensures
        peval(s, x) == peval(t, x),
{
    lemma_coeff_eq_canon(s, t);
    lemma_peval_canon(s, x);
    lemma_peval_canon(t, x);
}

/// The coefficient function of a sum is the sum of coefficient functions.
pub proof fn lemma_pv_add_coeff(a: Seq<nat>, b: Seq<nat>)
    ensures
        forall|i: int| #[trigger] coeff(pv_add(a, b), i) == fadd(coeff(a, i), coeff(b, i)),
{
    assert forall|i: int| #[trigger]
        coeff(pv_add(a, b), i) == fadd(coeff(a, i), coeff(b, i)) by {
        if !(0 <= i < pv_add(a, b).len()) {
            assert(coeff(a, i) == 0);
            assert(coeff(b, i) == 0);
            assert(fadd(0nat, 0nat) == 0) by {
                assert((0nat + 0nat) % fr_order() == 0);
            }
        }
    }
}

/// Rearranging four summands in the field.
proof fn lemma_fadd_shuffle(p: nat, q: nat, r: nat, s: nat)
    ensures
        fadd(fadd(p, q), fadd(r, s)) == fadd(fadd(p, r), fadd(q, s)),
{
    lemma_fadd_assoc(p, q, fadd(r, s));
    lemma_fadd_assoc(q, r, s);
    lemma_fadd_comm(q, r);
    lemma_fadd_assoc(r, q, s);
    lemma_fadd_assoc(p, r, fadd(q, s));
}

/// Evaluation is additive: the value of a sum is the field sum of values.
pub proof fn lemma_peval_add(a: Seq<nat>, b: Seq<nat>, x: nat)
    requires
        bounded(a),
        bounded(b),
    ensures
        peval(pv_add(a, b), x) == fadd(peval(a, x), peval(b, x)),
    decreases a.len() + b.len(),
{
    lemma_peval_in_field(a, x);
    lemma_peval_in_field(b, x);
    if a.len() == 0 {
        assert(pv_add(a, b) =~= b) by {
            lemma_pv_add_coeff(a, b);
            assert forall|i: int| 0 <= i < b.len() implies pv_add(a, b)[i] == b[i] by {
                assert(coeff(a, i) == 0);
                assert(coeff(b, i) == b[i]);
                lemma_fadd_zero(b[i]);
            }
        }
        lemma_fadd_zero(peval(b, x));
    } else if b.len() == 0 {
        assert(pv_add(a, b) =~= a) by {
            lemma_pv_add_coeff(a, b);
            assert forall|i: int| 0 <= i < a.len() implies pv_add(a, b)[i] == a[i] by {
                assert(coeff(b, i) == 0);
                assert(coeff(a, i) == a[i]);
                lemma_fadd_zero(a[i]);
            }
        }
        lemma_fadd_zero(peval(a, x));
    } else {
        let a1 = a.drop_first();
        let b1 = b.drop_first();
        assert(pv_add(a, b).drop_first() =~= pv_add(a1, b1)) by {
            assert forall|i: int| 0 <= i < pv_add(a, b).len() - 1 implies pv_add(a, b).drop_first()[i]
                == pv_add(a1, b1)[i] by {
                assert(pv_add(a, b).drop_first()[i] == pv_add(a, b)[i + 1]);
                assert(coeff(a, i + 1) == coeff(a1, i));
                assert(coeff(b, i + 1) == coeff(b1, i));
            }
        }
        assert(bounded(a1) && bounded(b1)) by {
            assert(forall|i: int| 0 <= i < a1.len() ==> a1[i] == a[i + 1]);
            assert(forall|i: int| 0 <= i < b1.len() ==> b1[i] == b[i + 1]);
        }
        lemma_peval_add(a1, b1, x);
        lemma_peval_in_field(a1, x);
        lemma_peval_in_field(b1, x);
        let pa = peval(a1, x);
        let pb = peval(b1, x);
        assert(pv_add(a, b)[0] == fadd(a[0], b[0]));
        assert(peval(pv_add(a, b), x) == fadd(fadd(a[0], b[0]), fmul(x, fadd(pa, pb))));
        lemma_fmul_dist(x, pa, pb);
        lemma_fadd_shuffle(a[0], b[0], fmul(x, pa), fmul(x, pb));
        assert(peval(a, x) == fadd(a[0], fmul(x, pa)));
        assert(peval(b, x) == fadd(b[0], fmul(x, pb)));
    }
}

/// Zero is neutral even outside the field range.
pub(crate) proof fn lemma_zeros()
    ensures
        fadd(0, 0) == 0,
        forall|a: nat| #[trigger] fmul(a, 0) == 0,
        forall|a: nat| #[trigger] fmul(0, a) == 0,
{
    assert((0nat + 0nat) % fr_order() == 0) by {
        vstd::arithmetic::div_mod::lemma_small_mod(0nat, fr_order());
    }
    assert forall|a: nat| #[trigger] fmul(a, 0) == 0 by {
        assert(a * 0 == 0);
        vstd::arithmetic::div_mod::lemma_small_mod(0nat, fr_order());
    }
    assert forall|a: nat| #[trigger] fmul(0, a) == 0 by {
        assert(0 * a == 0);
        vstd::arithmetic::div_mod::lemma_small_mod(0nat, fr_order());
    }
}

/// Swapping the first two of three summands in the field.
proof fn lemma_fadd_swap3(p: nat, q: nat, r: nat)
    ensures
        fadd(p, fadd(q, r)) == fadd(q, fadd(p, r)),
{
    lemma_fadd_assoc(p, q, r);
    lemma_fadd_comm(p, q);
    lemma_fadd_assoc(q, p, r);
}

/// A product coefficient is a field value.
pub(crate) proof fn lemma_conv_in_field(a: Seq<nat>, b: Seq<nat>, k: int)
    ensures
        in_field(conv_coeff(a, b, k)),
{
    if a.len() == 0 {
    } else {
        assert(conv_coeff(a, b, k) == fadd(
            if 0 <= k < b.len() {
                fmul(a[0], b[k])
            } else {
                0
            },
            conv_coeff(a.drop_first(), b, k - 1),
        ));
    }
}

/// Multiplying by the zero polynomial gives zero coefficients.
proof fn lemma_conv_empty_right(a: Seq<nat>, k: int)
    ensures
        conv_coeff(a, Seq::<nat>::empty(), k) == 0,
    decreases a.len(),
{
    lemma_zeros();
    if a.len() > 0 {
        lemma_conv_empty_right(a.drop_first(), k - 1);
    }
}

/// Outside the support of the product, its coefficients are zero.
proof fn lemma_conv_out_of_range(a: Seq<nat>, b: Seq<nat>, k: int)
    requires
        b.len() > 0,
        k < 0 || k >= a.len() + b.len() - 1,
    ensures
        conv_coeff(a, b, k) == 0,
    decreases a.len(),
{
    lemma_zeros();
    if a.len() > 0 {
        lemma_conv_out_of_range(a.drop_first(), b, k - 1);
    }
}

/// The coefficient function of a product is `conv_coeff` everywhere.
pub(crate) proof fn lemma_pv_mul_coeff(a: Seq<nat>, b: Seq<nat>)
    ensures
        forall|k: int| #[trigger] coeff(pv_mul(a, b), k) == conv_coeff(a, b, k),
{
    assert forall|k: int| #[trigger] coeff(pv_mul(a, b), k) == conv_coeff(a, b, k) by {
        if a.len() == 0 {
        } else if b.len() == 0 {
            lemma_conv_empty_right(a, k);
            assert(b =~= Seq::<nat>::empty());
        } else if 0 <= k < a.len() + b.len() - 1 {
        } else {
            lemma_conv_out_of_range(a, b, k);
        }
    }
}

/// The product coefficient peeled by its second argument instead.
proof fn lemma_conv_peel2(a: Seq<nat>, b: Seq<nat>, k: int)
    requires
        b.len() > 0,
    ensures
        conv_coeff(a, b, k) == fadd(
            if 0 <= k < a.len() {
                fmul(a[k], b[0])
            } else {
                0
            },
            conv_coeff(a, b.drop_first(), k - 1),
        ),
    decreases a.len(),
{
    lemma_zeros();
    let b1 = b.drop_first();
    if a.len() == 0 {
    } else {
        let a1 = a.drop_first();
        lemma_conv_peel2(a1, b, k - 1);
        let t0: nat = if 0 <= k < b.len() {
            fmul(a[0], b[k])
        } else {
            0
        };
        let t1: nat = if 0 <= k - 1 < a1.len() {
            fmul(a1[k - 1], b[0])
        } else {
            0
        };
        let t2: nat = if 0 <= k - 1 < b1.len() {
            fmul(a[0], b1[k - 1])
        } else {
            0
        };
        let t3: nat = if 0 <= k < a.len() {
            fmul(a[k], b[0])
        } else {
            0
        };
        let rest = conv_coeff(a1, b1, k - 2);
        assert(conv_coeff(a, b, k) == fadd(t0, fadd(t1, rest)));
        assert(conv_coeff(a, b1, k - 1) == fadd(t2, rest));
        if k == 0 {
            assert(t1 == 0 && t2 == 0);
            assert(t0 == t3);
        } else if k < 0 {
            assert(t0 == 0 && t1 == 0 && t2 == 0 && t3 == 0);
        } else {
            assert(t1 == t3) by {
                if 1 <= k < a.len() {
                    assert(a1[k - 1] == a[k]);
                }
            }
            assert(t2 == t0) by {
                if 1 <= k < b.len() {
                    assert(b1[k - 1] == b[k]);
                }
            }
            lemma_fadd_swap3(t0, t3, rest);
        }
    }
}

/// Polynomial multiplication is commutative, coefficient by coefficient.
proof fn lemma_conv_comm(a: Seq<nat>, b: Seq<nat>, k: int)
    ensures
        conv_coeff(a, b, k) == conv_coeff(b, a, k),
    decreases a.len(),
{
    if a.len() == 0 {
        assert(a =~= Seq::<nat>::empty());
        lemma_conv_empty_right(b, k);
    } else {
        lemma_conv_comm(a.drop_first(), b, k - 1);
        lemma_conv_peel2(b, a, k);
        if 0 <= k < b.len() {
            lemma_fmul_comm(a[0], b[k]);
        }
    }
}

/// Multiplication distributes over addition, coefficient by coefficient.
#[verifier::rlimit(60)]
proof fn lemma_conv_dist(a: Seq<nat>, b: Seq<nat>, c: Seq<nat>, k: int)
    ensures
        conv_coeff(a, pv_add(b, c), k) == fadd(conv_coeff(a, b, k), conv_coeff(a, c, k)),
    decreases a.len(),
{
    lemma_zeros();
    if a.len() == 0 {
    } else {
        let a1 = a.drop_first();
        lemma_conv_dist(a1, b, c, k - 1);
        let s = pv_add(b, c);
        lemma_pv_add_coeff(b, c);
        let tb: nat = if 0 <= k < b.len() {
            fmul(a[0], b[k])
        } else {
            0
        };
        let tc: nat = if 0 <= k < c.len() {
            fmul(a[0], c[k])
        } else {
            0
        };
        let ts: nat = if 0 <= k < s.len() {
            fmul(a[0], s[k])
        } else {
            0
        };
        assert(ts == fadd(tb, tc)) by {
            if 0 <= k < s.len() {
                assert(s[k] == fadd(coeff(b, k), coeff(c, k)));
                lemma_fmul_dist(a[0], coeff(b, k), coeff(c, k));
                assert(tb == fmul(a[0], coeff(b, k)));
                assert(tc == fmul(a[0], coeff(c, k)));
            } else {
                assert(coeff(s, k) == 0);
                assert(tb == 0 && tc == 0);
            }
        }
        lemma_fadd_shuffle(tb, tc, conv_coeff(a1, b, k - 1), conv_coeff(a1, c, k - 1));
        assert(conv_coeff(a, s, k) == fadd(ts, conv_coeff(a1, s, k - 1)));
        assert(conv_coeff(a, b, k) == fadd(tb, conv_coeff(a1, b, k - 1)));
        assert(conv_coeff(a, c, k) == fadd(tc, conv_coeff(a1, c, k - 1)));
    }
}

/// Distribution on the left, by commutativity.
proof fn lemma_conv_left_dist(u: Seq<nat>, v: Seq<nat>, c: Seq<nat>, k: int)
    ensures
        conv_coeff(pv_add(u, v), c, k) == fadd(conv_coeff(u, c, k), conv_coeff(v, c, k)),
{
    lemma_conv_comm(pv_add(u, v), c, k);
    lemma_conv_dist(c, u, v, k);
    lemma_conv_comm(u, c, k);
    lemma_conv_comm(v, c, k);
}

/// A trailing zero of the left factor does not change product coefficients.
proof fn lemma_conv_drop_last_zero(a: Seq<nat>, b: Seq<nat>, k: int)
    requires
        a.len() > 0,
        a.last() == 0,
    ensures
        conv_coeff(a, b, k) == conv_coeff(a.drop_last(), b, k),
    decreases a.len(),
{
    lemma_zeros();
    if a.len() == 1 {
        assert(a[0] == a.last());
        assert(conv_coeff(a.drop_first(), b, k - 1) == 0);
        assert(a.drop_last().len() == 0);
    } else {
        let a1 = a.drop_first();
        assert(a1.last() == a.last());
        lemma_conv_drop_last_zero(a1, b, k - 1);
        assert(a1.drop_last() =~= a.drop_last().drop_first());
        assert(a.drop_last()[0] == a[0]);
    }
}

/// Product coefficients only depend on the canonical form of the left factor.
proof fn lemma_conv_canon_left(a: Seq<nat>, b: Seq<nat>, k: int)
    ensures
        conv_coeff(a, b, k) == conv_coeff(canon(a), b, k),
    decreases a.len(),
{
    if a.len() > 0 && a.last() == 0 {
        lemma_conv_drop_last_zero(a, b, k);
        lemma_conv_canon_left(a.drop_last(), b, k);
    }
}

/// Product coefficients only depend on the coefficient function of the left
/// factor.
proof fn lemma_conv_coeff_eq_left(a: Seq<nat>, a2: Seq<nat>, b: Seq<nat>, k: int)
    requires
        forall|i: int| #[trigger] coeff(a, i) == coeff(a2, i),
    ensures
        conv_coeff(a, b, k) == conv_coeff(a2, b, k),
{
    lemma_coeff_eq_canon(a, a2);
    lemma_conv_canon_left(a, b, k);
    lemma_conv_canon_left(a2, b, k);
}

/// Scaling one factor scales the product coefficients.
proof fn lemma_conv_scale(c: nat, s: Seq<nat>, d: Seq<nat>, k: int)
    ensures
        conv_coeff(pv_scale(c, s), d, k) == fmul(c, conv_coeff(s, d, k)),
    decreases s.len(),
{
    lemma_zeros();
    if s.len() == 0 {
    } else {
        let sc = pv_scale(c, s);
        let s1 = s.drop_first();
        assert(sc.drop_first() =~= pv_scale(c, s1));
        lemma_conv_scale(c, s1, d, k - 1);
        let t0: nat = if 0 <= k < d.len() {
            fmul(s[0], d[k])
        } else {
            0
        };
        let tsc: nat = if 0 <= k < d.len() {
            fmul(fmul(c, s[0]), d[k])
        } else {
            0
        };
        assert(tsc == fmul(c, t0)) by {
            if 0 <= k < d.len() {
                lemma_fmul_assoc(c, s[0], d[k]);
            }
        }
        assert(conv_coeff(sc, d, k) == fadd(tsc, fmul(c, conv_coeff(s1, d, k - 1))));
        lemma_fmul_dist(c, t0, conv_coeff(s1, d, k - 1));
    }
}

/// Multiplying a factor by `x` shifts the product coefficients by one.
proof fn lemma_conv_shift(s: Seq<nat>, d: Seq<nat>, k: int)
    ensures
        conv_coeff(pv_shift(s), d, k) == conv_coeff(s, d, k - 1),
{
    lemma_zeros();
    let sh = pv_shift(s);
    assert(sh[0] == 0);
    assert(sh.drop_first() =~= s);
    lemma_conv_in_field(s, d, k - 1);
    lemma_fadd_zero(conv_coeff(s, d, k - 1));
}

/// Polynomial multiplication is associative, coefficient by coefficient.
proof fn lemma_conv_assoc(a: Seq<nat>, b: Seq<nat>, c: Seq<nat>, k: int)
    ensures
        conv_coeff(pv_mul(a, b), c, k) == conv_coeff(a, pv_mul(b, c), k),
    decreases a.len(),
{
    lemma_zeros();
    if a.len() == 0 {
        assert(pv_mul(a, b) =~= Seq::<nat>::empty());
    } else if b.len() == 0 {
        assert(pv_mul(a, b).len() == 0);
        assert(pv_mul(b, c).len() == 0);
        assert(pv_mul(b, c) =~= Seq::<nat>::empty());
        lemma_conv_empty_right(a, k);
    } else if c.len() == 0 {
        assert(c =~= Seq::<nat>::empty());
        lemma_conv_empty_right(pv_mul(a, b), k);
        assert(pv_mul(b, c).len() == 0);
        assert(pv_mul(b, c) =~= Seq::<nat>::empty());
        lemma_conv_empty_right(a, k);
    } else {
        let a1 = a.drop_first();
        let u = pv_add(pv_scale(a[0], b), pv_shift(pv_mul(a1, b)));
        assert forall|i: int| #[trigger] coeff(pv_mul(a, b), i) == coeff(u, i) by {
            lemma_pv_mul_coeff(a, b);
            lemma_pv_add_coeff(pv_scale(a[0], b), pv_shift(pv_mul(a1, b)));
            lemma_pv_mul_coeff(a1, b);
            assert(coeff(pv_shift(pv_mul(a1, b)), i) == coeff(pv_mul(a1, b), i - 1));
            assert(coeff(pv_scale(a[0], b), i) == (if 0 <= i < b.len() {
                fmul(a[0], b[i])
            } else {
                0
            })) by {
                if 0 <= i < b.len() {
                    assert(pv_scale(a[0], b)[i] == fmul(a[0], b[i]));
                }
            }
            assert(conv_coeff(a, b, i) == fadd(
                if 0 <= i < b.len() {
                    fmul(a[0], b[i])
                } else {
                    0
                },
                conv_coeff(a1, b, i - 1),
            ));
        }
        lemma_conv_coeff_eq_left(pv_mul(a, b), u, c, k);
        lemma_conv_left_dist(pv_scale(a[0], b), pv_shift(pv_mul(a1, b)), c, k);
        lemma_conv_scale(a[0], b, c, k);
        lemma_conv_shift(pv_mul(a1, b), c, k);
        lemma_conv_assoc(a1, b, c, k - 1);
        lemma_pv_mul_coeff(b, c);
        assert((if 0 <= k < pv_mul(b, c).len() {
            fmul(a[0], pv_mul(b, c)[k])
        } else {
            0
        }) == fmul(a[0], conv_coeff(b, c, k))) by {
            if 0 <= k < pv_mul(b, c).len() {
                assert(coeff(pv_mul(b, c), k) == pv_mul(b, c)[k]);
            } else {
                lemma_conv_out_of_range(b, c, k);
            }
        }
        assert(conv_coeff(a, pv_mul(b, c), k) == fadd(
            fmul(a[0], conv_coeff(b, c, k)),
            conv_coeff(a1, pv_mul(b, c), k - 1),
        ));
    }
}

/// The top coefficient of a product is the product of top coefficients.
pub(crate) proof fn lemma_conv_top(a: Seq<nat>, b: Seq<nat>)
    requires
        a.len() > 0,
        b.len() > 0,
    ensures
        conv_coeff(a, b, a.len() + b.len() - 2) == fmul(a.last(), b.last()),
    decreases a.len(),
{
    lemma_zeros();
    let k = a.len() + b.len() - 2;
    if a.len() == 1 {
        assert(conv_coeff(a.drop_first(), b, k - 1) == 0);
        assert(a[0] == a.last());
        assert(b[k] == b.last());
        lemma_conv_in_field(a, b, k);
        lemma_fadd_zero(fmul(a[0], b[k])) ;
        assert(fmul(a[0], b[k]) < fr_order());
        assert(conv_coeff(a, b, k) == fadd(fmul(a[0], b[k]), 0));
    } else {
        let a1 = a.drop_first();
        assert(a1.last() == a.last());
        lemma_conv_top(a1, b);
        assert(!(0 <= k < b.len()));
        lemma_conv_in_field(a1, b, k - 1);
        lemma_fadd_zero(conv_coeff(a1, b, k - 1));
    }
}

/// Evaluation is multiplicative over scaling.
pub(crate) proof fn lemma_peval_scale(c: nat, s: Seq<nat>, x: nat)
    ensures
        peval(pv_scale(c, s), x) == fmul(c, peval(s, x)),
    decreases s.len(),
{
    lemma_zeros();
    if s.len() == 0 {
    } else {
        let s1 = s.drop_first();
        assert(pv_scale(c, s).drop_first() =~= pv_scale(c, s1));
        lemma_peval_scale(c, s1, x);
        let p1 = peval(s1, x);
        assert(peval(pv_scale(c, s), x) == fadd(fmul(c, s[0]), fmul(x, fmul(c, p1))));
        assert(fmul(x, fmul(c, p1)) == fmul(c, fmul(x, p1))) by {
            lemma_fmul_assoc(x, c, p1);
            lemma_fmul_comm(x, c);
            lemma_fmul_assoc(c, x, p1);
        }
        lemma_fmul_dist(c, s[0], fmul(x, p1));
    }
}

/// Evaluation turns a shift into multiplication by the point.
proof fn lemma_peval_shift(s: Seq<nat>, x: nat)
    ensures
        peval(pv_shift(s), x) == fmul(x, peval(s, x)),
{
    let sh = pv_shift(s);
    assert(sh[0] == 0);
    assert(sh.drop_first() =~= s);
    assert(peval(sh, x) == fadd(0, fmul(x, peval(s, x))));
    lemma_fadd_zero(fmul(x, peval(s, x)));
}

/// Evaluation is multiplicative: the value of a product is the field product
/// of values.
pub proof fn lemma_peval_mul(a: Seq<nat>, b: Seq<nat>, x: nat)
    ensures
        peval(pv_mul(a, b), x) == fmul(peval(a, x), peval(b, x)),
    decreases a.len(),
{
    lemma_zeros();
    if a.len() == 0 {
        assert(pv_mul(a, b) =~= Seq::<nat>::empty());
    } else if b.len() == 0 {
        assert(pv_mul(a, b) =~= Seq::<nat>::empty());
    } else {
        let a1 = a.drop_first();
        let sc = pv_scale(a[0], b);
        let sh = pv_shift(pv_mul(a1, b));
        let u = pv_add(sc, sh);
        assert forall|i: int| #[trigger] coeff(pv_mul(a, b), i) == coeff(u, i) by {
            lemma_pv_mul_coeff(a, b);
            lemma_pv_add_coeff(sc, sh);
            lemma_pv_mul_coeff(a1, b);
            assert(coeff(sh, i) == coeff(pv_mul(a1, b), i - 1));
            assert(coeff(sc, i) == (if 0 <= i < b.len() {
                fmul(a[0], b[i])
            } else {
                0
            })) by {
                if 0 <= i < b.len() {
                    assert(sc[i] == fmul(a[0], b[i]));
                }
            }
            assert(conv_coeff(a, b, i) == fadd(
                if 0 <= i < b.len() {
                    fmul(a[0], b[i])
                } else {
                    0
                },
                conv_coeff(a1, b, i - 1),
            ));
        }
        lemma_peval_coeff_eq(pv_mul(a, b), u, x);
        assert(bounded(sc)) by {
            assert(forall|i: int| 0 <= i < sc.len() ==> sc[i] == fmul(a[0], b[i]));
        }
        assert(bounded(sh)) by {
            lemma_pv_mul_coeff(a1, b);
            assert forall|i: int| 0 <= i < sh.len() implies in_field(sh[i]) by {
                if i > 0 {
                    assert(sh[i] == pv_mul(a1, b)[i - 1]);
                    assert(coeff(pv_mul(a1, b), i - 1) == conv_coeff(a1, b, i - 1));
                    lemma_conv_in_field(a1, b, i - 1);
                }
            }
        }
        lemma_peval_add(sc, sh, x);
        lemma_peval_scale(a[0], b, x);
        lemma_peval_shift(pv_mul(a1, b), x);
        lemma_peval_mul(a1, b, x);
        let pb = peval(b, x);
        let pa1 = peval(a1, x);
        assert(peval(pv_mul(a, b), x) == fadd(fmul(a[0], pb), fmul(x, fmul(pa1, pb))));
        assert(peval(a, x) == fadd(a[0], fmul(x, pa1)));
        assert(fmul(fadd(a[0], fmul(x, pa1)), pb) == fadd(fmul(a[0], pb), fmul(x, fmul(pa1, pb))))
            by {
            lemma_fmul_comm(fadd(a[0], fmul(x, pa1)), pb);
            lemma_fmul_dist(pb, a[0], fmul(x, pa1));
            lemma_fmul_comm(pb, a[0]);
            lemma_fmul_comm(pb, fmul(x, pa1));
            lemma_fmul_assoc(x, pa1, pb);
        }
    }
}

/// The value of a constant polynomial.
pub(crate) proof fn lemma_peval_single(c: nat, z: nat)
    requires
        in_field(c),
    ensures
        peval(seq![c], z) == c,
{
    lemma_zeros();
    let s = seq![c];
    assert(s.drop_first().len() == 0);
    assert(peval(s.drop_first(), z) == 0);
    assert(s[0] == c);
    lemma_fadd_zero(c);
}

/// The value of the monic linear polynomial with root `d0`.
pub(crate) proof fn lemma_peval_linear(d0: nat, z: nat)
    requires
        in_field(d0),
        in_field(z),
    ensures
        peval(seq![fneg(d0), 1nat], z) == fsub(z, d0),
{
    let s = seq![fneg(d0), 1nat];
    assert(s.drop_first() =~= seq![1nat]);
    lemma_peval_single(1, z);
    assert(s[0] == fneg(d0));
    assert(peval(s, z) == fadd(fneg(d0), fmul(z, 1)));
    lemma_fmul_basics(z);
    lemma_fadd_comm(fneg(d0), z);
}

/// The monic linear polynomial `x - a`.
pub open spec fn lin_at(a: nat) -> Seq<nat> {
    seq![fneg(a), 1nat]
}

/// Multiplying by the constant one on the right changes no coefficient.
proof fn lemma_conv_one_right(p: Seq<nat>, k: int)
    requires
        bounded(p),
    ensures
        conv_coeff(p, seq![1nat], k) == coeff(p, k),
{
    lemma_zeros();
    lemma_conv_peel2(p, seq![1nat], k);
    lemma_conv_empty_right(p, k - 1);
    assert(seq![1nat].drop_first() =~= Seq::<nat>::empty());
    if 0 <= k < p.len() {
        lemma_fmul_basics(p[k]);
        lemma_fadd_zero(p[k]);
    } else {
        lemma_fadd_zero(0);
    }
}

/// Multiplying by the constant one on the left changes no coefficient.
proof fn lemma_conv_one_left(p: Seq<nat>, k: int)
    requires
        bounded(p),
    ensures
        conv_coeff(seq![1nat], p, k) == coeff(p, k),
{
    lemma_conv_comm(seq![1nat], p, k);
    lemma_conv_one_right(p, k);
}

/// Division by the monic linear `x - a` with remainder `p(a)`, built by
/// synthetic division: no inverse is needed because the divisor is monic.
proof fn lemma_division_by_linear(p: Seq<nat>, a: nat)
    requires
        bounded(p),
        in_field(a),
    ensures
        exists|q: Seq<nat>|
            bounded(q) && (forall|k: int| #[trigger]
                coeff(p, k) == fadd(
                    conv_coeff(q, lin_at(a), k),
                    if k == 0 {
                        peval(p, a)
                    } else {
                        0
                    },
                )),
    decreases p.len(),
{
    lemma_zeros();
    let lin = lin_at(a);
    if p.len() == 0 {
        let q = Seq::<nat>::empty();
        assert forall|k: int| #[trigger]
            coeff(p, k) == fadd(
                conv_coeff(q, lin_at(a), k),
                if k == 0 {
                    peval(p, a)
                } else {
                    0
                },
            ) by {
            lemma_fadd_zero(0);
            assert(conv_coeff(q, lin_at(a), k) == 0);
            assert(peval(p, a) == 0);
        }
        assert(bounded(q) && (forall|k: int| #[trigger]
            coeff(p, k) == fadd(
                conv_coeff(q, lin_at(a), k),
                if k == 0 {
                    peval(p, a)
                } else {
                    0
                },
            )));
    } else {
        let p1 = p.drop_first();
        assert(bounded(p1)) by {
            assert(forall|i: int| 0 <= i < p1.len() ==> p1[i] == p[i + 1]);
        }
        lemma_division_by_linear(p1, a);
        let q1 = choose|q1: Seq<nat>|
            bounded(q1) && (forall|k: int| #[trigger]
                coeff(p1, k) == fadd(
                    conv_coeff(q1, lin_at(a), k),
                    if k == 0 {
                        peval(p1, a)
                    } else {
                        0
                    },
                ));
        let v1 = peval(p1, a);
        lemma_peval_in_field(p1, a);
        let q = pv_add(pv_shift(q1), seq![v1]);
        assert forall|k: int| #[trigger]
            coeff(p, k) == fadd(
                conv_coeff(q, lin, k),
                if k == 0 {
                    peval(p, a)
                } else {
                    0
                },
            ) by {
            lemma_conv_left_dist(pv_shift(q1), seq![v1], lin, k);
            lemma_conv_shift(q1, lin, k);
            lemma_conv_in_field(q1, lin, k - 1);
            // the contribution of the constant summand
            let sk = conv_coeff(seq![v1], lin, k);
            assert(sk == (if k == 0 {
                fmul(v1, fneg(a))
            } else if k == 1 {
                v1
            } else {
                0
            })) by {
                assert(seq![v1].drop_first() =~= Seq::<nat>::empty());
                assert(conv_coeff(Seq::<nat>::empty(), lin, k - 1) == 0);
                assert(seq![v1][0] == v1);
                assert(lin[0] == fneg(a));
                assert(lin[1] == 1nat);
                assert(lin.len() == 2);
                if k == 0 {
                    lemma_conv_in_field(seq![v1], lin, k);
                    lemma_fadd_zero(fmul(v1, fneg(a)));
                    assert(fmul(v1, fneg(a)) < fr_order());
                } else if k == 1 {
                    lemma_fmul_basics(v1);
                    lemma_fadd_zero(v1);
                } else {
                    lemma_fadd_zero(0);
                }
            }
            if k == 0 {
                // p[0] == v1*(-a) + (p[0] + a*v1)
                lemma_conv_out_of_range(q1, lin, -1);
                lemma_fadd_zero(sk);
                assert(conv_coeff(q, lin, 0) == fmul(v1, fneg(a)));
                assert(peval(p, a) == fadd(p[0], fmul(a, v1)));
                assert(fmul(v1, fneg(a)) == fneg(fmul(v1, a))) by {
                    lemma_fneg_as_mul(a);
                    lemma_fneg_as_mul(fmul(v1, a));
                    lemma_fmul_assoc(v1, (fr_order() - 1) as nat, a);
                    lemma_fmul_comm(v1, (fr_order() - 1) as nat);
                    lemma_fmul_assoc((fr_order() - 1) as nat, v1, a);
                }
                let z = fmul(v1, a);
                lemma_fmul_comm(a, v1);
                lemma_fadd_swap3(fneg(z), p[0], z);
                lemma_fadd_comm(fneg(z), z);
                lemma_fneg_cancel(z);
                lemma_fadd_zero(p[0]);
                assert(fadd(fneg(z), fadd(p[0], z)) == p[0]);
            } else {
                lemma_conv_in_field(q, lin, k);
                lemma_fadd_zero(conv_coeff(q, lin, k));
                assert(coeff(p1, k - 1) == fadd(
                    conv_coeff(q1, lin_at(a), k - 1),
                    if k - 1 == 0 {
                        v1
                    } else {
                        0
                    },
                ));
                if k == 1 {
                    assert(conv_coeff(q, lin, 1) == fadd(conv_coeff(q1, lin, 0), v1));
                } else {
                    lemma_fadd_zero(conv_coeff(q1, lin, k - 1));
                }
                assert(coeff(p, k) == coeff(p1, k - 1));
            }
        }
        assert(bounded(q)) by {
            lemma_pv_add_coeff(pv_shift(q1), seq![v1]);
            assert forall|i: int| 0 <= i < q.len() implies in_field(q[i]) by {
                assert(q[i] == coeff(q, i));
            }
        }
        assert(bounded(q) && (forall|k: int| #[trigger]
            coeff(p, k) == fadd(
                conv_coeff(q, lin_at(a), k),
                if k == 0 {
                    peval(p, a)
                } else {
                    0
                },
            )));
    }
}

/// The factor theorem: a root yields a linear factor, coefficient by
/// coefficient.
proof fn lemma_root_gives_factor(p: Seq<nat>, a: nat)
    requires
        bounded(p),
        in_field(a),
        peval(p, a) == 0,
    ensures
        exists|q: Seq<nat>|
            bounded(q) && (forall|k: int| #[trigger]
                coeff(p, k) == conv_coeff(q, lin_at(a), k)),
{
    lemma_division_by_linear(p, a);
    let q = choose|q: Seq<nat>|
        bounded(q) && (forall|k: int| #[trigger]
            coeff(p, k) == fadd(
                conv_coeff(q, lin_at(a), k),
                if k == 0 {
                    peval(p, a)
                } else {
                    0
                },
            ));
    assert forall|k: int| #[trigger] coeff(p, k) == conv_coeff(q, lin_at(a), k) by {
        lemma_conv_in_field(q, lin_at(a), k);
        lemma_fadd_zero(conv_coeff(q, lin_at(a), k));
    }
}

/// Product coefficients only depend on the coefficient function of the
/// right factor.
proof fn lemma_conv_coeff_eq_right(a: Seq<nat>, b: Seq<nat>, b2: Seq<nat>, k: int)
    requires
        forall|i: int| #[trigger] coeff(b, i) == coeff(b2, i),
    ensures
        conv_coeff(a, b, k) == conv_coeff(a, b2, k),
{
    lemma_conv_comm(a, b, k);
    lemma_conv_coeff_eq_left(b, b2, a, k);
    lemma_conv_comm(b2, a, k);
}

/// The monic polynomial with the given roots: the product of the `x - d[i]`.
pub open spec fn points_vanishing(d: Seq<nat>) -> Seq<nat>
    decreases d.len(),
{
    if d.len() == 0 {
        seq![1nat]
    } else {
        pv_mul(lin_at(d[0]), points_vanishing(d.drop_first()))
    }
}

/// The vanishing product is monic of degree `d.len()`, with field
/// coefficients.
proof fn lemma_points_vanishing_props(d: Seq<nat>)
    ensures
        points_vanishing(d).len() == d.len() + 1,
        points_vanishing(d).last() == 1,
        bounded(points_vanishing(d)),
    decreases d.len(),
{
    if d.len() == 0 {
        assert(points_vanishing(d) =~= seq![1nat]);
    } else {
        let lin = lin_at(d[0]);
        let v1 = points_vanishing(d.drop_first());
        lemma_points_vanishing_props(d.drop_first());
        lemma_conv_top(lin, v1);
        lemma_fmul_basics(1);
        assert(points_vanishing(d).last() == conv_coeff(lin, v1, lin.len() + v1.len() - 2));
        assert forall|i: int| 0 <= i < points_vanishing(d).len() implies in_field(
            points_vanishing(d)[i],
        ) by {
            lemma_pv_mul_coeff(lin, v1);
            assert(coeff(pv_mul(lin, v1), i) == conv_coeff(lin, v1, i));
            lemma_conv_in_field(lin, v1, i);
        }
    }
}

/// A polynomial vanishing at points whose pairwise differences have
/// inverses is a multiple of their vanishing product.
proof fn lemma_roots_give_product(p: Seq<nat>, d: Seq<nat>)
    requires
        bounded(p),
        bounded(d),
        forall|i: int| 0 <= i < d.len() ==> peval(p, #[trigger] d[i]) == 0,
        forall|i: int, j: int|
            0 <= i < j < d.len() ==> has_inverse(fsub(#[trigger] d[j], #[trigger] d[i])),
    ensures
        exists|h: Seq<nat>|
            bounded(h) && (forall|k: int| #[trigger]
                coeff(p, k) == conv_coeff(h, points_vanishing(d), k)),
    decreases d.len(),
{
    lemma_zeros();
    if d.len() == 0 {
        assert forall|k: int| #[trigger]
            coeff(p, k) == conv_coeff(p, points_vanishing(d), k) by {
            lemma_conv_one_right(p, k);
        }
        assert(bounded(p) && (forall|k: int| #[trigger]
            coeff(p, k) == conv_coeff(p, points_vanishing(d), k)));
    } else {
        let a = d[0];
        let d1 = d.drop_first();
        let lin = lin_at(a);
        assert(in_field(a));
        assert(peval(p, a) == 0);
        lemma_root_gives_factor(p, a);
        let q = choose|q: Seq<nat>|
            bounded(q) && (forall|k: int| #[trigger] coeff(p, k) == conv_coeff(q, lin_at(a), k));
        assert forall|i: int| 0 <= i < d1.len() implies peval(q, #[trigger] d1[i]) == 0 by {
            let b = d1[i];
            assert(b == d[i + 1]);
            assert(peval(p, b) == 0);
            assert(in_field(b));
            assert forall|k: int| #[trigger]
                coeff(p, k) == coeff(pv_mul(q, lin), k) by {
                lemma_pv_mul_coeff(q, lin);
            }
            lemma_peval_coeff_eq(p, pv_mul(q, lin), b);
            lemma_peval_mul(q, lin, b);
            lemma_peval_linear(a, b);
            assert(fmul(peval(q, b), fsub(b, a)) == 0);
            assert(has_inverse(fsub(d[i + 1], d[0])));
            let v = choose|v: nat| #[trigger] fmul(fsub(b, a), v) == 1;
            let c = peval(q, b);
            lemma_peval_in_field(q, b);
            lemma_fmul_assoc(c, fsub(b, a), v);
            lemma_fmul_basics(c);
        }
        assert(bounded(d1)) by {
            assert(forall|i: int| 0 <= i < d1.len() ==> d1[i] == d[i + 1]);
        }
        assert forall|i: int, j: int| 0 <= i < j < d1.len() implies has_inverse(
            fsub(#[trigger] d1[j], #[trigger] d1[i]),
        ) by {
            assert(d1[i] == d[i + 1] && d1[j] == d[j + 1]);
            assert(has_inverse(fsub(d[j + 1], d[i + 1])));
        }
        lemma_roots_give_product(q, d1);
        let h = choose|h: Seq<nat>|
            bounded(h) && (forall|k: int| #[trigger]
                coeff(q, k) == conv_coeff(h, points_vanishing(d1), k));
        let v1 = points_vanishing(d1);
        assert forall|k: int| #[trigger]
            coeff(p, k) == conv_coeff(h, points_vanishing(d), k) by {
            assert(coeff(p, k) == conv_coeff(q, lin, k));
            assert forall|t: int| #[trigger]
                coeff(q, t) == coeff(pv_mul(h, v1), t) by {
                lemma_pv_mul_coeff(h, v1);
            }
            lemma_conv_coeff_eq_left(q, pv_mul(h, v1), lin, k);
            lemma_conv_assoc(h, v1, lin, k);
            assert forall|t: int| #[trigger]
                coeff(pv_mul(v1, lin), t) == coeff(pv_mul(lin, v1), t) by {
                lemma_pv_mul_coeff(v1, lin);
                lemma_pv_mul_coeff(lin, v1);
                lemma_conv_comm(v1, lin, t);
            }
            lemma_conv_coeff_eq_right(h, pv_mul(v1, lin), pv_mul(lin, v1), k);
        }
        assert(bounded(h) && (forall|k: int| #[trigger]
            coeff(p, k) == conv_coeff(h, points_vanishing(d), k)));
    }
}

/// A canonical polynomial that vanishes at one point per degree of a
/// canonical monic divisor also vanishing there — points whose pairwise
/// differences have inverses — is an exact multiple of that divisor.
pub proof fn lemma_shared_roots_give_divisibility(n: Seq<nat>, t: Seq<nat>, d: Seq<nat>)
    requires
        bounded(n),
        is_canon(n),
        bounded(t),
        is_canon(t),
        t.len() == d.len() + 1,
        t.last() == 1,
        bounded(d),
        forall|i: int| 0 <= i < d.len() ==> peval(n, #[trigger] d[i]) == 0,
        forall|i: int| 0 <= i < d.len() ==> peval(t, #[trigger] d[i]) == 0,
        forall|i: int, j: int|
            0 <= i < j < d.len() ==> has_inverse(fsub(#[trigger] d[j], #[trigger] d[i])),
    ensures
        exact_divides(n, t),
{
    lemma_zeros();
    let v = points_vanishing(d);
    lemma_points_vanishing_props(d);
    // the divisor itself is the vanishing product of the points
    lemma_roots_give_product(t, d);
    let ht = choose|h: Seq<nat>|
        bounded(h) && (forall|k: int| #[trigger] coeff(t, k) == conv_coeff(h, v, k));
    let ch = canon(ht);
    lemma_canon_props(ht);
    let k1 = t.len() - 1;
    assert(coeff(t, k1) == 1);
    if ch.len() == 0 {
        lemma_conv_canon_left(ht, v, k1);
        assert(conv_coeff(ch, v, k1) == 0);
        assert(false);
    } else if ch.len() >= 2 {
        let k0 = ch.len() + v.len() - 2;
        lemma_conv_top(ch, v);
        lemma_conv_canon_left(ht, v, k0);
        assert(coeff(t, k0) == 0);
        assert(in_field(ch.last())) by {
            assert(coeff(ch, ch.len() - 1) == ch.last());
            lemma_coeff_in_field(ht);
        }
        lemma_fmul_basics(ch.last());
        assert(false);
    }
    assert(ch.len() == 1);
    let c = ch[0];
    assert(conv_coeff(ch, v, k1) == c) by {
        assert(ch.drop_first().len() == 0);
        assert(conv_coeff(ch.drop_first(), v, k1 - 1) == 0);
        assert(v[k1] == v.last());
        assert(in_field(c)) by {
            assert(coeff(ch, 0) == c);
            lemma_coeff_in_field(ht);
        }
        lemma_fmul_basics(c);
        lemma_fadd_zero(c);
    }
    lemma_conv_canon_left(ht, v, k1);
    assert(c == 1);
    assert forall|k: int| #[trigger] coeff(t, k) == coeff(v, k) by {
        lemma_conv_canon_left(ht, v, k);
        assert(ch =~= seq![1nat]);
        lemma_conv_one_left(v, k);
    }
    // the dividend is a multiple of the vanishing product, hence of `t`
    lemma_roots_give_product(n, d);
    let h = choose|h: Seq<nat>|
        bounded(h) && (forall|k: int| #[trigger] coeff(n, k) == conv_coeff(h, v, k));
    assert forall|k: int| #[trigger] coeff(n, k) == coeff(pv_mul(h, t), k) by {
        assert forall|i: int| #[trigger] coeff(v, i) == coeff(t, i) by {}
        lemma_conv_coeff_eq_right(h, v, t, k);
        lemma_pv_mul_coeff(h, t);
    }
    lemma_coeff_eq_canon(n, pv_mul(h, t));
    lemma_canon_props(n);
    assert(n == canon(pv_mul(h, t)));
}

/// Whether `d` divides `n` exactly, as canonical coefficient sequences.
pub open spec fn exact_divides(n: Seq<nat>, d: Seq<nat>) -> bool {
    exists|q: Seq<nat>| n == canon(pv_mul(q, d))
}

/// The coefficient function of a bounded sequence takes field values.
proof fn lemma_coeff_in_field(s: Seq<nat>)
    requires
        bounded(s),
    ensures
        forall|i: int| in_field(#[trigger] coeff(s, i)),
{
}

/// Adding a value and taking it away again is the identity.
proof fn lemma_fadd_fsub_cancel(x: nat, y: nat)
    requires
        in_field(x),
        in_field(y),
    ensures
        fadd(y, fsub(x, y)) == x,
        fsub(fadd(y, x), y) == x,
{
    lemma_fneg_cancel(y);
    lemma_fadd_swap3(y, x, fneg(y));
    lemma_fadd_zero(x);
    lemma_fadd_assoc(y, x, fneg(y));
}

/// Product coefficients are linear over subtraction in the left factor.
proof fn lemma_conv_sub_left(u: Seq<nat>, v: Seq<nat>, d: Seq<nat>, k: int)
    ensures
        conv_coeff(pv_sub(u, v), d, k) == fsub(conv_coeff(u, d, k), conv_coeff(v, d, k)),
{
    lemma_conv_left_dist(u, pv_neg(v), d, k);
    assert(pv_neg(v) =~= pv_scale((fr_order() - 1) as nat, v)) by {
        assert forall|i: int| 0 <= i < v.len() implies pv_neg(v)[i] == pv_scale(
            (fr_order() - 1) as nat,
            v,
        )[i] by {
            lemma_fneg_as_mul(v[i]);
        }
    }
    lemma_conv_scale((fr_order() - 1) as nat, v, d, k);
    lemma_fneg_as_mul(conv_coeff(v, d, k));
}

/// A nonzero remainder of degree below the divisor rules out an exact
/// quotient, when the divisor's leading coefficient has an inverse.
proof fn lemma_remainder_blocks(n: Seq<nat>, d: Seq<nat>, dinv: nat, qv: Seq<nat>, rem: Seq<nat>)
    requires
        d.len() > 0,
        is_canon(d),
        fmul(d.last(), dinv) == 1,
        is_canon(rem),
        bounded(rem),
        rem.len() > 0,
        rem.len() < d.len(),
        forall|i: int| #[trigger] coeff(n, i) == fadd(conv_coeff(qv, d, i), coeff(rem, i)),
    ensures
        !exact_divides(n, d),
{
    lemma_zeros();
    if exact_divides(n, d) {
        let q0 = choose|q: Seq<nat>| n == canon(pv_mul(q, d));
        let e = pv_sub(q0, qv);
        assert forall|i: int| #[trigger] conv_coeff(e, d, i) == coeff(rem, i) by {
            lemma_conv_sub_left(q0, qv, d, i);
            assert(conv_coeff(q0, d, i) == coeff(n, i)) by {
                lemma_canon_props(pv_mul(q0, d));
                lemma_pv_mul_coeff(q0, d);
            }
            lemma_conv_in_field(qv, d, i);
            lemma_coeff_in_field(rem);
            lemma_fadd_fsub_cancel(coeff(rem, i), conv_coeff(qv, d, i));
        }
        assert(bounded(e)) by {
            lemma_pv_add_coeff(q0, pv_neg(qv));
            assert forall|i: int| 0 <= i < e.len() implies in_field(e[i]) by {
                assert(coeff(e, i) == e[i]);
            }
        }
        let ce = canon(e);
        lemma_canon_props(e);
        if ce.len() == 0 {
            assert(conv_coeff(e, d, rem.len() - 1) == 0) by {
                lemma_conv_canon_left(e, d, rem.len() - 1);
            }
            assert(coeff(rem, rem.len() - 1) == rem.last());
        } else {
            let k0 = ce.len() + d.len() - 2;
            lemma_conv_top(ce, d);
            lemma_conv_canon_left(e, d, k0);
            assert(coeff(rem, k0) == 0);
            assert(fmul(ce.last(), d.last()) == 0);
            assert(ce.last() != 0);
            assert(in_field(ce.last())) by {
                assert(coeff(ce, ce.len() - 1) == ce.last());
                lemma_coeff_in_field(e);
            }
            lemma_fmul_assoc(ce.last(), d.last(), dinv);
            lemma_fmul_basics(ce.last());
            assert(false);
        }
    }
}

/// Cancellation: if two bounded coefficient sequences have the same product
/// with a divisor whose leading coefficient has an inverse, they have the
/// same coefficient function.
pub proof fn lemma_mul_cancellation(u: Seq<nat>, v: Seq<nat>, d: Seq<nat>, dinv: nat)
    requires
        bounded(u),
        bounded(v),
        d.len() > 0,
        is_canon(d),
        fmul(d.last(), dinv) == 1,
        forall|k: int| #[trigger] conv_coeff(u, d, k) == conv_coeff(v, d, k),
    ensures
        forall|i: int| #[trigger] coeff(u, i) == coeff(v, i),
{
    lemma_zeros();
    let e = pv_sub(u, v);
    assert forall|k: int| #[trigger] conv_coeff(e, d, k) == 0 by {
        lemma_conv_sub_left(u, v, d, k);
        lemma_conv_in_field(u, d, k);
        lemma_fneg_cancel(conv_coeff(u, d, k));
    }
    assert(bounded(e)) by {
        lemma_pv_add_coeff(u, pv_neg(v));
        assert forall|i: int| 0 <= i < e.len() implies in_field(e[i]) by {
            assert(coeff(e, i) == e[i]);
        }
    }
    let ce = canon(e);
    lemma_canon_props(e);
    if ce.len() > 0 {
        let k0 = ce.len() + d.len() - 2;
        lemma_conv_top(ce, d);
        lemma_conv_canon_left(e, d, k0);
        assert(fmul(ce.last(), d.last()) == 0);
        assert(ce.last() != 0);
        assert(in_field(ce.last())) by {
            assert(coeff(ce, ce.len() - 1) == ce.last());
            lemma_coeff_in_field(e);
        }
        lemma_fmul_assoc(ce.last(), d.last(), dinv);
        lemma_fmul_basics(ce.last());
        assert(false);
    }
    assert forall|i: int| #[trigger] coeff(u, i) == coeff(v, i) by {
        assert(coeff(e, i) == coeff(ce, i));
        lemma_pv_add_coeff(u, pv_neg(v));
        lemma_pv_neg_coeff(v);
        assert(coeff(e, i) == fsub(coeff(u, i), coeff(v, i)));
        lemma_coeff_in_field(u);
        lemma_coeff_in_field(v);
        if coeff(u, i) != coeff(v, i) {
            lemma_fsub_nonzero(coeff(u, i), coeff(v, i));
        }
    }
}

/// Exact quotients are unique: a canonical divisor whose leading coefficient
/// has the given inverse can be cancelled from a product.
pub proof fn lemma_quotient_unique(q1: Seq<nat>, q2: Seq<nat>, d: Seq<nat>, dinv: nat)
    requires
        bounded(q1),
        bounded(q2),
        is_canon(q1),
        is_canon(q2),
        d.len() > 0,
        is_canon(d),
        fmul(d.last(), dinv) == 1,
        canon(pv_mul(q1, d)) == canon(pv_mul(q2, d)),
    ensures
        q1 == q2,
{
    assert forall|k: int| #[trigger] conv_coeff(q1, d, k) == conv_coeff(q2, d, k) by {
        lemma_canon_props(pv_mul(q1, d));
        lemma_canon_props(pv_mul(q2, d));
        lemma_pv_mul_coeff(q1, d);
        lemma_pv_mul_coeff(q2, d);
        assert(coeff(pv_mul(q1, d), k) == conv_coeff(q1, d, k));
        assert(coeff(pv_mul(q2, d), k) == conv_coeff(q2, d, k));
        assert(coeff(canon(pv_mul(q1, d)), k) == coeff(pv_mul(q1, d), k));
        assert(coeff(canon(pv_mul(q2, d)), k) == coeff(pv_mul(q2, d), k));
        assert(coeff(canon(pv_mul(q1, d)), k) == coeff(canon(pv_mul(q2, d)), k));
    }
    lemma_mul_cancellation(q1, q2, d, dinv);
    lemma_canon_unique(q1, q2);
}

/// Product coefficients only depend on the canonical form of the right
/// factor.
proof fn lemma_conv_canon_right(a: Seq<nat>, b: Seq<nat>, k: int)
    ensures
        conv_coeff(a, b, k) == conv_coeff(a, canon(b), k),
{
    lemma_conv_comm(a, b, k);
    lemma_conv_canon_left(b, a, k);
    lemma_conv_comm(canon(b), a, k);
}

/// Addition of polynomials is commutative: `add(a, b)` and `add(b, a)` return
/// the same polynomial.
pub proof fn lemma_add_commutative(a: Seq<nat>, b: Seq<nat>)
    ensures
        canon(pv_add(a, b)) == canon(pv_add(b, a)),
{
    lemma_pv_add_coeff(a, b);
    lemma_pv_add_coeff(b, a);
    assert forall|i: int| #[trigger]
        coeff(pv_add(a, b), i) == coeff(pv_add(b, a), i) by {
        lemma_fadd_comm(coeff(a, i), coeff(b, i));
    }
    lemma_coeff_eq_canon(pv_add(a, b), pv_add(b, a));
}

/// Addition of polynomials is associative: `add(add(a, b), c)` and
/// `add(a, add(b, c))` return the same polynomial.
pub proof fn lemma_add_associative(a: Seq<nat>, b: Seq<nat>, c: Seq<nat>)
    ensures
        canon(pv_add(canon(pv_add(a, b)), c)) == canon(pv_add(a, canon(pv_add(b, c)))),
{
    lemma_canon_props(pv_add(a, b));
    lemma_canon_props(pv_add(b, c));
    lemma_pv_add_coeff(a, b);
    lemma_pv_add_coeff(b, c);
    lemma_pv_add_coeff(canon(pv_add(a, b)), c);
    lemma_pv_add_coeff(a, canon(pv_add(b, c)));
    assert forall|i: int| #[trigger]
        coeff(pv_add(canon(pv_add(a, b)), c), i) == coeff(pv_add(a, canon(pv_add(b, c))), i) by {
        lemma_fadd_assoc(coeff(a, i), coeff(b, i), coeff(c, i));
        assert(coeff(canon(pv_add(a, b)), i) == fadd(coeff(a, i), coeff(b, i)));
        assert(coeff(canon(pv_add(b, c)), i) == fadd(coeff(b, i), coeff(c, i)));
    }
    lemma_coeff_eq_canon(pv_add(canon(pv_add(a, b)), c), pv_add(a, canon(pv_add(b, c))));
}

/// Multiplication of polynomials is commutative: `mul(a, b)` and `mul(b, a)`
/// return the same polynomial.
pub proof fn lemma_mul_commutative(a: Seq<nat>, b: Seq<nat>)
    ensures
        canon(pv_mul(a, b)) == canon(pv_mul(b, a)),
{
    lemma_pv_mul_coeff(a, b);
    lemma_pv_mul_coeff(b, a);
    assert forall|i: int| #[trigger]
        coeff(pv_mul(a, b), i) == coeff(pv_mul(b, a), i) by {
        lemma_conv_comm(a, b, i);
    }
    lemma_coeff_eq_canon(pv_mul(a, b), pv_mul(b, a));
}

/// Multiplication of polynomials is associative: `mul(mul(a, b), c)` and
/// `mul(a, mul(b, c))` return the same polynomial.
pub proof fn lemma_mul_associative(a: Seq<nat>, b: Seq<nat>, c: Seq<nat>)
    ensures
        canon(pv_mul(canon(pv_mul(a, b)), c)) == canon(pv_mul(a, canon(pv_mul(b, c)))),
{
    lemma_pv_mul_coeff(canon(pv_mul(a, b)), c);
    lemma_pv_mul_coeff(a, canon(pv_mul(b, c)));
    assert forall|k: int| #[trigger]
        coeff(pv_mul(canon(pv_mul(a, b)), c), k) == coeff(pv_mul(a, canon(pv_mul(b, c))), k) by {
        lemma_conv_canon_left(pv_mul(a, b), c, k);
        lemma_conv_assoc(a, b, c, k);
        lemma_conv_canon_right(a, pv_mul(b, c), k);
    }
    lemma_coeff_eq_canon(pv_mul(canon(pv_mul(a, b)), c), pv_mul(a, canon(pv_mul(b, c))));
}

/// Multiplication distributes over addition: `mul(a, add(b, c))` and
/// `add(mul(a, b), mul(a, c))` return the same polynomial.
pub proof fn lemma_mul_distributive(a: Seq<nat>, b: Seq<nat>, c: Seq<nat>)
    ensures
        canon(pv_mul(a, canon(pv_add(b, c)))) == canon(
            pv_add(canon(pv_mul(a, b)), canon(pv_mul(a, c))),
        ),
{
    lemma_pv_mul_coeff(a, canon(pv_add(b, c)));
    lemma_pv_add_coeff(canon(pv_mul(a, b)), canon(pv_mul(a, c)));
    lemma_canon_props(pv_mul(a, b));
    lemma_canon_props(pv_mul(a, c));
    lemma_pv_mul_coeff(a, b);
    lemma_pv_mul_coeff(a, c);
    assert forall|k: int| #[trigger]
        coeff(pv_mul(a, canon(pv_add(b, c))), k) == coeff(
            pv_add(canon(pv_mul(a, b)), canon(pv_mul(a, c))),
            k,
        ) by {
        lemma_conv_canon_right(a, pv_add(b, c), k);
        lemma_conv_dist(a, b, c, k);
        assert(coeff(canon(pv_mul(a, b)), k) == conv_coeff(a, b, k));
        assert(coeff(canon(pv_mul(a, c)), k) == conv_coeff(a, c, k));
    }
    lemma_coeff_eq_canon(
        pv_mul(a, canon(pv_add(b, c))),
        pv_add(canon(pv_mul(a, b)), canon(pv_mul(a, c))),
    );
}

/// Evaluating a negation gives the field negation of the value.
pub proof fn lemma_peval_neg(s: Seq<nat>, x: nat)
    ensures
        peval(pv_neg(s), x) == fneg(peval(s, x)),
{
    assert(pv_neg(s) =~= pv_scale((fr_order() - 1) as nat, s)) by {
        assert forall|i: int| 0 <= i < s.len() implies pv_neg(s)[i] == pv_scale(
            (fr_order() - 1) as nat,
            s,
        )[i] by {
            lemma_fneg_as_mul(s[i]);
        }
    }
    lemma_peval_scale((fr_order() - 1) as nat, s, x);
    lemma_fneg_as_mul(peval(s, x));
}

/// Evaluating `sub(a, b)` gives the field difference of the two values.
pub proof fn lemma_peval_sub(u: Seq<nat>, v: Seq<nat>, x: nat)
    requires
        bounded(u),
    ensures
        peval(pv_sub(u, v), x) == fsub(peval(u, x), peval(v, x)),
{
    assert(bounded(pv_neg(v))) by {
        assert forall|i: int| 0 <= i < pv_neg(v).len() implies in_field(pv_neg(v)[i]) by {
            assert(pv_neg(v)[i] == fneg(v[i]));
        }
    }
    lemma_peval_add(u, pv_neg(v), x);
    lemma_peval_neg(v, x);
}

/// Evaluating `add(a, b)` gives the field sum of the two values.
pub proof fn lemma_eval_additive(a: Seq<nat>, b: Seq<nat>, x: nat)
    requires
        bounded(a),
        bounded(b),
    ensures
        peval(canon(pv_add(a, b)), x) == fadd(peval(a, x), peval(b, x)),
{
    lemma_peval_canon(pv_add(a, b), x);
    lemma_peval_add(a, b, x);
}

/// Evaluating `mul(a, b)` gives the field product of the two values.
pub proof fn lemma_eval_multiplicative(a: Seq<nat>, b: Seq<nat>, x: nat)
    ensures
        peval(canon(pv_mul(a, b)), x) == fmul(peval(a, x), peval(b, x)),
{
    lemma_peval_canon(pv_mul(a, b), x);
    lemma_peval_mul(a, b, x);
}

/// Two well-formed polynomials with the same coefficient function are the
/// same polynomial: equality does not leak non-canonical representations.
pub proof fn lemma_poly_unique(p: Seq<nat>, q: Seq<nat>)
    requires
        is_canon(p),
        is_canon(q),
        forall|i: int| #[trigger] coeff(p, i) == coeff(q, i),
    ensures
        p == q,
{
    lemma_canon_unique(p, q);
}

/// The coefficient function of a negation.
proof fn lemma_pv_neg_coeff(s: Seq<nat>)
    ensures
        forall|i: int| #[trigger] coeff(pv_neg(s), i) == fneg(coeff(s, i)),
{
    assert forall|i: int| #[trigger] coeff(pv_neg(s), i) == fneg(coeff(s, i)) by {
        if !(0 <= i < s.len()) {
            lemma_fneg_cancel(0);
        }
    }
}

impl Poly {
    /// Build a polynomial from coefficients, least significant first,
    /// stripping trailing zeros.
    pub fn new(coeffs: Vec<Fr>) -> (r: Poly)
        ensures
            r@ == canon(vals(coeffs@)),
            bounded(vals(coeffs@)) ==> r.wf(),
    {
        let ghost orig = vals(coeffs@);
        let mut c = coeffs;
        proof {
            lemma_canon_props(orig);
        }
        while c.len() > 0 && fr_is_zero(&c[c.len() - 1])
            invariant
                canon(vals(c@)) == canon(orig),
                bounded(orig) ==> bounded(vals(c@)),
            decreases c@.len(),
        {
            proof {
                assert(vals(c@).last() == c@.last()@);
            }
            let ghost pre = c@;
            let _ = c.pop();
            proof {
                assert(vals(c@) =~= vals(pre).drop_last()) by {
                    assert(c@ =~= pre.drop_last());
                }
                assert(canon(vals(pre)) == canon(vals(pre).drop_last()));
                assert forall|i: int| 0 <= i < vals(c@).len() implies in_field(vals(c@)[i])
                    || !bounded(orig) by {
                    if bounded(orig) {
                        assert(vals(pre)[i] == vals(c@)[i]);
                    }
                }
            }
        }
        proof {
            if vals(c@).len() > 0 {
                assert(vals(c@).last() == c@.last()@);
            }
            assert(is_canon(vals(c@)));
            lemma_canon_props(vals(c@));
        }
        Poly(c)
    }

    /// Build a polynomial from signed integer coefficients.
    pub fn new_from_i64(coeffs: Vec<i64>) -> (r: Poly)
        ensures
            r@ == canon(crate::utils::field_row(coeffs@)),
            r.wf(),
    {
        let v = crate::utils::witness_to_scalar(&coeffs);
        Poly::new(v)
    }

    /// A copy of the polynomial with the same coefficients.
    pub(crate) fn duplicate(&self) -> (r: Poly)
        ensures
            r@ == self@,
    {
        let mut out: Vec<Fr> = Vec::new();
        let mut i: usize = 0;
        while i < self.0.len()
            invariant
                i <= self.0@.len(),
                out@.len() == i,
                forall|j: int| 0 <= j < i ==> out@[j] == self.0@[j],
            decreases self.0@.len() - i,
        {
            let c = self.0[i];
            out.push(c);
            i = i + 1;
        }
        proof {
            assert(out@ =~= self.0@);
            assert(vals(out@) =~= vals(self.0@));
        }
        Poly(out)
    }

    /// The coefficient of `x^i`, zero above the degree.
    pub fn coefficient(&self, i: usize) -> (r: Fr)
        requires
            bounded(self@),
        ensures
            r@ == coeff(self@, i as int),
            in_field(r@),
    {
        if i < self.0.len() {
            let c = self.0[i];
            proof {
                assert(self@[i as int] == self.0@[i as int]@);
            }
            c
        } else {
            fr_from_u64(0)
        }
    }

    /// The index of the highest nonzero coefficient, `-1` for the zero
    /// polynomial.
    pub fn degree(&self) -> (r: i32)
        requires
            self.wf(),
            self@.len() < 0x8000_0000,
        ensures
            self@.len() == 0 ==> r == -1,
            self@.len() > 0 ==> r == self@.len() - 1 && coeff(self@, r as int) != 0,
    {
        if self.0.len() == 0 {
            -1
        } else {
            (self.0.len() - 1) as i32
        }
    }

    /// The highest coefficient; defined only for nonzero polynomials.
    pub fn leading_coefficient(&self) -> (r: Fr)
        requires
            bounded(self@),
            self@.len() > 0,
        ensures
            r@ == self@.last(),
            in_field(r@),
    {
        let c = self.0[self.0.len() - 1];
        proof {
            assert(self@[self@.len() - 1] == self.0@[self.0@.len() - 1]@);
        }
        c
    }

    /// The value of the polynomial at `x`, by Horner's rule.
    pub fn eval(&self, x: Fr) -> (r: Fr)
        requires
            bounded(self@),
            in_field(x@),
        ensures
            r@ == peval(self@, x@),
            in_field(r@),
    {
        let mut res = fr_from_u64(0);
        let mut i = self.0.len();
        proof {
            assert(self@.skip(i as int).len() == 0);
        }
        while i > 0
            invariant
                i <= self.0.len(),
                self@.len() == self.0@.len(),
                bounded(self@),
                in_field(x@),
                res@ == peval(self@.skip(i as int), x@),
                in_field(res@),
            decreases i,
        {
            i = i - 1;
            let term = fr_mul(&x, &res);
            let c = self.0[i];
            proof {
                assert(self@[i as int] == self.0@[i as int]@);
                assert(self@.skip(i as int).drop_first() =~= self@.skip(i as int + 1));
                assert(self@.skip(i as int)[0] == self@[i as int]);
            }
            res = fr_add(&c, &term);
        }
        proof {
            assert(self@.skip(0) =~= self@);
        }
        res
    }

    /// Coefficientwise sum, on borrowed operands.
    fn add_impl(a: &Poly, b: &Poly) -> (r: Poly)
        requires
            a.wf(),
            b.wf(),
        ensures
            r@ == canon(pv_add(a@, b@)),
            r.wf(),
    {
        let n = if a.0.len() >= b.0.len() {
            a.0.len()
        } else {
            b.0.len()
        };
        let mut out: Vec<Fr> = Vec::new();
        let mut k: usize = 0;
        while k < n
            invariant
                k <= n,
                out@.len() == k,
                a.wf(),
                b.wf(),
                n == if a@.len() >= b@.len() {
                    a@.len()
                } else {
                    b@.len()
                },
                forall|i: int| 0 <= i < k ==> vals(out@)[i] == fadd(coeff(a@, i), coeff(b@, i)),
                bounded(vals(out@)),
            decreases n - k,
        {
            let ca = a.coefficient(k);
            let cb = b.coefficient(k);
            let s = fr_add(&ca, &cb);
            let ghost pre = out@;
            out.push(s);
            proof {
                assert(vals(out@) =~= vals(pre).push(s@));
            }
            k = k + 1;
        }
        proof {
            assert(vals(out@) =~= pv_add(a@, b@));
        }
        Poly::new(out)
    }

    /// Coefficientwise negation, on a borrowed operand.
    fn neg_impl(a: &Poly) -> (r: Poly)
        requires
            a.wf(),
        ensures
            r@ == pv_neg(a@),
            r.wf(),
    {
        let mut out: Vec<Fr> = Vec::new();
        let mut k: usize = 0;
        while k < a.0.len()
            invariant
                k <= a@.len(),
                out@.len() == k,
                a.wf(),
                a@.len() == a.0@.len(),
                forall|i: int| 0 <= i < k ==> vals(out@)[i] == fneg(a@[i]),
                bounded(vals(out@)),
            decreases a@.len() - k,
        {
            let c = a.0[k];
            proof {
                assert(a@[k as int] == a.0@[k as int]@);
            }
            let nc = fr_neg(&c);
            proof {
                lemma_fneg_cancel(c@);
            }
            let ghost pre = out@;
            out.push(nc);
            proof {
                assert(vals(out@) =~= vals(pre).push(nc@));
            }
            k = k + 1;
        }
        proof {
            assert(vals(out@) =~= pv_neg(a@));
            if a@.len() > 0 {
                lemma_fneg_cancel(a@.last());
                assert(pv_neg(a@).last() == fneg(a@.last()));
            }
            assert(is_canon(pv_neg(a@)));
            lemma_canon_props(pv_neg(a@));
        }
        Poly::new(out)
    }

    /// Product of two polynomials, on borrowed operands.
    fn mul_impl(a: &Poly, b: &Poly) -> (r: Poly)
        requires
            a.wf(),
            b.wf(),
            a@.len() + b@.len() <= usize::MAX,
        ensures
            r@ == canon(pv_mul(a@, b@)),
            r.wf(),
    {
        if a.0.len() == 0 || b.0.len() == 0 {
            let r = Poly(Vec::new());
            proof {
                assert(r@ =~= Seq::<nat>::empty());
                assert(pv_mul(a@, b@) =~= Seq::<nat>::empty());
            }
            return r;
        }
        let n = a.0.len() + b.0.len() - 1;
        let mut out: Vec<Fr> = Vec::new();
        let mut k: usize = 0;
        while k < n
            invariant
                k <= n,
                out@.len() == k,
                a.wf(),
                b.wf(),
                a@.len() > 0,
                b@.len() > 0,
                a@.len() == a.0@.len(),
                b@.len() == b.0@.len(),
                n == a@.len() + b@.len() - 1,
                forall|i: int| 0 <= i < k ==> vals(out@)[i] == conv_coeff(a@, b@, i),
                bounded(vals(out@)),
            decreases n - k,
        {
            let mut acc = fr_from_u64(0);
            let mut i: usize = 0;
            proof {
                assert(a@.skip(0) =~= a@);
                lemma_conv_in_field(a@, b@, k as int);
                lemma_fadd_zero(conv_coeff(a@, b@, k as int));
            }
            while i < a.0.len()
                invariant
                    i <= a@.len(),
                    a.wf(),
                    b.wf(),
                    a@.len() == a.0@.len(),
                    b@.len() == b.0@.len(),
                    in_field(acc@),
                    fadd(acc@, conv_coeff(a@.skip(i as int), b@, k - i)) == conv_coeff(
                        a@,
                        b@,
                        k as int,
                    ),
                decreases a@.len() - i,
            {
                proof {
                    assert(a@.skip(i as int).drop_first() =~= a@.skip(i as int + 1));
                    assert(a@.skip(i as int)[0] == a@[i as int]);
                    lemma_conv_in_field(a@.skip(i as int + 1), b@, k - i - 1);
                }
                let ghost rest = conv_coeff(a@.skip(i as int + 1), b@, k - i - 1);
                if i <= k && k - i < b.0.len() {
                    let ai = a.0[i];
                    let bj = b.0[k - i];
                    proof {
                        assert(a@[i as int] == a.0@[i as int]@);
                        assert(b@[k - i] == b.0@[k - i]@);
                    }
                    let t = fr_mul(&ai, &bj);
                    proof {
                        lemma_fadd_assoc(acc@, t@, rest);
                    }
                    acc = fr_add(&acc, &t);
                } else {
                    proof {
                        lemma_fadd_zero(rest);
                    }
                }
                i = i + 1;
            }
            proof {
                assert(a@.skip(a@.len() as int).len() == 0);
                lemma_fadd_zero(acc@);
            }
            let ghost pre = out@;
            out.push(acc);
            proof {
                assert(vals(out@) =~= vals(pre).push(acc@));
            }
            k = k + 1;
        }
        proof {
            assert(vals(out@) =~= pv_mul(a@, b@));
        }
        Poly::new(out)
    }

    /// Sum of two polynomials; adding the zero polynomial returns the other
    /// operand's canonical form.
    pub fn add(lhs: Poly, rhs: Poly) -> (r: Poly)
        requires
            lhs.wf(),
            rhs.wf(),
        ensures
            r@ == canon(pv_add(lhs@, rhs@)),
            r.wf(),
    {
        Poly::add_impl(&lhs, &rhs)
    }

    /// Negation of a polynomial.
    pub fn neg(lhs: Poly) -> (r: Poly)
        requires
            lhs.wf(),
        ensures
            r@ == pv_neg(lhs@),
            r.wf(),
    {
        Poly::neg_impl(&lhs)
    }

    /// Difference of two polynomials.
    pub fn sub(lhs: Poly, rhs: Poly) -> (r: Poly)
        requires
            lhs.wf(),
            rhs.wf(),
        ensures
            r@ == canon(pv_sub(lhs@, rhs@)),
            r.wf(),
    {
        let n = Poly::neg_impl(&rhs);
        Poly::add_impl(&lhs, &n)
    }

    /// Lagrange interpolation: the polynomial of degree below `domain.len()`
    /// that takes value `values[i]` at `domain[i]`, for pairwise-distinct
    /// domain points.
    pub fn interpolate(domain: Vec<Fr>, values: Vec<Fr>) -> (r: Poly)
        requires
            domain@.len() == values@.len(),
            domain@.len() > 0,
            domain@.len() < usize::MAX - 1,
            bounded(vals(domain@)),
            bounded(vals(values@)),
            forall|i: int, j: int|
                0 <= i < j < domain@.len() ==> vals(domain@)[i] != vals(domain@)[j],
        ensures
            r.wf(),
            r@.len() <= domain@.len(),
            forall|i: int|
                0 <= i < domain@.len() ==> peval(r@, vals(domain@)[i]) == vals(values@)[i],
    {
        Poly::interpolate_impl(&domain, &values)
    }

    /// Lagrange interpolation on borrowed operands.
    pub(crate) fn interpolate_impl(domain: &Vec<Fr>, values: &Vec<Fr>) -> (r: Poly)
        requires
            domain@.len() == values@.len(),
            domain@.len() > 0,
            domain@.len() < usize::MAX - 1,
            bounded(vals(domain@)),
            bounded(vals(values@)),
            forall|i: int, j: int|
                0 <= i < j < domain@.len() ==> vals(domain@)[i] != vals(domain@)[j],
        ensures
            r.wf(),
            r@.len() <= domain@.len(),
            forall|i: int|
                0 <= i < domain@.len() ==> peval(r@, vals(domain@)[i]) == vals(values@)[i],
    {
        let ghost dv = vals(domain@);
        let ghost vv = vals(values@);
        let n = domain.len();
        let mut acc = Poly(Vec::new());
        proof {
            assert(acc@ =~= Seq::<nat>::empty());
            lemma_zeros();
        }
        let mut i: usize = 0;
        while i < n
            invariant
                i <= n,
                n == domain@.len(),
                domain@.len() == values@.len(),
                n < usize::MAX - 1,
                dv == vals(domain@),
                vv == vals(values@),
                bounded(dv),
                bounded(vv),
                forall|a: int, b: int| 0 <= a < b < n ==> dv[a] != dv[b],
                acc.wf(),
                acc@.len() <= n,
                forall|j: int|
                    0 <= j < n ==> peval(acc@, dv[j]) == (if j < i {
                        vv[j]
                    } else {
                        0
                    }),
            decreases n - i,
        {
            let vi = values[i];
            proof {
                assert(vv[i as int] == values@[i as int]@);
            }
            let mut bv: Vec<Fr> = Vec::new();
            bv.push(vi);
            let basis0 = Poly::new(bv);
            proof {
                assert(vals(bv@) =~= seq![vv[i as int]]);
                lemma_canon_props(seq![vv[i as int]]);
                assert(basis0@.len() <= 1);
                assert forall|z: nat| #[trigger] peval(basis0@, z) == vv[i as int] by {
                    lemma_peval_canon(seq![vv[i as int]], z);
                    lemma_peval_single(vv[i as int], z);
                }
            }
            let mut basis = basis0;
            let mut j: usize = 0;
            while j < n
                invariant
                    j <= n,
                    i < n,
                    n == domain@.len(),
                    domain@.len() == values@.len(),
                    n < usize::MAX - 1,
                    dv == vals(domain@),
                    vv == vals(values@),
                    bounded(dv),
                    bounded(vv),
                    forall|a: int, b: int| 0 <= a < b < n ==> dv[a] != dv[b],
                    basis.wf(),
                    basis@.len() <= 1 + (if j <= i {
                        j as int
                    } else {
                        j - 1
                    }),
                    peval(basis@, dv[i as int]) == vv[i as int],
                    forall|t: int| 0 <= t < j && t != i ==> peval(basis@, dv[t]) == 0,
                decreases n - j,
            {
                if j != i {
                    let dj = domain[j];
                    let di = domain[i];
                    proof {
                        assert(dv[j as int] == domain@[j as int]@);
                        assert(dv[i as int] == domain@[i as int]@);
                        assert(dv[i as int] != dv[j as int]);
                        lemma_fsub_nonzero(dv[i as int], dv[j as int]);
                    }
                    let diff = fr_sub(&di, &dj);
                    let cinv = fr_inv(&diff);
                    let ndj = fr_neg(&dj);
                    let one = fr_from_u64(1);
                    let mut lv: Vec<Fr> = Vec::new();
                    lv.push(ndj);
                    lv.push(one);
                    let lin = Poly(lv);
                    proof {
                        assert(lin@ =~= seq![fneg(dv[j as int]), 1nat]);
                        lemma_fneg_cancel(dv[j as int]);
                        assert(lin.wf());
                    }
                    let mut cv: Vec<Fr> = Vec::new();
                    cv.push(cinv);
                    let cpoly = Poly(cv);
                    proof {
                        assert(cpoly@ =~= seq![cinv@]);
                        lemma_zeros();
                        assert(cinv@ != 0) by {
                            if cinv@ == 0 {
                                assert(fmul(diff@, 0) == 0);
                            }
                        }
                        assert(cpoly.wf());
                    }
                    let b2 = Poly::mul_impl(&basis, &lin);
                    proof {
                        lemma_canon_props(pv_mul(basis@, lin@));
                        assert(b2@.len() <= basis@.len() + 1);
                    }
                    let b3 = Poly::mul_impl(&b2, &cpoly);
                    proof {
                        lemma_zeros();
                        assert forall|z: nat| in_field(z) implies #[trigger] peval(b3@, z)
                            == fmul(fmul(peval(basis@, z), fsub(z, dv[j as int])), cinv@) by {
                            lemma_peval_canon(pv_mul(basis@, lin@), z);
                            lemma_peval_mul(basis@, lin@, z);
                            lemma_peval_canon(pv_mul(b2@, cpoly@), z);
                            lemma_peval_mul(b2@, cpoly@, z);
                            lemma_peval_linear(dv[j as int], z);
                            lemma_peval_single(cinv@, z);
                        }
                        // at the point `i` the two new factors cancel
                        assert(peval(b3@, dv[i as int]) == vv[i as int]) by {
                            let old = peval(basis@, dv[i as int]);
                            lemma_peval_in_field(basis@, dv[i as int]);
                            lemma_fmul_assoc(old, diff@, cinv@);
                            lemma_fmul_basics(old);
                        }
                        // at every processed point the value stays zero, and
                        // at the new point `j` the linear factor is zero
                        assert forall|t: int| 0 <= t < j + 1 && t != i implies peval(b3@, dv[t])
                            == 0 by {
                            if t < j {
                                assert(peval(basis@, dv[t]) == 0);
                            } else {
                                lemma_fneg_cancel(dv[j as int]);
                                lemma_peval_in_field(basis@, dv[t]);
                                lemma_fmul_basics(peval(basis@, dv[t]));
                            }
                        }
                        // the degree grows by at most one
                        assert(b3@.len() <= basis@.len() + 1) by {
                            lemma_canon_props(pv_mul(basis@, lin@));
                            lemma_canon_props(pv_mul(b2@, cpoly@));
                        }
                    }
                    basis = b3;
                }
                j = j + 1;
            }
            let ghost accv = acc@;
            let new_acc = Poly::add_impl(&acc, &basis);
            proof {
                lemma_zeros();
                assert forall|t: int| 0 <= t < n implies peval(new_acc@, dv[t]) == (if t < i + 1 {
                    vv[t]
                } else {
                    0
                }) by {
                    lemma_peval_canon(pv_add(accv, basis@), dv[t]);
                    lemma_peval_add(accv, basis@, dv[t]);
                    if t < i {
                        lemma_fadd_zero(vv[t]);
                    } else if t == i {
                        lemma_fadd_zero(vv[t]);
                        lemma_fadd_comm(vv[t], 0);
                    }
                }
                lemma_canon_props(pv_add(accv, basis@));
            }
            acc = new_acc;
            i = i + 1;
        }
        acc
    }

    /// Exact division: `Ok(q)` with `lhs == q * rhs` when the division has no
    /// remainder, `Err` when `rhs` is the zero polynomial or the remainder is
    /// nonzero.
    pub fn div(lhs: Poly, rhs: Poly) -> (r: Result<Poly, ()>)
        requires
            lhs.wf(),
            rhs.wf(),
            lhs@.len() < usize::MAX - 1,
        ensures
            match r {
                Ok(q) => q.wf() && rhs@.len() > 0 && lhs@ == canon(pv_mul(q@, rhs@)) && (lhs@.len()
                    >= rhs@.len() ==> q@.len() + rhs@.len() <= lhs@.len() + 1) && (lhs@.len()
                    < rhs@.len() ==> q@.len() == 0),
                Err(e) => rhs@.len() == 0 || !exact_divides(lhs@, rhs@),
            },
    {
        if rhs.0.len() == 0 {
            return Err(());
        }
        let dlen = rhs.0.len();
        let dlead = rhs.leading_coefficient();
        proof {
            assert(rhs@.last() != 0);
        }
        let linv = fr_inv(&dlead);
        let qlen = if lhs.0.len() >= dlen {
            lhs.0.len() - dlen + 1
        } else {
            0
        };
        let mut quot: Vec<Fr> = Vec::new();
        let mut z: usize = 0;
        while z < qlen
            invariant
                z <= qlen,
                quot@.len() == z,
                forall|i: int| 0 <= i < z ==> vals(quot@)[i] == 0,
                bounded(vals(quot@)),
            decreases qlen - z,
        {
            let ghost pre = quot@;
            let zero = fr_from_u64(0);
            quot.push(zero);
            proof {
                assert(vals(quot@) =~= vals(pre).push(0nat));
            }
            z = z + 1;
        }
        let mut rem = lhs;
        proof {
            assert forall|i: int| #[trigger]
                coeff(lhs@, i) == fadd(conv_coeff(vals(quot@), rhs@, i), coeff(rem@, i)) by {
                assert forall|j: int| #[trigger]
                    coeff(vals(quot@), j) == coeff(Seq::<nat>::empty(), j) by {}
                lemma_conv_coeff_eq_left(vals(quot@), Seq::<nat>::empty(), rhs@, i);
                lemma_coeff_in_field(lhs@);
                lemma_fadd_zero(coeff(lhs@, i));
            }
        }
        while rem.0.len() >= dlen
            invariant
                rhs.wf(),
                rem.wf(),
                dlen == rhs@.len(),
                dlen >= 1,
                rem@.len() <= lhs@.len(),
                lhs@.len() < usize::MAX - 1,
                lhs.wf(),
                quot@.len() == qlen,
                qlen == if lhs@.len() >= dlen {
                    lhs@.len() - dlen + 1
                } else {
                    0
                },
                bounded(vals(quot@)),
                in_field(linv@),
                fmul(rhs@.last(), linv@) == 1,
                forall|i: int| #[trigger]
                    coeff(lhs@, i) == fadd(conv_coeff(vals(quot@), rhs@, i), coeff(rem@, i)),
                forall|i: int| 0 <= i < rem@.len() - dlen + 1 ==> vals(quot@)[i] == 0,
            decreases rem@.len(),
        {
            let shift = rem.0.len() - dlen;
            let rlead = rem.leading_coefficient();
            let c = fr_mul(&rlead, &linv);
            proof {
                lemma_fmul_assoc(rem@.last(), linv@, rhs@.last());
                lemma_fmul_comm(linv@, rhs@.last());
                lemma_fmul_assoc(rem@.last(), rhs@.last(), linv@);
                lemma_fmul_basics(rem@.last());
                assert(fmul(c@, rhs@.last()) == rem@.last()) by {
                    lemma_fmul_assoc(rem@.last(), linv@, rhs@.last());
                }
                if c@ == 0 {
                    assert(fmul(0, rhs@.last()) == 0) by {
                        lemma_zeros();
                    }
                }
                assert(c@ != 0);
            }
            // the monomial c * x^shift
            let mut mono: Vec<Fr> = Vec::new();
            let mut z2: usize = 0;
            while z2 < shift
                invariant
                    z2 <= shift,
                    mono@.len() == z2,
                    forall|i: int| 0 <= i < z2 ==> vals(mono@)[i] == 0,
                    bounded(vals(mono@)),
                decreases shift - z2,
            {
                let ghost pre = mono@;
                let zero = fr_from_u64(0);
                mono.push(zero);
                proof {
                    assert(vals(mono@) =~= vals(pre).push(0nat));
                }
                z2 = z2 + 1;
            }
            let ghost pre = mono@;
            mono.push(c);
            proof {
                assert(vals(mono@) =~= vals(pre).push(c@));
            }
            let m = Poly(mono);
            proof {
                assert(m@.last() == c@);
                assert(m@.len() == shift + 1);
            }
            let prod = Poly::mul_impl(&m, &rhs);
            proof {
                lemma_conv_top(m@, rhs@);
                assert(pv_mul(m@, rhs@).last() == conv_coeff(m@, rhs@, rem@.len() - 1));
                assert(pv_mul(m@, rhs@).last() == rem@.last());
                lemma_canon_props(pv_mul(m@, rhs@));
                assert(prod@ == pv_mul(m@, rhs@));
                assert(prod@.len() == rem@.len());
                lemma_pv_mul_coeff(m@, rhs@);
            }
            let ghost quotv_old = vals(quot@);
            quot.set(shift, c);
            proof {
                assert(vals(quot@) =~= quotv_old.update(shift as int, c@));
                lemma_coeff_in_field(quotv_old);
                assert forall|i: int| #[trigger]
                    coeff(vals(quot@), i) == fadd(coeff(quotv_old, i), coeff(m@, i)) by {
                    if i == shift {
                        assert(coeff(quotv_old, i) == 0);
                        lemma_fadd_zero(c@);
                        lemma_fadd_comm(c@, 0);
                    } else {
                        assert(coeff(m@, i) == 0);
                        lemma_fadd_zero(coeff(quotv_old, i));
                    }
                }
            }
            let negp = Poly::neg_impl(&prod);
            let new_rem = Poly::add_impl(&rem, &negp);
            proof {
                let quotv = vals(quot@);
                let remv = rem@;
                let newv = new_rem@;
                lemma_canon_props(pv_sub(remv, prod@));
                lemma_pv_add_coeff(remv, pv_neg(prod@));
                lemma_pv_neg_coeff(prod@);
                lemma_coeff_in_field(remv);
                // the new remainder is shorter
                assert(pv_sub(remv, prod@).last() == fsub(remv.last(), prod@.last())) by {
                    assert(coeff(remv, remv.len() - 1) == remv.last());
                    assert(coeff(prod@, remv.len() - 1) == prod@.last());
                }
                lemma_fneg_cancel(remv.last());
                assert(pv_sub(remv, prod@).last() == 0);
                assert(canon(pv_sub(remv, prod@)) == canon(pv_sub(remv, prod@).drop_last()));
                lemma_canon_props(pv_sub(remv, prod@).drop_last());
                assert(newv.len() < remv.len());
                // the division invariant is preserved
                assert forall|i: int| #[trigger]
                    coeff(lhs@, i) == fadd(conv_coeff(quotv, rhs@, i), coeff(newv, i)) by {
                    lemma_pv_add_coeff(quotv_old, m@);
                    assert forall|j: int| #[trigger]
                        coeff(quotv, j) == coeff(pv_add(quotv_old, m@), j) by {}
                    lemma_conv_coeff_eq_left(quotv, pv_add(quotv_old, m@), rhs@, i);
                    lemma_conv_left_dist(quotv_old, m@, rhs@, i);
                    let cq = conv_coeff(quotv_old, rhs@, i);
                    let cm = conv_coeff(m@, rhs@, i);
                    let cr = coeff(remv, i);
                    assert(coeff(newv, i) == fsub(cr, cm)) by {
                        assert(coeff(prod@, i) == cm);
                        assert(coeff(newv, i) == coeff(pv_sub(remv, prod@), i));
                    }
                    lemma_conv_in_field(quotv_old, rhs@, i);
                    lemma_conv_in_field(m@, rhs@, i);
                    lemma_fadd_assoc(cq, cm, fsub(cr, cm));
                    lemma_fadd_fsub_cancel(cr, cm);
                }
            }
            rem = new_rem;
        }
        if rem.0.len() == 0 {
            let ghost quotv = vals(quot@);
            let q = Poly::new(quot);
            proof {
                lemma_canon_props(quotv);
                assert forall|i: int| #[trigger]
                    coeff(lhs@, i) == coeff(pv_mul(q@, rhs@), i) by {
                    assert(coeff(rem@, i) == 0);
                    lemma_conv_in_field(quotv, rhs@, i);
                    lemma_fadd_zero(conv_coeff(quotv, rhs@, i));
                    lemma_conv_canon_left(quotv, rhs@, i);
                    lemma_pv_mul_coeff(q@, rhs@);
                }
                lemma_coeff_eq_canon(lhs@, pv_mul(q@, rhs@));
                lemma_canon_props(lhs@);
            }
            Ok(q)
        } else {
            proof {
                lemma_remainder_blocks(lhs@, rhs@, linv@, vals(quot@), rem@);
            }
            Err(())
        }
    }

    /// Product of two polynomials.
    pub fn mul(lhs: Poly, rhs: Poly) -> (r: Poly)
        requires
            lhs.wf(),
            rhs.wf(),
            lhs@.len() + rhs@.len() <= usize::MAX,
        ensures
            r@ == canon(pv_mul(lhs@, rhs@)),
            r.wf(),
    {
        Poly::mul_impl(&lhs, &rhs)
    }
}

} // verus!
