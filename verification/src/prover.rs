//! The proof generator: combine the column polynomials with the witness,
//! divide out the target polynomial, and commit to the result in the curve
//! groups with fresh blinding scalars.

use vstd::prelude::*;

use bls12_381::{G1Affine, G2Affine};

use crate::curve::{
    g1_add, g1_from_affine, g1_identity, g1_scale, g1_scale_proj, g1_to_affine, g2_add,
    g2_from_affine, g2_scale, g2_to_affine,
};
use crate::field::{fadd, fmul, fr_mul, fr_neg, fr_random, fsub, in_field, Fr};
use crate::poly::{
    bounded, canon, coeff, exact_divides, lemma_canon_props, lemma_coeff_eq_canon,
    lemma_peval_add, lemma_peval_canon, lemma_peval_coeff_eq, lemma_peval_mul, lemma_peval_scale,
    lemma_peval_sub, lemma_pv_add_coeff, lemma_shared_roots_give_divisibility, lemma_zeros,
    peval, pv_add, pv_mul, pv_scale, pv_sub, vals, Poly,
};
use crate::program::Program;
use crate::setup::TrustedSetup;
use crate::utils::{field_row, witness_to_scalar};
use crate::SnarkError;

verus! {

/// The first `j` summands of the linear combination `sum w_t * P_t`, at
/// coefficient `k`.
pub open spec fn combo_at(polys: Seq<Poly>, w: Seq<nat>, k: int, j: int) -> nat
    decreases j,
{
    if j <= 0 {
        0
    } else {
        fadd(combo_at(polys, w, k, j - 1), fmul(w[j - 1], coeff(polys[j - 1]@, k)))
    }
}

/// The linear combination `sum w_t * P_t` as a coefficient sequence of
/// length `m`.
pub open spec fn combo(polys: Seq<Poly>, w: Seq<nat>, m: nat) -> Seq<nat> {
    Seq::new(m, |k: int| combo_at(polys, w, k, w.len() as int))
}

/// The first `j` summands of the weighted value sum `sum w_t * P_t(x)`.
pub open spec fn combo_value(polys: Seq<Poly>, w: Seq<nat>, x: nat, j: int) -> nat
    decreases j,
{
    if j <= 0 {
        0
    } else {
        fadd(combo_value(polys, w, x, j - 1), fmul(w[j - 1], peval(polys[j - 1]@, x)))
    }
}

/// A partial combination coefficient only reads the weights before `j`.
proof fn lemma_combo_at_prefix(polys: Seq<Poly>, w: Seq<nat>, k: int, j: int)
    requires
        0 <= j <= w.len() - 1,
    ensures
        combo_at(polys, w, k, j) == combo_at(polys, w.drop_last(), k, j),
    decreases j,
{
    if j > 0 {
        lemma_combo_at_prefix(polys, w, k, j - 1);
        assert(w.drop_last()[j - 1] == w[j - 1]);
    }
}

/// A partial value sum only reads the weights before `j`.
proof fn lemma_combo_value_prefix(polys: Seq<Poly>, w: Seq<nat>, x: nat, j: int)
    requires
        0 <= j <= w.len() - 1,
    ensures
        combo_value(polys, w, x, j) == combo_value(polys, w.drop_last(), x, j),
    decreases j,
{
    if j > 0 {
        lemma_combo_value_prefix(polys, w, x, j - 1);
        assert(w.drop_last()[j - 1] == w[j - 1]);
    }
}

/// A partial combination coefficient is a field value.
proof fn lemma_combo_at_in_field(polys: Seq<Poly>, w: Seq<nat>, k: int, j: int)
    ensures
        in_field(combo_at(polys, w, k, j)),
{
    if j <= 0 {
    } else {
        assert(combo_at(polys, w, k, j) == fadd(
            combo_at(polys, w, k, j - 1),
            fmul(w[j - 1], coeff(polys[j - 1]@, k)),
        ));
    }
}

/// Evaluation commutes with the witness combination: the value of
/// `sum w_j * P_j` at `x` is the weighted sum of the `P_j(x)`.
pub proof fn lemma_combo_eval(polys: Seq<Poly>, w: Seq<nat>, m: nat, x: nat)
    requires
        w.len() <= polys.len(),
        forall|j: int| 0 <= j < polys.len() ==> (#[trigger] polys[j]).wf() && polys[j]@.len() <= m,
    ensures
        peval(combo(polys, w, m), x) == combo_value(polys, w, x, w.len() as int),
    decreases w.len(),
{
    if w.len() == 0 {
        let z = combo(polys, w, m);
        assert forall|i: int| #[trigger] coeff(z, i) == coeff(Seq::<nat>::empty(), i) by {}
        lemma_coeff_eq_canon(z, Seq::<nat>::empty());
        lemma_peval_canon(z, x);
        lemma_peval_canon(Seq::<nat>::empty(), x);
    } else {
        let w1 = w.drop_last();
        let jlast = w.len() - 1;
        let c = w[jlast];
        let p = polys[jlast];
        let padded = Seq::new(m, |k: int| coeff(p@, k));
        let scaled = pv_scale(c, padded);
        lemma_combo_eval(polys, w1, m, x);
        assert(combo(polys, w, m) =~= pv_add(combo(polys, w1, m), scaled)) by {
            assert forall|k: int| 0 <= k < m implies combo(polys, w, m)[k] == pv_add(
                combo(polys, w1, m),
                scaled,
            )[k] by {
                lemma_combo_at_prefix(polys, w, k, jlast);
                lemma_pv_add_coeff(combo(polys, w1, m), scaled);
                assert(scaled[k] == fmul(c, coeff(p@, k)));
                assert(coeff(combo(polys, w1, m), k) == combo_at(polys, w1, k, jlast));
                assert(combo_at(polys, w, k, w.len() as int) == fadd(
                    combo_at(polys, w, k, jlast),
                    fmul(c, coeff(p@, k)),
                ));
            }
        }
        assert(bounded(combo(polys, w1, m))) by {
            assert forall|k: int| 0 <= k < m implies in_field(combo(polys, w1, m)[k]) by {
                lemma_combo_at_in_field(polys, w1, k, w1.len() as int);
            }
        }
        assert(bounded(scaled)) by {
            assert forall|k: int| 0 <= k < m implies in_field(scaled[k]) by {
                assert(scaled[k] == fmul(c, coeff(p@, k)));
            }
        }
        lemma_peval_add(combo(polys, w1, m), scaled, x);
        lemma_peval_scale(c, padded, x);
        assert forall|i: int| #[trigger] coeff(padded, i) == coeff(p@, i) by {}
        lemma_peval_coeff_eq(padded, p@, x);
        lemma_combo_value_prefix(polys, w, x, jlast);
        assert(combo_value(polys, w, x, w.len() as int) == fadd(
            combo_value(polys, w, x, jlast),
            fmul(c, peval(p@, x)),
        ));
    }
}

/// The polynomial `A*B - C` built from the witness values `w`: the numerator
/// whose exact divisibility by the target decides witness satisfaction.
pub open spec fn qap_numerator(p: Program, w: Seq<nat>) -> Seq<nat> {
    canon(
        pv_sub(
            canon(
                pv_mul(
                    canon(combo(p.left@, w, p.rows as nat)),
                    canon(combo(p.right@, w, p.rows as nat)),
                ),
            ),
            canon(combo(p.output@, w, p.rows as nat)),
        ),
    )
}

/// The value of the witness numerator at a point is `A(x)*B(x) - C(x)`.
proof fn lemma_qap_numerator_value(p: Program, w: Seq<nat>, x: nat)
    requires
        p.wf(),
        bounded(w),
        w.len() == p.cols,
    ensures
        peval(qap_numerator(p, w), x) == fsub(
            fmul(
                combo_value(p.left@, w, x, w.len() as int),
                combo_value(p.right@, w, x, w.len() as int),
            ),
            combo_value(p.output@, w, x, w.len() as int),
        ),
{
    let m = p.rows as nat;
    let cl = canon(combo(p.left@, w, m));
    let cr = canon(combo(p.right@, w, m));
    let co = canon(combo(p.output@, w, m));
    assert(bounded(canon(pv_mul(cl, cr)))) by {
        lemma_canon_props(pv_mul(cl, cr));
        assert forall|i: int| 0 <= i < pv_mul(cl, cr).len() implies in_field(
            pv_mul(cl, cr)[i],
        ) by {
            crate::poly::lemma_pv_mul_coeff(cl, cr);
            crate::poly::lemma_conv_in_field(cl, cr, i);
        }
    }
    lemma_peval_canon(pv_sub(canon(pv_mul(cl, cr)), co), x);
    lemma_peval_sub(canon(pv_mul(cl, cr)), co, x);
    lemma_peval_canon(pv_mul(cl, cr), x);
    lemma_peval_mul(cl, cr, x);
    lemma_peval_canon(combo(p.left@, w, m), x);
    lemma_peval_canon(combo(p.right@, w, m), x);
    lemma_peval_canon(combo(p.output@, w, m), x);
    lemma_combo_eval(p.left@, w, m, x);
    lemma_combo_eval(p.right@, w, m, x);
    lemma_combo_eval(p.output@, w, m, x);
}

/// Soundness of the divisibility check: a witness whose numerator the target
/// polynomial divides satisfies every constraint row.  At each domain point,
/// the combined left and right values multiply to the combined output value.
pub proof fn lemma_accepted_witness_satisfies_rows(p: Program, w: Seq<nat>, x: nat)
    requires
        p.wf(),
        bounded(w),
        w.len() == p.cols,
        exact_divides(qap_numerator(p, w), p.t@),
        1 <= x <= p.rows,
    ensures
        fsub(
            fmul(
                combo_value(p.left@, w, x, w.len() as int),
                combo_value(p.right@, w, x, w.len() as int),
            ),
            combo_value(p.output@, w, x, w.len() as int),
        ) == 0,
{
    lemma_zeros();
    let num = qap_numerator(p, w);
    // the numerator vanishes on the domain, because the target does
    let q = choose|q: Seq<nat>| num == canon(pv_mul(q, p.t@));
    lemma_peval_canon(pv_mul(q, p.t@), x);
    lemma_peval_mul(q, p.t@, x);
    assert(peval(p.t@, x) == 0);
    assert(peval(num, x) == 0);
    lemma_qap_numerator_value(p, w, x);
}

/// The QAP law: a witness whose values satisfy every constraint row — at
/// each domain point the combined left and right values multiply to the
/// combined output value — yields a numerator that the target polynomial
/// divides exactly.  With `prove`'s contract this gives completeness:
/// `prove` succeeds on every satisfying witness of the right length.  That
/// the values below `rows` have inverses holds in the field, the order being
/// prime; the proof takes it as a hypothesis because it cannot compute them.
pub proof fn lemma_satisfying_witness_divides(p: Program, w: Seq<nat>)
    requires
        p.wf(),
        bounded(w),
        w.len() == p.cols,
        forall|x: nat|
            1 <= x <= p.rows ==> fsub(
                fmul(
                    combo_value(p.left@, w, x, w.len() as int),
                    combo_value(p.right@, w, x, w.len() as int),
                ),
                combo_value(p.output@, w, x, w.len() as int),
            ) == 0,
        forall|u: nat| 1 <= u < p.rows ==> crate::field::has_inverse(u),
    ensures
        exact_divides(qap_numerator(p, w), p.t@),
{
    let d = Seq::new(p.rows as nat, |i: int| (i + 1) as nat);
    let num = qap_numerator(p, w);
    let m = p.rows as nat;
    assert(bounded(num) && crate::poly::is_canon(num)) by {
        let cl = canon(combo(p.left@, w, m));
        let cr = canon(combo(p.right@, w, m));
        let co = canon(combo(p.output@, w, m));
        let s = pv_sub(canon(pv_mul(cl, cr)), co);
        assert(bounded(s)) by {
            crate::poly::lemma_pv_add_coeff(canon(pv_mul(cl, cr)), crate::poly::pv_neg(co));
            assert forall|i: int| 0 <= i < s.len() implies in_field(s[i]) by {
                assert(coeff(s, i) == s[i]);
            }
        }
        lemma_canon_props(s);
    }
    assert(bounded(d)) by {
        assert forall|i: int| 0 <= i < d.len() implies in_field(d[i]) by {
            assert(d[i] == i + 1);
            assert(i + 1 <= p.rows);
        }
    }
    assert forall|i: int| 0 <= i < d.len() implies peval(num, #[trigger] d[i]) == 0 by {
        assert(d[i] == i + 1);
        assert(1 <= (i + 1) as nat <= p.rows);
        lemma_qap_numerator_value(p, w, (i + 1) as nat);
    }
    assert forall|i: int| 0 <= i < d.len() implies peval(p.t@, #[trigger] d[i]) == 0 by {
        assert(d[i] == i + 1);
        assert(1 <= (i + 1) as nat <= p.rows);
    }
    assert forall|i: int, j: int| 0 <= i < j < d.len() implies crate::field::has_inverse(
        fsub(#[trigger] d[j], #[trigger] d[i]),
    ) by {
        let a = (i + 1) as nat;
        let b = (j + 1) as nat;
        assert(d[i] == a && d[j] == b);
        assert(fsub(b, a) == (j - i) as nat) by {
            crate::field::lemma_fneg_cancel(a);
            assert(crate::field::fneg(a) == crate::field::fr_order() - a);
            assert((b + (crate::field::fr_order() - a)) as int == crate::field::fr_order() as int
                * 1 + (b - a));
            vstd::arithmetic::div_mod::lemma_fundamental_div_mod_converse(
                (b + (crate::field::fr_order() - a)) as int,
                crate::field::fr_order() as int,
                1,
                (b - a) as int,
            );
        }
        assert(1 <= (j - i) as nat);
        assert(((j - i) as nat) < p.rows);
    }
    lemma_shared_roots_give_divisibility(num, p.t@, d);
}

/// The prover owns the compiled program and the reference string.
pub struct Prover {
    setup: TrustedSetup,
    program: Program,
}

impl Prover {
    /// The program the prover argues about.
    pub closed spec fn prog(&self) -> Program {
        self.program
    }

    /// The reference string the prover commits with.
    pub closed spec fn srs(&self) -> TrustedSetup {
        self.setup
    }

    /// A well-formed program with a reference string of fitting dimensions.
    pub open spec fn wf(&self) -> bool {
        &&& self.prog().wf()
        &&& self.srs().matches(
            self.prog().rows as nat,
            self.prog().cols as nat,
            self.prog().public as nat,
        )
    }

    /// Take ownership of the program and the reference string.
    pub fn new(program: Program, setup: TrustedSetup) -> (r: Prover)
        requires
            program.wf(),
            setup.matches(program.rows as nat, program.cols as nat, program.public as nat),
        ensures
            r.wf(),
            r.prog() == program,
            r.srs() == setup,
    {
        Prover { program, setup }
    }

    /// Produce the proof triple for a witness.  Fails with `WitnessShape`
    /// exactly when the witness does not have one entry per column, and with
    /// `BadWitness` exactly when `A*B - C` is not exactly divisible by the
    /// target polynomial.
    pub fn prove(&self, witness: &Vec<i64>) -> (r: Result<
        (G1Affine, G2Affine, G1Affine),
        SnarkError,
    >)
        requires
            self.wf(),
        ensures
            (witness@.len() != self.prog().cols) <==> (r == Err::<
                (G1Affine, G2Affine, G1Affine),
                SnarkError,
            >(SnarkError::WitnessShape)),
            (r is Ok) <==> (witness@.len() == self.prog().cols && exact_divides(
                qap_numerator(self.prog(), field_row(witness@)),
                self.prog().t@,
            )),
            (witness@.len() == self.prog().cols && !exact_divides(
                qap_numerator(self.prog(), field_row(witness@)),
                self.prog().t@,
            )) <==> (r == Err::<(G1Affine, G2Affine, G1Affine), SnarkError>(SnarkError::BadWitness)),
    {
        if witness.len() != self.program.cols {
            return Err(SnarkError::WitnessShape);
        }
        let w = witness_to_scalar(witness);
        proof {
            assert(vals(w@).len() == w@.len());
            assert(field_row(witness@).len() == witness@.len());
            assert(w@.len() == witness@.len());
        }
        let program = &self.program;
        let setup = &self.setup;
        let rows = program.rows;

        let left_vec = combo_exec(&program.left, &w, rows);
        let right_vec = combo_exec(&program.right, &w, rows);
        let output_vec = combo_exec(&program.output, &w, rows);

        // the key elements of the private witness columns
        let mut og1 = g1_identity();
        let mut i: usize = program.public;
        while i < program.cols
            invariant
                program.public <= i <= program.cols,
                program == &&self.program,
                setup == &&self.setup,
                self.wf(),
                w@.len() == program.cols,
                bounded(vals(w@)),
            decreases program.cols - i,
        {
            proof {
                assert(in_field(vals(w@)[i as int]));
            }
            let wi = w[i];
            og1 = g1_add(&og1, &g1_scale(&wi, &setup.psi_prover[i - program.public]));
            i = i + 1;
        }

        let left_p = Poly::new(left_vec);
        let right_p = Poly::new(right_vec);
        let output_p = Poly::new(output_vec);
        proof {
            assert(left_p.wf() && right_p.wf() && output_p.wf());
            assert(left_p@.len() <= rows && right_p@.len() <= rows) by {
                crate::poly::lemma_canon_props(combo(program.left@, vals(w@), rows as nat));
                crate::poly::lemma_canon_props(combo(program.right@, vals(w@), rows as nat));
            }
        }
        let prod = Poly::mul(left_p.duplicate(), right_p.duplicate());
        let ht = Poly::sub(prod, output_p);
        proof {
            assert(ht@ == qap_numerator(self.prog(), field_row(witness@)));
            assert(ht@.len() <= 2 * rows) by {
                let lv = left_p@;
                let rv = right_p@;
                let ov = output_p@;
                assert(ov.len() <= rows) by {
                    crate::poly::lemma_canon_props(combo(program.output@, vals(w@), rows as nat));
                }
                assert(pv_mul(lv, rv).len() <= 2 * rows);
                crate::poly::lemma_canon_props(pv_mul(lv, rv));
                assert(prod@.len() <= 2 * rows);
                assert(crate::poly::pv_neg(ov).len() == ov.len());
                assert(pv_sub(prod@, ov).len() <= 2 * rows);
                crate::poly::lemma_canon_props(pv_sub(prod@, ov));
            }
            assert(ht@.len() < usize::MAX - 1);
        }
        let t_copy = program.t.duplicate();
        let h = match Poly::div(ht, t_copy) {
            Ok(h) => h,
            Err(_) => {
                return Err(SnarkError::BadWitness);
            },
        };
        proof {
            assert(t_copy@.len() == rows + 1);
            assert(h@.len() <= rows) by {
                if ht@.len() >= t_copy@.len() {
                    assert(h@.len() + t_copy@.len() <= ht@.len() + 1);
                } else {
                    assert(h@.len() == 0);
                }
            }
        }

        let r_blind = fr_random();
        let s_blind = fr_random();

        let mut lg1 = g1_add(
            &g1_from_affine(&setup.alpha),
            &g1_scale(&r_blind, &setup.delta_1),
        );
        let mut rg1 = g1_add(
            &g1_from_affine(&setup.beta_1),
            &g1_scale(&s_blind, &setup.delta_1),
        );
        let mut rg2 = g2_add(
            &g2_from_affine(&setup.beta_2),
            &g2_scale(&s_blind, &setup.delta_2),
        );

        let mut k: usize = 0;
        while k < rows
            invariant
                k <= rows,
                rows == program.rows,
                program == &&self.program,
                setup == &&self.setup,
                self.wf(),
                left_p.wf(),
                right_p.wf(),
                h.wf(),
                left_p@.len() <= rows,
                right_p@.len() <= rows,
                h@.len() <= rows,
            decreases rows - k,
        {
            let lk = left_p.coefficient(k);
            let rk = right_p.coefficient(k);
            lg1 = g1_add(&lg1, &g1_scale(&lk, &setup.tau_g1[k]));
            rg1 = g1_add(&rg1, &g1_scale(&rk, &setup.tau_g1[k]));
            rg2 = g2_add(&rg2, &g2_scale(&rk, &setup.tau_g2[k]));
            let hk = h.coefficient(k);
            og1 = g1_add(&og1, &g1_scale(&hk, &setup.t_tau_g1[k]));
            k = k + 1;
        }

        og1 = g1_add(&og1, &g1_scale_proj(&s_blind, &lg1));
        og1 = g1_add(&og1, &g1_scale_proj(&r_blind, &rg1));
        let rs = fr_mul(&r_blind, &s_blind);
        let nrs = fr_neg(&rs);
        og1 = g1_add(&og1, &g1_scale(&nrs, &setup.delta_1));

        Ok((g1_to_affine(&lg1), g2_to_affine(&rg2), g1_to_affine(&og1)))
    }
}

/// The linear combination `sum w_j * polys_j` as a coefficient vector of
/// length `m`.
fn combo_exec(polys: &Vec<Poly>, w: &Vec<Fr>, m: usize) -> (r: Vec<Fr>)
    requires
        polys@.len() == w@.len(),
        forall|j: int|
            0 <= j < polys@.len() ==> (#[trigger] polys@[j]).wf() && polys@[j]@.len() <= m,
        bounded(vals(w@)),
    ensures
        vals(r@) == combo(polys@, vals(w@), m as nat),
        bounded(vals(r@)),
{
    let ghost wv = vals(w@);
    let cols = w.len();
    let mut out: Vec<Fr> = Vec::new();
    let mut z: usize = 0;
    while z < m
        invariant
            z <= m,
            out@.len() == z,
            forall|k: int| 0 <= k < z ==> vals(out@)[k] == 0,
            bounded(vals(out@)),
        decreases m - z,
    {
        let zero = crate::field::fr_from_u64(0);
        let ghost pre = out@;
        out.push(zero);
        proof {
            assert(vals(out@) =~= vals(pre).push(0nat));
        }
        z = z + 1;
    }
    let mut j: usize = 0;
    while j < cols
        invariant
            j <= cols,
            cols == w@.len(),
            cols == polys@.len(),
            wv == vals(w@),
            out@.len() == m,
            forall|t: int|
                0 <= t < polys@.len() ==> (#[trigger] polys@[t]).wf() && polys@[t]@.len() <= m,
            bounded(wv),
            bounded(vals(out@)),
            forall|k: int| 0 <= k < m ==> vals(out@)[k] == combo_at(polys@, wv, k, j as int),
        decreases cols - j,
    {
        proof {
            assert(in_field(wv[j as int]));
        }
        let wj = w[j];
        proof {
            assert(wj@ == wv[j as int]);
        }
        let p = &polys[j];
        let mut k: usize = 0;
        while k < m
            invariant
                k <= m,
                j < cols,
                cols == w@.len(),
                cols == polys@.len(),
                wv == vals(w@),
                wj == w@[j as int],
                p == &polys@[j as int],
                out@.len() == m,
                forall|t: int|
                    0 <= t < polys@.len() ==> (#[trigger] polys@[t]).wf() && polys@[t]@.len() <= m,
                bounded(wv),
                bounded(vals(out@)),
                in_field(wj@),
                forall|t: int| 0 <= t < k ==> vals(out@)[t] == combo_at(polys@, wv, t, j + 1),
                forall|t: int| k <= t < m ==> vals(out@)[t] == combo_at(polys@, wv, t, j as int),
            decreases m - k,
        {
            proof {
                assert(polys@[j as int].wf());
                assert(in_field(vals(out@)[k as int]));
            }
            let ck = p.coefficient(k);
            let term = fr_mul(&wj, &ck);
            let cur = out[k];
            let upd = crate::field::fr_add(&cur, &term);
            let ghost pre = out@;
            out.set(k, upd);
            proof {
                assert(vals(out@) =~= vals(pre).update(k as int, upd@));
                assert(wj@ == wv[j as int]);
                assert(vals(out@)[k as int] == combo_at(polys@, wv, k as int, j + 1));
            }
            k = k + 1;
        }
        j = j + 1;
    }
    proof {
        assert(vals(out@) =~= combo(polys@, wv, m as nat));
    }
    out
}

} // verus!
