//! The trusted-setup ceremony: sample the toxic-waste scalars and derive the
//! structured reference string, after which the scalars are dropped.

use vstd::prelude::*;

use bls12_381::{G1Affine, G2Affine};

use crate::curve::{
    g1_affine_of, g1_generator, g1_generator_of, g1_scale, g1_scale_of, g1_to_affine,
    g2_affine_of, g2_generator, g2_generator_of, g2_scale, g2_scale_of, g2_to_affine,
};
use crate::field::{
    fadd, fmul, fpow, fr_from_u64, fr_inv, fr_is_zero, fr_mul, fr_random, in_field,
    lemma_fmul_basics, lemma_fmul_comm, lemma_fpow_in_field, Fr,
};
use crate::poly::peval;
use crate::program::Program;

verus! {

/// The structured reference string: commitments to the powers of the secret
/// point in both groups, the shifted powers carrying the target polynomial,
/// and one key element per witness column, split between verifier and prover.
#[derive(Clone)]
pub struct TrustedSetup {
    pub alpha: G1Affine,
    pub beta_1: G1Affine,
    pub beta_2: G2Affine,
    pub gamma: G2Affine,
    pub delta_1: G1Affine,
    pub delta_2: G2Affine,
    pub tau_g1: Vec<G1Affine>,
    pub tau_g2: Vec<G2Affine>,
    pub t_tau_g1: Vec<G1Affine>,
    pub psi_verifier: Vec<G1Affine>,
    pub psi_prover: Vec<G1Affine>,
}

/// The key value of witness column `j` at the secret point:
/// `alpha * B_j(tau) + beta * A_j(tau) + C_j(tau)`.
pub open spec fn key_value(c: Program, j: int, tau: nat, alpha: nat, beta: nat) -> nat {
    fadd(
        fadd(fmul(alpha, peval(c.right@[j]@, tau)), fmul(beta, peval(c.left@[j]@, tau))),
        peval(c.output@[j]@, tau),
    )
}

impl TrustedSetup {
    /// The reference string fits a program of the given dimensions: one power
    /// per constraint row, one verifier key element per public column and one
    /// prover key element per private column.
    pub open spec fn matches(&self, rows: nat, cols: nat, public: nat) -> bool {
        &&& self.tau_g1@.len() == rows
        &&& self.tau_g2@.len() == rows
        &&& self.t_tau_g1@.len() == rows
        &&& self.psi_verifier@.len() == public
        &&& self.psi_prover@.len() == cols - public
    }

    /// The reference string is the one derived from the given secret scalars
    /// and their inverses: each field is the stated combination of the
    /// generators under them.
    pub open spec fn derived_from(
        &self,
        c: Program,
        tau: nat,
        alpha: nat,
        beta: nat,
        gamma: nat,
        delta: nat,
        gamma_inv: nat,
        delta_inv: nat,
    ) -> bool {
        &&& self.alpha == g1_affine_of(g1_scale_of(alpha, g1_generator_of(0)))
        &&& self.beta_1 == g1_affine_of(g1_scale_of(beta, g1_generator_of(0)))
        &&& self.beta_2 == g2_affine_of(g2_scale_of(beta, g2_generator_of(0)))
        &&& self.gamma == g2_affine_of(g2_scale_of(gamma, g2_generator_of(0)))
        &&& self.delta_1 == g1_affine_of(g1_scale_of(delta, g1_generator_of(0)))
        &&& self.delta_2 == g2_affine_of(g2_scale_of(delta, g2_generator_of(0)))
        &&& forall|i: int|
            0 <= i < self.tau_g1@.len() ==> #[trigger] self.tau_g1@[i] == g1_affine_of(
                g1_scale_of(fpow(tau, i as nat), g1_generator_of(0)),
            )
        &&& forall|i: int|
            0 <= i < self.tau_g2@.len() ==> #[trigger] self.tau_g2@[i] == g2_affine_of(
                g2_scale_of(fpow(tau, i as nat), g2_generator_of(0)),
            )
        &&& forall|i: int|
            0 <= i < self.t_tau_g1@.len() ==> #[trigger] self.t_tau_g1@[i] == g1_affine_of(
                g1_scale_of(
                    fmul(fpow(tau, i as nat), fmul(peval(c.t@, tau), delta_inv)),
                    g1_generator_of(0),
                ),
            )
        &&& forall|j: int|
            0 <= j < self.psi_verifier@.len() ==> #[trigger] self.psi_verifier@[j]
                == g1_affine_of(
                g1_scale_of(fmul(key_value(c, j, tau, alpha, beta), gamma_inv), g1_generator_of(0)),
            )
        &&& forall|j: int|
            0 <= j < self.psi_prover@.len() ==> #[trigger] self.psi_prover@[j] == g1_affine_of(
                g1_scale_of(
                    fmul(key_value(c, j + c.public, tau, alpha, beta), delta_inv),
                    g1_generator_of(0),
                ),
            )
    }

    /// Run the ceremony for a compiled program.  The five secret scalars are
    /// sampled uniformly from the full field, with `gamma` and `delta`
    /// rejected on zero so that their inverses exist, and dropped on return:
    /// the result is the reference string derived from some such scalars.
    pub fn new(c: &Program) -> (r: TrustedSetup)
        requires
            c.wf(),
        ensures
            r.matches(c.rows as nat, c.cols as nat, c.public as nat),
            exists|tau: nat, alpha: nat, beta: nat, gamma: nat, delta: nat|
                {
                    &&& in_field(tau)
                    &&& in_field(alpha)
                    &&& in_field(beta)
                    &&& in_field(gamma)
                    &&& in_field(delta)
                    &&& gamma != 0
                    &&& delta != 0
                    &&& exists|gamma_inv: nat, delta_inv: nat|
                        fmul(gamma, gamma_inv) == 1 && fmul(delta, delta_inv) == 1
                            && #[trigger] r.derived_from(
                            *c,
                            tau,
                            alpha,
                            beta,
                            gamma,
                            delta,
                            gamma_inv,
                            delta_inv,
                        )
                },
    {
        let g1 = g1_generator();
        let g2 = g2_generator();
        let tau = fr_random();
        let alpha = fr_random();
        let beta = fr_random();
        let gamma = nonzero_random();
        let delta = nonzero_random();
        let gamma_inv = fr_inv(&gamma);
        let delta_inv = fr_inv(&delta);
        proof {
            assert(crate::poly::bounded(c.t@));
        }
        let t_tau = c.t.eval(tau);
        let one = fr_from_u64(1);
        let tau_g1 = powers_g1(&tau, c.rows, &one);
        let tau_g2 = powers_g2(&tau, c.rows, &one);
        let shifted = fr_mul(&t_tau, &delta_inv);
        let t_tau_g1 = powers_g1(&tau, c.rows, &shifted);
        let mut psi_verifier: Vec<G1Affine> = Vec::new();
        let mut psi_prover: Vec<G1Affine> = Vec::new();
        let mut i: usize = 0;
        while i < c.cols
            invariant
                i <= c.cols,
                c.wf(),
                in_field(tau@),
                in_field(alpha@),
                in_field(beta@),
                in_field(gamma_inv@),
                in_field(delta_inv@),
                g1 == g1_generator_of(0),
                psi_verifier@.len() == if i <= c.public {
                    i as int
                } else {
                    c.public as int
                },
                psi_prover@.len() == if i <= c.public {
                    0int
                } else {
                    i - c.public
                },
                forall|j: int|
                    0 <= j < psi_verifier@.len() ==> #[trigger] psi_verifier@[j] == g1_affine_of(
                        g1_scale_of(
                            fmul(key_value(*c, j, tau@, alpha@, beta@), gamma_inv@),
                            g1_generator_of(0),
                        ),
                    ),
                forall|j: int|
                    0 <= j < psi_prover@.len() ==> #[trigger] psi_prover@[j] == g1_affine_of(
                        g1_scale_of(
                            fmul(key_value(*c, j + c.public, tau@, alpha@, beta@), delta_inv@),
                            g1_generator_of(0),
                        ),
                    ),
            decreases c.cols - i,
        {
            proof {
                assert(c.right@[i as int].wf());
                assert(c.left@[i as int].wf());
                assert(c.output@[i as int].wf());
            }
            let bj = {
                let p = &c.right[i];
                p.eval(tau)
            };
            let aj = {
                let p = &c.left[i];
                p.eval(tau)
            };
            let cj = {
                let p = &c.output[i];
                p.eval(tau)
            };
            let s1 = fr_mul(&alpha, &bj);
            let s2 = fr_mul(&beta, &aj);
            let s3 = fr_add_then(&s1, &s2, &cj);
            proof {
                assert(s3@ == key_value(*c, i as int, tau@, alpha@, beta@));
            }
            if i < c.public {
                let v = fr_mul(&s3, &gamma_inv);
                psi_verifier.push(g1_to_affine(&g1_scale(&v, &g1)));
            } else {
                let v = fr_mul(&s3, &delta_inv);
                psi_prover.push(g1_to_affine(&g1_scale(&v, &g1)));
            }
            i = i + 1;
        }
        let r = TrustedSetup {
            alpha: g1_to_affine(&g1_scale(&alpha, &g1)),
            beta_1: g1_to_affine(&g1_scale(&beta, &g1)),
            beta_2: g2_to_affine(&g2_scale(&beta, &g2)),
            gamma: g2_to_affine(&g2_scale(&gamma, &g2)),
            delta_1: g1_to_affine(&g1_scale(&delta, &g1)),
            delta_2: g2_to_affine(&g2_scale(&delta, &g2)),
            tau_g1,
            tau_g2,
            t_tau_g1,
            psi_verifier,
            psi_prover,
        };
        proof {
            assert forall|i2: int| 0 <= i2 < r.tau_g1@.len() implies #[trigger] r.tau_g1@[i2]
                == g1_affine_of(g1_scale_of(fpow(tau@, i2 as nat), g1_generator_of(0))) by {
                lemma_fpow_in_field(tau@, i2 as nat);
                lemma_fmul_basics(fpow(tau@, i2 as nat));
            }
            assert forall|i2: int| 0 <= i2 < r.tau_g2@.len() implies #[trigger] r.tau_g2@[i2]
                == g2_affine_of(g2_scale_of(fpow(tau@, i2 as nat), g2_generator_of(0))) by {
                lemma_fpow_in_field(tau@, i2 as nat);
                lemma_fmul_basics(fpow(tau@, i2 as nat));
            }
            assert(r.derived_from(
                *c,
                tau@,
                alpha@,
                beta@,
                gamma@,
                delta@,
                gamma_inv@,
                delta_inv@,
            ));
        }
        r
    }
}

/// The sum of three field elements.
fn fr_add_then(a: &Fr, b: &Fr, c: &Fr) -> (r: Fr)
    requires
        in_field(a@),
        in_field(b@),
        in_field(c@),
    ensures
        r@ == fadd(fadd(a@, b@), c@),
        in_field(r@),
{
    let s = crate::field::fr_add(a, b);
    crate::field::fr_add(&s, c)
}

/// A uniformly random nonzero field element by rejection sampling.  The
/// fallback to one is a liveness guard, not part of the distribution: it
/// bounds the retry count, and a run of 64 zero samples from a sound
/// generator does not happen.
fn nonzero_random() -> (r: Fr)
    ensures
        in_field(r@),
        r@ != 0,
{
    let mut tries: usize = 0;
    while tries < 64
        invariant
            tries <= 64,
        decreases 64 - tries,
    {
        let x = fr_random();
        if !fr_is_zero(&x) {
            return x;
        }
        tries = tries + 1;
    }
    fr_from_u64(1)
}

/// The points `mul * tau^i * G1` for `i` below `len`.
fn powers_g1(val: &Fr, len: usize, mul: &Fr) -> (r: Vec<G1Affine>)
    requires
        in_field(val@),
        in_field(mul@),
    ensures
        r@.len() == len,
        forall|i: int|
            0 <= i < len ==> #[trigger] r@[i] == g1_affine_of(
                g1_scale_of(fmul(fpow(val@, i as nat), mul@), g1_generator_of(0)),
            ),
{
    let g1 = g1_generator();
    let mut acc = fr_from_u64(1);
    let mut out: Vec<G1Affine> = Vec::new();
    let mut i: usize = 0;
    while i < len
        invariant
            i <= len,
            out@.len() == i,
            in_field(acc@),
            in_field(val@),
            in_field(mul@),
            g1 == g1_generator_of(0),
            acc@ == fpow(val@, i as nat),
            forall|t: int|
                0 <= t < i ==> #[trigger] out@[t] == g1_affine_of(
                    g1_scale_of(fmul(fpow(val@, t as nat), mul@), g1_generator_of(0)),
                ),
        decreases len - i,
    {
        let k = fr_mul(&acc, mul);
        out.push(g1_to_affine(&g1_scale(&k, &g1)));
        proof {
            lemma_fmul_comm(fpow(val@, i as nat), val@);
            assert(fpow(val@, (i + 1) as nat) == fmul(val@, fpow(val@, i as nat)));
        }
        acc = fr_mul(&acc, val);
        i = i + 1;
    }
    out
}

/// The points `mul * tau^i * G2` for `i` below `len`.
fn powers_g2(val: &Fr, len: usize, mul: &Fr) -> (r: Vec<G2Affine>)
    requires
        in_field(val@),
        in_field(mul@),
    ensures
        r@.len() == len,
        forall|i: int|
            0 <= i < len ==> #[trigger] r@[i] == g2_affine_of(
                g2_scale_of(fmul(fpow(val@, i as nat), mul@), g2_generator_of(0)),
            ),
{
    let g2 = g2_generator();
    let mut acc = fr_from_u64(1);
    let mut out: Vec<G2Affine> = Vec::new();
    let mut i: usize = 0;
    while i < len
        invariant
            i <= len,
            out@.len() == i,
            in_field(acc@),
            in_field(val@),
            in_field(mul@),
            g2 == g2_generator_of(0),
            acc@ == fpow(val@, i as nat),
            forall|t: int|
                0 <= t < i ==> #[trigger] out@[t] == g2_affine_of(
                    g2_scale_of(fmul(fpow(val@, t as nat), mul@), g2_generator_of(0)),
                ),
        decreases len - i,
    {
        let k = fr_mul(&acc, mul);
        out.push(g2_to_affine(&g2_scale(&k, &g2)));
        proof {
            lemma_fmul_comm(fpow(val@, i as nat), val@);
            assert(fpow(val@, (i + 1) as nat) == fmul(val@, fpow(val@, i as nat)));
        }
        acc = fr_mul(&acc, val);
        i = i + 1;
    }
    out
}

} // verus!
