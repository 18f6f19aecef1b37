//! The proof verifier: one linear combination of the verifier key elements
//! and four pairings, compared in the target group.

use vstd::prelude::*;

use bls12_381::{G1Affine, G1Projective, G2Affine};

use crate::curve::{
    g1_add, g1_affine_of, g1_identity, g1_identity_of, g1_scale, g1_scale_of, g1_sum_of,
    g1_to_affine, gt_add, gt_eq, gt_sum_of, pairing, pairing_of,
};
use crate::field::in_field;
use crate::poly::{bounded, vals};
use crate::setup::TrustedSetup;
use crate::utils::{field_row, witness_to_scalar};
use crate::SnarkError;

verus! {

/// The first `j` terms of `sum_j x_j * psi_j` in `G1`, starting from the
/// identity.
pub open spec fn psi_combination(xs: Seq<nat>, psis: Seq<G1Affine>, j: int) -> G1Projective
    decreases j,
{
    if j <= 0 {
        g1_identity_of(0)
    } else {
        g1_sum_of(psi_combination(xs, psis, j - 1), g1_scale_of(xs[j - 1], psis[j - 1]))
    }
}

/// The pairing equation of the protocol, over the named results of the curve
/// operations:
/// `e(pi_A, pi_B) == e(alpha, beta) + e(pi_C, delta) + e(pi_pub, gamma)`
/// in additive target-group notation, with `pi_pub` the combination of the
/// verifier key elements under the public inputs.
pub open spec fn accepts(
    srs: TrustedSetup,
    lg1: G1Affine,
    rg2: G2Affine,
    og1: G1Affine,
    xs: Seq<nat>,
) -> bool {
    pairing_of(lg1, rg2) == gt_sum_of(
        pairing_of(srs.alpha, srs.beta_2),
        gt_sum_of(
            pairing_of(og1, srs.delta_2),
            pairing_of(
                g1_affine_of(psi_combination(xs, srs.psi_verifier@, xs.len() as int)),
                srs.gamma,
            ),
        ),
    )
}

/// The verifier owns the reference string.
pub struct Verifier {
    setup: TrustedSetup,
}

impl Verifier {
    /// The reference string the verifier checks against.
    pub closed spec fn srs(&self) -> TrustedSetup {
        self.setup
    }

    /// Take ownership of the reference string.
    pub fn new(setup: TrustedSetup) -> (r: Verifier)
        ensures
            r.srs() == setup,
    {
        Verifier { setup }
    }

    /// Check a proof triple against a public-input slice.  Fails with
    /// `PublicInputLength` exactly when the slice does not have one entry per
    /// public witness column; otherwise it accepts exactly when the pairing
    /// equation holds of the triple, and fails with `BadProof` when it does
    /// not.
    pub fn verify(
        &self,
        lg1: G1Affine,
        rg2: G2Affine,
        og1: G1Affine,
        public_inputs: &Vec<i64>,
    ) -> (r: Result<(), SnarkError>)
        ensures
            (public_inputs@.len() != self.srs().psi_verifier@.len()) <==> (r == Err::<
                (),
                SnarkError,
            >(SnarkError::PublicInputLength)),
            public_inputs@.len() == self.srs().psi_verifier@.len() ==> ((r is Ok) <==> accepts(
                self.srs(),
                lg1,
                rg2,
                og1,
                field_row(public_inputs@),
            )),
            r is Ok || r == Err::<(), SnarkError>(SnarkError::PublicInputLength) || r == Err::<
                (),
                SnarkError,
            >(SnarkError::BadProof),
    {
        if public_inputs.len() != self.setup.psi_verifier.len() {
            return Err(SnarkError::PublicInputLength);
        }
        let setup = &self.setup;
        let left = pairing(&lg1, &rg2);

        let pubs = witness_to_scalar(public_inputs);
        let ghost xs = field_row(public_inputs@);
        proof {
            assert(vals(pubs@).len() == pubs@.len());
            assert(field_row(public_inputs@).len() == public_inputs@.len());
        }
        let mut vg1 = g1_identity();
        let mut i: usize = 0;
        while i < pubs.len()
            invariant
                i <= pubs@.len(),
                pubs@.len() == self.setup.psi_verifier@.len(),
                setup == &&self.setup,
                xs == vals(pubs@),
                xs.len() == pubs@.len(),
                bounded(vals(pubs@)),
                vg1 == psi_combination(xs, self.setup.psi_verifier@, i as int),
            decreases pubs@.len() - i,
        {
            proof {
                assert(in_field(vals(pubs@)[i as int]));
            }
            let ci = pubs[i];
            proof {
                assert(ci@ == xs[i as int]);
            }
            vg1 = g1_add(&vg1, &g1_scale(&ci, &setup.psi_verifier[i]));
            i = i + 1;
        }

        let prover_og1 = pairing(&og1, &setup.delta_2);
        let verifier_og1 = pairing(&g1_to_affine(&vg1), &setup.gamma);
        let combined = gt_add(&prover_og1, &verifier_og1);
        let alpha_beta = pairing(&setup.alpha, &setup.beta_2);
        let right = gt_add(&alpha_beta, &combined);
        if gt_eq(&left, &right) {
            Ok(())
        } else {
            Err(SnarkError::BadProof)
        }
    }
}

} // verus!
