use bls12_381::{G1Affine, G1Projective};

use groth16_rs::program::Program;
use groth16_rs::prover::Prover;
use groth16_rs::setup::TrustedSetup;
use groth16_rs::verify::Verifier;
use groth16_rs::SnarkError;

// y^2 = 4x^3 + 2z + 9
//
// Constraints:
// v1 = y*y
// v2 = x*x
// v1 - 2z - 9 = v2*4x
//
// Witness:
// [1, y, x, z, v1, v2]
fn get_prover_and_verifier() -> (Prover, Verifier) {
    let public = 2;
    let c = Program::new(
        &vec![
            vec![0, 1, 0, 0, 0, 0],
            vec![0, 0, 1, 0, 0, 0],
            vec![0, 0, 0, 0, 0, 1],
        ],
        &vec![
            vec![0, 1, 0, 0, 0, 0],
            vec![0, 0, 1, 0, 0, 0],
            vec![0, 0, 4, 0, 0, 0],
        ],
        &vec![
            vec![0, 0, 0, 0, 1, 0],
            vec![0, 0, 0, 0, 0, 1],
            vec![-9, 0, 0, -2, 1, 0],
        ],
        public,
    )
    .unwrap();
    let s = TrustedSetup::new(&c);
    let verifier = Verifier::new(s.clone());
    let prover = Prover::new(c, s);
    (prover, verifier)
}

#[test]
#[should_panic(expected = "ShapeMismatch")]
fn fail_lro_mismatch_empty_rows() {
    let e: Vec<Vec<i64>> = vec![];
    Program::new(&e, &e.clone(), &e.clone(), 0).unwrap();
}

#[test]
#[should_panic(expected = "ShapeMismatch")]
fn fail_lro_mismatch_empty_columns() {
    Program::new(&vec![vec![]], &vec![vec![]], &vec![vec![]], 0).unwrap();
}

#[test]
#[should_panic(expected = "ShapeMismatch")]
fn fail_lro_mismatch_rows() {
    Program::new(&vec![vec![1], vec![2]], &vec![vec![1]], &vec![vec![1]], 0).unwrap();
}

#[test]
#[should_panic(expected = "ShapeMismatch")]
fn fail_lro_mismatch_columns() {
    Program::new(&vec![vec![1, 2]], &vec![vec![1]], &vec![vec![1]], 0).unwrap();
}

#[test]
#[should_panic(expected = "WitnessShape")]
fn fail_witness_lro_mismatch() {
    let witness = vec![1, 5, 1, 6, 25, 1, 2];
    let (prover, _) = get_prover_and_verifier();
    prover.prove(&witness).unwrap();
}

#[test]
#[should_panic(expected = "BadWitness")]
fn fail_bad_witness() {
    let witness = vec![1, 6, 2, 6, 36, 4];
    let (prover, _) = get_prover_and_verifier();
    prover.prove(&witness).unwrap();
}

#[test]
#[should_panic(expected = "PublicInputLength")]
fn fail_public_input_small() {
    let (prover, verifier) = get_prover_and_verifier();
    let witness = vec![1, 5, 1, 6, 25, 1];
    let (mut lg1, rg2, og1) = prover.prove(&witness).unwrap();
    lg1 = G1Affine::from(lg1 + G1Projective::generator());
    verifier.verify(lg1, rg2, og1, &witness[0..1].to_vec()).unwrap();
}

#[test]
#[should_panic(expected = "PublicInputLength")]
fn fail_public_input_big() {
    let (prover, verifier) = get_prover_and_verifier();
    let witness = vec![1, 5, 1, 6, 25, 1];
    let (mut lg1, rg2, og1) = prover.prove(&witness).unwrap();
    lg1 = G1Affine::from(lg1 + G1Projective::generator());
    verifier.verify(lg1, rg2, og1, &witness[0..3].to_vec()).unwrap();
}

#[test]
#[should_panic(expected = "BadProof")]
fn fail_wrong_public_input() {
    let (prover, verifier) = get_prover_and_verifier();
    let witness = vec![1, 5, 1, 6, 25, 1];
    let (lg1, rg2, og1) = prover.prove(&witness).unwrap();
    verifier.verify(lg1, rg2, og1, &witness[1..3].to_vec()).unwrap();
}

#[test]
#[should_panic(expected = "BadProof")]
fn fail_bad_proof() {
    let (prover, verifier) = get_prover_and_verifier();
    let witness = vec![1, 5, 1, 6, 25, 1];
    let (mut lg1, rg2, og1) = prover.prove(&witness).unwrap();
    lg1 = G1Affine::from(lg1 + G1Projective::generator());
    verifier.verify(lg1, rg2, og1, &witness[0..2].to_vec()).unwrap();
}

#[test]
fn pass_1() {
    let (prover, verifier) = get_prover_and_verifier();

    let witness = vec![1, 5, 1, 6, 25, 1];
    let (lg1, rg2, og1) = prover.prove(&witness).unwrap();
    verifier.verify(lg1, rg2, og1, &witness[0..2].to_vec()).unwrap();

    let witness = vec![1, 7, 1, 18, 49, 1];
    let (lg1, rg2, og1) = prover.prove(&witness).unwrap();
    verifier.verify(lg1, rg2, og1, &witness[0..2].to_vec()).unwrap();
}

#[test]
fn pass_2() {
    // 529 = x^3 + 4x^2 - yz + 4
    //
    // Constraints:
    // v1 = x*x
    // v2 = x*v1
    // 529 - v2 - 4v1 - 4 = -y*z
    //
    // Witness:
    // [1, y, x, z, v1, v2]
    let public = 0;
    let c = Program::new(
        &vec![
            vec![0, 0, 1, 0, 0, 0],
            vec![0, 0, 1, 0, 0, 0],
            vec![0, -1, 0, 0, 0, 0],
        ],
        &vec![
            vec![0, 0, 1, 0, 0, 0],
            vec![0, 0, 0, 0, 1, 0],
            vec![0, 0, 0, 1, 0, 0],
        ],
        &vec![
            vec![0, 0, 0, 0, 1, 0],
            vec![0, 0, 0, 0, 0, 1],
            vec![525, 0, 0, 0, -4, -1],
        ],
        public,
    )
    .unwrap();
    let s = TrustedSetup::new(&c);
    let verifier = Verifier::new(s.clone());
    let prover = Prover::new(c, s);

    let witness = vec![1, 7, 7, 2, 49, 343];
    let (lg1, rg2, og1) = prover.prove(&witness).unwrap();
    verifier.verify(lg1, rg2, og1, &vec![]).unwrap();
}

#[test]
#[should_panic(expected = "BadProof")]
fn fail_proof_from_other() {
    let (prover, _) = get_prover_and_verifier();
    let witness = vec![1, 5, 1, 6, 25, 1];
    let (lg1, rg2, og1) = prover.prove(&witness).unwrap();
    let public = 2;
    let c = Program::new(
        &vec![
            vec![0, 0, 1, 0, 0, 0],
            vec![0, 0, 1, 0, 0, 0],
            vec![0, -1, 0, 0, 0, 0],
        ],
        &vec![
            vec![0, 0, 1, 0, 0, 0],
            vec![0, 0, 0, 0, 1, 0],
            vec![0, 0, 0, 1, 0, 0],
        ],
        &vec![
            vec![0, 0, 0, 0, 1, 0],
            vec![0, 0, 0, 0, 0, 1],
            vec![525, 0, 0, 0, -4, -1],
        ],
        public,
    )
    .unwrap();
    let s = TrustedSetup::new(&c);
    let verifier = Verifier::new(s);
    verifier.verify(lg1, rg2, og1, &witness[0..2].to_vec()).unwrap();
}

#[test]
fn shape_error_on_long_public_prefix() {
    let r = Program::new(&vec![vec![1, 2]], &vec![vec![1, 2]], &vec![vec![1, 2]], 3);
    assert!(matches!(r, Err(SnarkError::ShapeMismatch)));
}

#[test]
fn shape_error_on_ragged_matrix() {
    let r = Program::new(
        &vec![vec![1], vec![2, 3]],
        &vec![vec![1], vec![2, 3]],
        &vec![vec![1], vec![2, 3]],
        0,
    );
    assert!(matches!(r, Err(SnarkError::ShapeMismatch)));
}
