//! A Groth16 zk-SNARK over the BLS12-381 pairing-friendly curve.
//!
//! The crate is organised as three layers: polynomial algebra over the prime
//! scalar field (`field`, `poly`), a compiler from rank-1 constraint matrices
//! to a quadratic arithmetic program (`utils`, `program`), and the protocol
//! itself (`setup`, `prover`, `verifier`), which works in the curve groups
//! exposed by `curve`.

pub mod curve;
pub mod field;
pub mod poly;
pub mod program;
pub mod prover;
pub mod setup;
pub mod utils;
pub mod verify;

use vstd::prelude::*;

verus! {

/// Why a step of the proof system refused its input.
#[derive(Clone, Copy, Debug, PartialEq, Eq, Structural)]
pub enum SnarkError {
    /// The constraint matrices are empty, non-rectangular, of unequal shapes,
    /// or the public prefix is longer than a row.
    ShapeMismatch,
    /// The witness handed to the prover does not have one entry per column.
    WitnessShape,
    /// The witness does not satisfy the constraint system.
    BadWitness,
    /// The public input slice handed to the verifier has the wrong length.
    PublicInputLength,
    /// The pairing equation does not hold for the proof.
    BadProof,
}

} // verus!
