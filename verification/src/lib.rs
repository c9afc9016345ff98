//! A folding-based accumulation scheme for R1CS constraint systems.
//!
//! A prover repeatedly folds fresh satisfying assignments of a fixed
//! constraint system into a running accumulator; one final decider check
//! on the accumulator attests to every assignment ever folded.  Vectors
//! live in the scalar field of the ed-on-bls12-381 curve; assignment and
//! codeword vectors are committed through Merkle trees over a
//! field-native Poseidon hash, and challenges are derived by Fiat-Shamir
//! from a Blake2s pseudo-random function.

pub mod field;
pub mod matrix;
pub mod poseidon;
pub mod merkle;
pub mod errors;
pub mod reed_solomon;
pub mod fiat_shamir;
pub mod r1cs_nark;
pub mod data_structures;
pub mod bd_as;
pub mod laws;
pub mod codec;
