//! The field-native Poseidon hash used inside the Merkle commitments.
//!
//! The sponge itself is outside code: `ark-crypto-primitives`' Poseidon
//! over the scalar field of ed-on-bls12-381, with one fixed parameter
//! set built once by [`poseidon_parameters`].  The library names the two
//! digests it relies on — the hash of a single leaf and the two-to-one
//! compression — and proves everything above them.

use vstd::prelude::*;
use crate::field::Felt;
use ark_crypto_primitives::crh::poseidon::{CRH, TwoToOneCRH};
use ark_crypto_primitives::crh::{CRHScheme, TwoToOneCRHScheme};
use ark_crypto_primitives::sponge::poseidon::{find_poseidon_ark_and_mds, PoseidonConfig};
use ark_ed_on_bls12_381::Fr;
use ark_ff::{BigInt, PrimeField};

verus! {

/// The Poseidon parameter set both Merkle hashes run with.
///
/// The parameter set is opaque to the verifier; [`poseidon_parameters`]
/// is the one constructor and always builds the same parameters, so the
/// digests below depend on their field-element inputs alone.
#[verifier::external_body]
pub struct MerkleHashConfig {
    params: PoseidonConfig<Fr>,
}

/// What the Poseidon sponge answers for a single-leaf input.
pub uninterp spec fn hash_leaf_of(x: int) -> int;

/// What the Poseidon two-to-one compression answers.
pub uninterp spec fn hash_two_of(a: int, b: int) -> int;

/// Relies on `find_poseidon_ark_and_mds` and `PoseidonConfig::new` of
/// `ark-crypto-primitives`: both are deterministic in their arguments,
/// so every call returns the same parameter set (252-bit prime, rate 2,
/// capacity 1, alpha 17, 4 full and 8 partial rounds).
#[verifier::external_body]
pub fn poseidon_parameters() -> (r: MerkleHashConfig)
{
    let (ark, mds) = find_poseidon_ark_and_mds::<Fr>(252, 2, 4, 8, 0);
    MerkleHashConfig { params: PoseidonConfig::new(4, 8, 17, mds, ark, 2, 1) }
}

/// Relies on the poseidon `CRHScheme::evaluate` of
/// `ark-crypto-primitives` over a one-element input: a deterministic
/// sponge evaluation, so the digest is a function of the leaf alone
/// (the parameters are the fixed ones of [`poseidon_parameters`]).
#[verifier::external_body]
pub(crate) fn hash_leaf(cfg: &MerkleHashConfig, x: &Felt) -> (r: Felt)
    requires
        x.wf(),
    ensures
        r.wf(),
        r.value() == hash_leaf_of(x.value()),
{
    let v = Fr::from_bigint(BigInt([x.l0, x.l1, x.l2, x.l3])).unwrap();
    let d = CRH::<Fr>::evaluate(&cfg.params, [v].as_slice()).unwrap();
    let s = d.into_bigint().0;
    Felt { l0: s[0], l1: s[1], l2: s[2], l3: s[3] }
}

/// Relies on the poseidon `TwoToOneCRHScheme::evaluate` of
/// `ark-crypto-primitives`: a deterministic sponge evaluation, so the
/// digest is a function of the two inputs alone (the parameters are the
/// fixed ones of [`poseidon_parameters`]).
#[verifier::external_body]
pub(crate) fn hash_two(cfg: &MerkleHashConfig, a: &Felt, b: &Felt) -> (r: Felt)
    requires
        a.wf(),
        b.wf(),
    ensures
        r.wf(),
        r.value() == hash_two_of(a.value(), b.value()),
{
    let x = Fr::from_bigint(BigInt([a.l0, a.l1, a.l2, a.l3])).unwrap();
    let y = Fr::from_bigint(BigInt([b.l0, b.l1, b.l2, b.l3])).unwrap();
    let d = TwoToOneCRH::<Fr>::evaluate(&cfg.params, x, y).unwrap();
    let s = d.into_bigint().0;
    Felt { l0: s[0], l1: s[1], l2: s[2], l3: s[3] }
}

} // verus!
