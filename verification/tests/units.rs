// Unit tests for the field, the encoder, the commitments, the
// Fiat-Shamir derivations, and the codec.

use accumulation::bd_as::BDASAccumulationScheme;
use accumulation::codec::{
    deserialize_accumulator_instance, deserialize_accumulator_witness,
    deserialize_index_prover_key, deserialize_merkle_opening, deserialize_nark_proof,
    serialize_accumulator_instance, serialize_accumulator_witness, serialize_index_prover_key,
    serialize_merkle_opening, serialize_nark_proof,
};
use accumulation::data_structures::{AccumulatorInstance, AccumulatorWitness};
use accumulation::errors::SchemeError;
use accumulation::field::{fadd, felt_is_canonical, fmul, fsub, Felt};
use accumulation::fiat_shamir::{get_random_indices, get_randomness};
use accumulation::merkle::{commit, verify_opening, MerkleOpening};
use accumulation::poseidon::poseidon_parameters;
use accumulation::r1cs_nark::{
    CommitmentFullAssignment, FullAssignment, IndexInfo, IndexProverKey, Proof, R1CSNark,
};
use accumulation::reed_solomon::RSCode;

fn f(x: u64) -> Felt {
    Felt::from_u64(x)
}

#[test]
fn test_field_arithmetic() {
    assert_eq!(fadd(&f(2), &f(5)), f(7));
    assert_eq!(fmul(&f(3), &f(4)), f(12));
    assert_eq!(fsub(&f(9), &f(4)), f(5));
    // 1 - 2 wraps to p - 1, and adding 1 brings it back to zero
    let minus_one = fsub(&f(1), &f(2));
    assert_eq!(fadd(&minus_one, &f(1)), f(0));
    assert_ne!(minus_one, f(0));
}

#[test]
fn test_canonicity() {
    assert!(felt_is_canonical(&f(0)));
    assert!(felt_is_canonical(&f(u64::MAX)));
    // the modulus itself is not canonical
    let p_limbs = Felt {
        l0: 0xd0970e5ed6f72cb7,
        l1: 0xa6682093ccc81082,
        l2: 0x06673b0101343b00,
        l3: 0x0e7db4ea6533afa9,
    };
    assert!(!felt_is_canonical(&p_limbs));
    // one less is canonical
    let p_minus_one = Felt { l0: 0xd0970e5ed6f72cb6, ..p_limbs };
    assert!(felt_is_canonical(&p_minus_one));
}

#[test]
fn test_reed_solomon_values() {
    // P(X) = 2 + 3X on the domain 6, 36: P(6) = 20, P(36) = 110
    let code = RSCode::encode(vec![f(2), f(3)], 512).unwrap();
    assert_eq!(code.code.len(), 512);
    assert_eq!(code.evaluation_domain[0], f(6));
    assert_eq!(code.evaluation_domain[1], f(36));
    assert_eq!(code.code[0], f(20));
    assert_eq!(code.code[1], f(110));
    assert_eq!(code.d, 2);
    assert_eq!(code.t, 512);
}

#[test]
fn test_reed_solomon_degree_refused() {
    let coeffs: Vec<Felt> = (0..513u64).map(f).collect();
    let r = RSCode::encode(coeffs, 512);
    assert_eq!(r.unwrap_err(), SchemeError::EncodeDegreeExceeded);
}

#[test]
fn test_merkle_openings() {
    let cfg = poseidon_parameters();
    let leaves = vec![f(10), f(11), f(12), f(13)];
    let tree = commit(&cfg, &leaves);
    let root = tree.root();
    for i in 0..4usize {
        let sibs = tree.open(i);
        let opening = MerkleOpening { index: i, leaf: leaves[i], siblings: sibs };
        assert!(verify_opening(&cfg, &root, &opening));
        // the wrong leaf value fails
        let bad = MerkleOpening {
            index: i,
            leaf: fadd(&leaves[i], &f(1)),
            siblings: opening.siblings.clone(),
        };
        assert!(!verify_opening(&cfg, &root, &bad));
    }
    // a root of a different tree fails
    let other = commit(&cfg, &vec![f(9), f(11), f(12), f(13)]);
    let sibs = tree.open(0);
    let opening = MerkleOpening { index: 0, leaf: leaves[0], siblings: sibs };
    assert!(!verify_opening(&cfg, &other.root(), &opening));
}

#[test]
fn test_fiat_shamir_determinism() {
    let iw = vec![f(42)];
    let aw = vec![f(43)];
    let r1 = get_randomness(&iw, &aw);
    let r2 = get_randomness(&iw, &aw);
    assert_eq!(r1, r2);
    assert_eq!(r1.len(), 1);
    let i1 = get_random_indices(16, &iw, &aw, 512);
    let i2 = get_random_indices(16, &iw, &aw, 512);
    assert_eq!(i1, i2);
    assert_eq!(i1.len(), 16);
    for ix in i1.iter() {
        assert!(*ix < 512);
    }
    // a different seed moves the scalar
    let r3 = get_randomness(&vec![f(44)], &aw);
    assert_ne!(r1, r3);
}

#[test]
fn test_codec_roundtrips() {
    let wit = AccumulatorWitness { blinded_w: f(77), blinded_err: f(78) };
    let b = serialize_accumulator_witness(&wit);
    assert_eq!(deserialize_accumulator_witness(&b), Some(wit));

    let inst = AccumulatorInstance { w: vec![f(1), f(2)], err: vec![f(3)], c: f(4) };
    let b = serialize_accumulator_instance(&inst);
    assert_eq!(deserialize_accumulator_instance(&b), Some(inst));

    let pr = Proof {
        instance: FullAssignment { input: vec![f(1), f(9)], witness: vec![f(5)] },
        witness: CommitmentFullAssignment { blinded_assignment: f(6) },
    };
    let b = serialize_nark_proof(&pr);
    assert_eq!(deserialize_nark_proof(&b), Some(pr));

    // a truncated buffer is refused
    let wit2 = AccumulatorWitness { blinded_w: f(7), blinded_err: f(8) };
    let mut short = serialize_accumulator_witness(&wit2);
    short.pop();
    assert_eq!(deserialize_accumulator_witness(&short), None);
}

#[test]
fn test_index_refuses_bad_shapes() {
    let pp = R1CSNark::setup();
    // a column index out of range
    let row = vec![(f(1), 5usize)];
    let m = vec![row];
    let r = R1CSNark::index(&pp, m.clone(), m.clone(), m, 1, 1, 1);
    assert_eq!(r.unwrap_err(), SchemeError::PreconditionMismatch);
    // more constraints than variables
    let m2: Vec<Vec<(Felt, usize)>> = vec![vec![], vec![], vec![]];
    let r2 = R1CSNark::index(&pp, m2.clone(), m2.clone(), m2, 1, 1, 3);
    assert_eq!(r2.unwrap_err(), SchemeError::PreconditionMismatch);
}

#[test]
fn test_prove_refuses_bad_lengths() {
    let cfg = poseidon_parameters();
    let pp = R1CSNark::setup();
    let empty_row: Vec<Vec<(Felt, usize)>> = vec![vec![]];
    let (ipk, _ivk) = R1CSNark::index(
        &pp,
        empty_row.clone(),
        empty_row.clone(),
        empty_row,
        1,
        1,
        1,
    )
    .unwrap();
    let r = R1CSNark::prove(&ipk, vec![f(1)], vec![f(2), f(3)], &cfg);
    assert_eq!(r.unwrap_err(), SchemeError::PreconditionMismatch);
}

#[test]
fn test_default_key_zero_accumulator() {
    let cfg = poseidon_parameters();
    let info = IndexInfo { num_constraints: 3, num_variables: 4 };
    let key = IndexProverKey::get_default(info);
    assert_eq!(key.index_info, info);
    let inst = AccumulatorInstance::zero(&key);
    let wit = AccumulatorWitness::zero(&key, &cfg);
    let ok = BDASAccumulationScheme::decide(&key, (&inst, &wit), &cfg).unwrap();
    assert!(ok);
}

#[test]
fn test_folding_prove_refuses_bad_roots() {
    let cfg = poseidon_parameters();
    let pp = R1CSNark::setup();
    let empty_row: Vec<Vec<(Felt, usize)>> = vec![vec![]];
    let (ipk, _ivk) = R1CSNark::index(
        &pp,
        empty_row.clone(),
        empty_row.clone(),
        empty_row,
        1,
        1,
        1,
    )
    .unwrap();
    let inst = AccumulatorInstance::zero(&ipk);
    let wit = AccumulatorWitness::zero(&ipk, &cfg);
    let assignment = FullAssignment { input: vec![f(1)], witness: vec![f(0)] };
    // a commitment that does not match the assignment
    let bad_commit = CommitmentFullAssignment { blinded_assignment: f(123) };
    let r = BDASAccumulationScheme::prove(&ipk, (&inst, &wit), (&assignment, &bad_commit), &cfg);
    assert_eq!(r.unwrap_err(), SchemeError::PreconditionMismatch);
}

#[test]
fn test_codec_key_roundtrip() {
    let pp = R1CSNark::setup();
    let row = vec![(f(1), 0usize), (f(7), 1usize)];
    let a = vec![row.clone()];
    let b = vec![vec![(f(2), 1usize)]];
    let c = vec![vec![]];
    let (key, _) = R1CSNark::index(&pp, a, b, c, 1, 1, 1).unwrap();
    let bytes = serialize_index_prover_key(&key);
    assert_eq!(deserialize_index_prover_key(&bytes), Some(key));

    let mut short = bytes.clone();
    short.pop();
    assert_eq!(deserialize_index_prover_key(&short), None);
}

#[test]
fn test_codec_opening_roundtrip() {
    let cfg = poseidon_parameters();
    let leaves = vec![f(10), f(11), f(12), f(13)];
    let tree = accumulation::merkle::commit(&cfg, &leaves);
    let sibs = tree.open(2);
    let opening = MerkleOpening { index: 2, leaf: leaves[2], siblings: sibs };
    let bytes = serialize_merkle_opening(&opening);
    assert_eq!(deserialize_merkle_opening(&bytes), Some(opening));
}
