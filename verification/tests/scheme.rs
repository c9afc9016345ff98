// End-to-end scenarios: a two-to-one hash circuit is indexed once and
// its proofs are folded into an accumulator, which the decider closes.

use accumulation::bd_as::BDASAccumulationScheme;
use accumulation::data_structures::{AccumulatorInstance, AccumulatorWitness};
use accumulation::field::Felt;
use accumulation::matrix::{SparseMatrix, SparseRow};
use accumulation::poseidon::{poseidon_parameters, MerkleHashConfig};
use accumulation::r1cs_nark::{IndexProverKey, IndexVerifierKey, R1CSNark};

use ark_crypto_primitives::crh::poseidon::constraints::{CRHParametersVar, TwoToOneCRHGadget};
use ark_crypto_primitives::crh::poseidon::TwoToOneCRH;
use ark_crypto_primitives::crh::{TwoToOneCRHScheme, TwoToOneCRHSchemeGadget};
use ark_crypto_primitives::sponge::poseidon::{find_poseidon_ark_and_mds, PoseidonConfig};
use ark_ed_on_bls12_381::Fr;
use ark_ff::PrimeField;
use ark_r1cs_std::alloc::AllocVar;
use ark_r1cs_std::eq::EqGadget;
use ark_r1cs_std::fields::fp::FpVar;
use ark_relations::r1cs::{
    ConstraintSynthesizer, ConstraintSystem, ConstraintSystemRef, OptimizationGoal, SynthesisError,
    SynthesisMode,
};

fn circuit_poseidon_config() -> PoseidonConfig<Fr> {
    let (ark, mds) = find_poseidon_ark_and_mds::<Fr>(252, 2, 4, 8, 0);
    PoseidonConfig::new(4, 8, 17, mds, ark, 2, 1)
}

fn felt_from_fr(x: Fr) -> Felt {
    let l = x.into_bigint().0;
    Felt { l0: l[0], l1: l[1], l2: l[2], l3: l[3] }
}

fn felts_from_frs(v: &[Fr]) -> Vec<Felt> {
    v.iter().map(|x| felt_from_fr(*x)).collect()
}

fn matrix_from_ark(m: &Vec<Vec<(Fr, usize)>>) -> SparseMatrix {
    m.iter()
        .map(|row| {
            let r: SparseRow = row.iter().map(|(c, i)| (felt_from_fr(*c), *i)).collect();
            r
        })
        .collect()
}

#[derive(Clone)]
struct HashVerifyCirc {
    inp_wit_1: Fr,
    inp_wit_2: Fr,
    inp_hash: Fr,
}

impl ConstraintSynthesizer<Fr> for HashVerifyCirc {
    fn generate_constraints(self, cs: ConstraintSystemRef<Fr>) -> Result<(), SynthesisError> {
        let poseidon_hash_params =
            CRHParametersVar::new_constant(cs.clone(), circuit_poseidon_config())?;
        let inp_hash = FpVar::new_input(cs.clone(), || Ok(self.inp_hash))?;
        let inp_wit_1 = FpVar::new_witness(cs.clone(), || Ok(self.inp_wit_1))?;
        let inp_wit_2 = FpVar::new_witness(cs.clone(), || Ok(self.inp_wit_2))?;
        let comp_hash = <TwoToOneCRHGadget<Fr> as TwoToOneCRHSchemeGadget<_, _>>::evaluate(
            &poseidon_hash_params,
            &inp_wit_1,
            &inp_wit_2,
        )?;
        comp_hash.enforce_equal(&inp_hash)?;
        Ok(())
    }
}

fn index_circuit(circ: HashVerifyCirc) -> (IndexProverKey, IndexVerifierKey) {
    let ics = ConstraintSystem::<Fr>::new_ref();
    ics.set_optimization_goal(OptimizationGoal::Constraints);
    ics.set_mode(SynthesisMode::Setup);
    circ.generate_constraints(ics.clone()).unwrap();
    ics.finalize();
    let matrices = ics.to_matrices().unwrap();
    let num_instance = ics.num_instance_variables();
    let num_witness = ics.num_witness_variables();
    let num_constraints = ics.num_constraints();
    let a = matrix_from_ark(&matrices.a);
    let b = matrix_from_ark(&matrices.b);
    let c = matrix_from_ark(&matrices.c);
    let pp = R1CSNark::setup();
    match R1CSNark::index(&pp, a, b, c, num_instance, num_witness, num_constraints) {
        Ok(keys) => keys,
        Err(e) => panic!(
            "prover key not generated: {:?} (instance {}, witness {}, constraints {})",
            e, num_instance, num_witness, num_constraints
        ),
    }
}

fn assignments(circ: HashVerifyCirc) -> (Vec<Felt>, Vec<Felt>) {
    let pcs = ConstraintSystem::<Fr>::new_ref();
    pcs.set_optimization_goal(OptimizationGoal::Constraints);
    pcs.set_mode(SynthesisMode::Prove { construct_matrices: false });
    circ.generate_constraints(pcs.clone()).unwrap();
    pcs.finalize();
    let borrowed = pcs.borrow().unwrap();
    let input = felts_from_frs(borrowed.instance_assignment.as_slice());
    let witness = felts_from_frs(borrowed.witness_assignment.as_slice());
    (input, witness)
}

fn hash_chain_circuit(a: Fr, b: Fr, params: &PoseidonConfig<Fr>) -> HashVerifyCirc {
    let h = <TwoToOneCRH<Fr> as TwoToOneCRHScheme>::evaluate(params, a, b).unwrap();
    HashVerifyCirc { inp_wit_1: a, inp_wit_2: b, inp_hash: h }
}

/// Runs `folds` folds of the hash chain and returns the final
/// accumulator with the keys and the configuration.
fn run_chain(
    folds: usize,
) -> (IndexProverKey, IndexVerifierKey, AccumulatorInstance, AccumulatorWitness, MerkleHashConfig) {
    let params = circuit_poseidon_config();
    let cfg = poseidon_parameters();
    let mut a = Fr::from(0u64);
    let mut b = Fr::from(1u64);
    let mut circ = hash_chain_circuit(a, b, &params);
    let (ipk, ivk) = index_circuit(circ.clone());
    let mut acc_instance = AccumulatorInstance::zero(&ipk);
    let mut acc_witness = AccumulatorWitness::zero(&ipk, &cfg);
    for _ in 0..folds {
        let (input, witness) = assignments(circ.clone());
        let proof = R1CSNark::prove(&ipk, input, witness, &cfg).expect("proof not generated");
        assert!(R1CSNark::verify(&ivk, &proof.instance.input, &proof));
        let ((new_instance, new_witness), acc_proof) = BDASAccumulationScheme::prove(
            &ipk,
            (&acc_instance, &acc_witness),
            (&proof.instance, &proof.witness),
            &cfg,
        )
        .expect("accumulation proof not generated");
        let verified = BDASAccumulationScheme::verify(
            &ivk,
            &acc_proof,
            (&acc_instance, &acc_witness),
            (&new_instance, &new_witness),
            (&proof.instance, &proof.witness),
            &cfg,
        )
        .unwrap();
        assert!(verified, "not able to verify accumulated proof");
        acc_instance = new_instance;
        acc_witness = new_witness;
        let h = circ.inp_hash;
        a = b;
        b = h;
        circ = hash_chain_circuit(a, b, &params);
    }
    (ipk, ivk, acc_instance, acc_witness, cfg)
}

#[test]
fn test_null_accumulator() {
    let (_ipk, ivk, acc_instance, acc_witness, cfg) = run_chain(0);
    let ok = BDASAccumulationScheme::decide(&ivk, (&acc_instance, &acc_witness), &cfg).unwrap();
    assert_eq!(ok, true);
}

#[test]
fn test_folding_single_proof() {
    let (_ipk, ivk, acc_instance, acc_witness, cfg) = run_chain(1);
    let ok = BDASAccumulationScheme::decide(&ivk, (&acc_instance, &acc_witness), &cfg).unwrap();
    assert_eq!(ok, true);
}

#[test]
fn test_five_folds() {
    let (_ipk, ivk, acc_instance, acc_witness, cfg) = run_chain(5);
    let ok = BDASAccumulationScheme::decide(&ivk, (&acc_instance, &acc_witness), &cfg).unwrap();
    assert_eq!(ok, true);
}

#[test]
fn test_fifty_folds() {
    let (_ipk, ivk, acc_instance, acc_witness, cfg) = run_chain(50);
    let ok = BDASAccumulationScheme::decide(&ivk, (&acc_instance, &acc_witness), &cfg).unwrap();
    assert_eq!(ok, true);
}

#[test]
fn test_r1cs_nark() {
    let params = circuit_poseidon_config();
    let cfg = poseidon_parameters();
    let circ = hash_chain_circuit(Fr::from(0u64), Fr::from(1u64), &params);
    let (ipk, ivk) = index_circuit(circ.clone());
    let (input, witness) = assignments(circ);
    let proof = R1CSNark::prove(&ipk, input, witness, &cfg).expect("proof not generated");
    let verified = R1CSNark::verify(&ivk, &proof.instance.input, &proof);
    assert_eq!(verified, true);
}

#[test]
fn test_tampered_accumulator() {
    // after five folds, flip one entry of err and recompute the roots
    // honestly: the rank-one relation fails and the decider rejects
    let (_ipk, ivk, acc_instance, _acc_witness, cfg) = run_chain(5);
    let mut tampered = acc_instance.clone();
    let old = tampered.err[0];
    tampered.err[0] = if old == (Felt { l0: 0, l1: 0, l2: 0, l3: 0 }) {
        Felt { l0: 1, l1: 0, l2: 0, l3: 0 }
    } else {
        Felt { l0: 0, l1: 0, l2: 0, l3: 0 }
    };
    let w_root = accumulation::bd_as::commit_codeword(&cfg, &tampered.w);
    let err_root = accumulation::bd_as::commit_codeword(&cfg, &tampered.err);
    let new_wit = AccumulatorWitness { blinded_w: w_root, blinded_err: err_root };
    let ok = BDASAccumulationScheme::decide(&ivk, (&tampered, &new_wit), &cfg).unwrap();
    assert_eq!(ok, false);
}

#[test]
fn test_replayed_old_accumulator() {
    // passing the old accumulator as both old and new fails the
    // scalar relation c_new = c_old + r
    let params = circuit_poseidon_config();
    let cfg = poseidon_parameters();
    let circ = hash_chain_circuit(Fr::from(0u64), Fr::from(1u64), &params);
    let (ipk, ivk) = index_circuit(circ.clone());
    let acc_instance = AccumulatorInstance::zero(&ipk);
    let acc_witness = AccumulatorWitness::zero(&ipk, &cfg);
    let (input, witness) = assignments(circ);
    let proof = R1CSNark::prove(&ipk, input, witness, &cfg).expect("proof not generated");
    let ((_new_instance, _new_witness), acc_proof) = BDASAccumulationScheme::prove(
        &ipk,
        (&acc_instance, &acc_witness),
        (&proof.instance, &proof.witness),
        &cfg,
    )
    .expect("accumulation proof not generated");
    let verified = BDASAccumulationScheme::verify(
        &ivk,
        &acc_proof,
        (&acc_instance, &acc_witness),
        (&acc_instance, &acc_witness),
        (&proof.instance, &proof.witness),
        &cfg,
    )
    .unwrap();
    assert_eq!(verified, false);
}

fn one_fold() -> (
    IndexVerifierKey,
    AccumulatorInstance,
    AccumulatorWitness,
    AccumulatorInstance,
    AccumulatorWitness,
    accumulation::data_structures::Proof,
    accumulation::r1cs_nark::Proof,
    MerkleHashConfig,
) {
    let params = circuit_poseidon_config();
    let cfg = poseidon_parameters();
    let circ = hash_chain_circuit(Fr::from(0u64), Fr::from(1u64), &params);
    let (ipk, ivk) = index_circuit(circ.clone());
    let acc_instance = AccumulatorInstance::zero(&ipk);
    let acc_witness = AccumulatorWitness::zero(&ipk, &cfg);
    let (input, witness) = assignments(circ);
    let proof = R1CSNark::prove(&ipk, input, witness, &cfg).expect("proof not generated");
    let ((new_instance, new_witness), acc_proof) = BDASAccumulationScheme::prove(
        &ipk,
        (&acc_instance, &acc_witness),
        (&proof.instance, &proof.witness),
        &cfg,
    )
    .expect("accumulation proof not generated");
    (ivk, acc_instance, acc_witness, new_instance, new_witness, acc_proof, proof, cfg)
}

fn run_verify(
    ivk: &IndexVerifierKey,
    acc_proof: &accumulation::data_structures::Proof,
    old_i: &AccumulatorInstance,
    old_w: &AccumulatorWitness,
    new_i: &AccumulatorInstance,
    new_w: &AccumulatorWitness,
    nark: &accumulation::r1cs_nark::Proof,
    cfg: &MerkleHashConfig,
) -> bool {
    BDASAccumulationScheme::verify(
        ivk,
        acc_proof,
        (old_i, old_w),
        (new_i, new_w),
        (&nark.instance, &nark.witness),
        cfg,
    )
    .unwrap()
}

fn flip_low_bit(x: Felt) -> Felt {
    Felt { l0: x.l0 ^ 1, l1: x.l1, l2: x.l2, l3: x.l3 }
}

#[test]
fn test_tampered_proof_rejected() {
    let (ivk, old_i, old_w, new_i, new_w, acc_proof, nark, cfg) = one_fold();
    assert!(run_verify(&ivk, &acc_proof, &old_i, &old_w, &new_i, &new_w, &nark, &cfg));

    // a flipped bit in the cross-term
    let mut bad = acc_proof.clone();
    bad.t[0] = flip_low_bit(bad.t[0]);
    assert!(!run_verify(&ivk, &bad, &old_i, &old_w, &new_i, &new_w, &nark, &cfg));

    // a flipped bit in the folded vector
    let mut bad_i = new_i.clone();
    bad_i.w[0] = flip_low_bit(bad_i.w[0]);
    assert!(!run_verify(&ivk, &acc_proof, &old_i, &old_w, &bad_i, &new_w, &nark, &cfg));

    // a flipped bit in the folded error vector
    let mut bad_i = new_i.clone();
    bad_i.err[0] = flip_low_bit(bad_i.err[0]);
    assert!(!run_verify(&ivk, &acc_proof, &old_i, &old_w, &bad_i, &new_w, &nark, &cfg));

    // a flipped bit in the folded scalar
    let mut bad_i = new_i.clone();
    bad_i.c = flip_low_bit(bad_i.c);
    assert!(!run_verify(&ivk, &acc_proof, &old_i, &old_w, &bad_i, &new_w, &nark, &cfg));

    // a flipped bit in one authentication path
    let mut bad = acc_proof.clone();
    let s = bad.acc_openings[0].siblings[0];
    bad.acc_openings[0].siblings[0] = flip_low_bit(s);
    assert!(!run_verify(&ivk, &bad, &old_i, &old_w, &new_i, &new_w, &nark, &cfg));
}

#[test]
fn test_wrong_inputs_rejected() {
    let (ivk, old_i, old_w, new_i, new_w, acc_proof, nark, cfg) = one_fold();

    // the wrong old accumulator: the scalar and the indices change
    let mut wrong_old = old_i.clone();
    wrong_old.c = flip_low_bit(wrong_old.c);
    assert!(!run_verify(&ivk, &acc_proof, &wrong_old, &old_w, &new_i, &new_w, &nark, &cfg));

    // the wrong input: its commitment no longer matches the openings
    let mut wrong_nark = nark.clone();
    wrong_nark.witness.blinded_assignment = flip_low_bit(wrong_nark.witness.blinded_assignment);
    assert!(!run_verify(&ivk, &acc_proof, &old_i, &old_w, &new_i, &new_w, &wrong_nark, &cfg));
}

