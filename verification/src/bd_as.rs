//! The folding accumulation scheme: prover, verifier and decider.
//!
//! One fold absorbs a fresh satisfying assignment into the running
//! accumulator under a Fiat-Shamir scalar `r`: the vectors fold as
//! `w' = w + r·z` and `err' = err + r·t` with the bilinear cross-term
//! `t`, and the scalar as `c' = c + r`.  The verifier spot-checks the
//! fold at sixteen pseudo-random codeword positions against the Merkle
//! roots; the decider closes the chain with the one-shot check
//! `(A·w) ⊙ (B·w) = err + c·(C·w)`.

use vstd::prelude::*;
use vstd::arithmetic::div_mod::{
    lemma_add_mod_noop, lemma_add_mod_noop_right, lemma_small_mod, lemma_sub_mod_noop,
};
use crate::data_structures::{zero_seq, AccumulatorInstance, AccumulatorWitness, Proof};
use crate::errors::SchemeError;
use crate::field::{fadd, fmul, p, Felt};
use crate::fiat_shamir::{fs_index, fs_scalar, get_random_indices, get_randomness};
use crate::matrix::{
    add_vectors, had_product, had_spec, matrix_vec_mul, mv_rows, pad_to, padded, scalar_mult,
    scalar_spec, sub_vectors, vals, wf_vec,
};
use crate::merkle::{
    commit, digests_of, merkle_root_spec, path_root, sibling_at, verify_opening, MerkleOpening,
};
use crate::poseidon::{hash_leaf_of, MerkleHashConfig};
use crate::field::felts_equal;
use crate::r1cs_nark::{
    check_canonical, codeword_root, lemma_rate_is_pow2, rows_of, CommitmentFullAssignment,
    FullAssignment, IndexProverKey, IndexVerifierKey,
};
use crate::reed_solomon::{code_spec, fold_spec, RSCode, RATE};

verus! {

/// How many codeword positions each fold is spot-checked at.
pub const QUERY_COUNT: usize = 16;

/// The scheme; all operations are associated functions.
pub struct BDASAccumulationScheme {}

/// A matrix image of a vector, right-padded with zeros to the key
/// width.
pub open spec fn mv_padded(m: Seq<Seq<(Felt, usize)>>, v: Seq<int>, n: nat) -> Seq<int> {
    padded(mv_rows(m, v), n)
}

/// The decider's algebraic relation at an accumulator: the padded
/// images satisfy `(A·w) ⊙ (B·w) = err + c·(C·w)` element-wise.
pub open spec fn decider_relation(key: IndexProverKey, w: Seq<int>, err: Seq<int>, c: int) -> bool {
    let n = key.index_info.num_variables as nat;
    let awp = mv_padded(rows_of(key.a), w, n);
    let bwp = mv_padded(rows_of(key.b), w, n);
    let cwp = mv_padded(rows_of(key.c), w, n);
    had_spec(awp, bwp) == Seq::new(n, |i: int| (err[i] + c * cwp[i]) % p())
}

/// Everything the decider accepts: shapes, canonicity, the roots, and
/// the algebraic relation.
pub open spec fn decide_spec(
    key: IndexProverKey,
    inst: AccumulatorInstance,
    wit: AccumulatorWitness,
) -> bool {
    let n = key.index_info.num_variables;
    &&& inst.w@.len() == n
    &&& inst.err@.len() == n
    &&& inst.wf()
    &&& codeword_root(vals(inst.w@)) == wit.blinded_w.value()
    &&& codeword_root(vals(inst.err@)) == wit.blinded_err.value()
    &&& decider_relation(key, vals(inst.w@), vals(inst.err@), inst.c.value())
}

/// The cross-term of a fold: the bilinear remainder
/// `A·z ⊙ B·w + A·w ⊙ B·z − (C·w + c·C·z)` over the padded images.
pub open spec fn cross_term(key: IndexProverKey, z: Seq<int>, w: Seq<int>, c_old: int) -> Seq<
    int,
> {
    let n = key.index_info.num_variables as nat;
    let azp = mv_padded(rows_of(key.a), z, n);
    let bzp = mv_padded(rows_of(key.b), z, n);
    let czp = mv_padded(rows_of(key.c), z, n);
    let awp = mv_padded(rows_of(key.a), w, n);
    let bwp = mv_padded(rows_of(key.b), w, n);
    let cwp = mv_padded(rows_of(key.c), w, n);
    Seq::new(
        n,
        |i: int| (azp[i] * bwp[i] + awp[i] * bzp[i] - (cwp[i] + c_old * czp[i])) % p(),
    )
}

/// The whole assignment vector of an input, as integers.
pub open spec fn inp_z(inp_i: FullAssignment) -> Seq<int> {
    vals(inp_i.input@ + inp_i.witness@)
}

/// The folding scalar of a fold, from the two commitments.
pub open spec fn scalar_of(inp_w: CommitmentFullAssignment, acc_w: AccumulatorWitness) -> int {
    fs_scalar(inp_w.blinded_assignment, acc_w.blinded_w)
}

/// The `j`-th spot-check index of a fold, from the two commitments.
pub open spec fn index_of(inp_w: CommitmentFullAssignment, acc_w: AccumulatorWitness, j: nat) -> int {
    fs_index(inp_w.blinded_assignment, acc_w.blinded_w, j, RATE as int)
}

impl BDASAccumulationScheme {
    /// Runs the decider: recomputes the two codeword roots and checks the
    /// algebraic relation.  Never an error; every failure is `false`.
    pub fn decide(
        decider_key: &IndexVerifierKey,
        accumulator: (&AccumulatorInstance, &AccumulatorWitness),
        cfg: &MerkleHashConfig,
    ) -> (r: Result<bool, SchemeError>)
        requires
            decider_key.wf(),
        ensures
            r is Ok,
            r->Ok_0 == decide_spec(*decider_key, *accumulator.0, *accumulator.1),
    {
        let (instance, witness) = accumulator;
        let n = decider_key.index_info.num_variables;
        if instance.w.len() != n || instance.err.len() != n {
            return Ok(false);
        }
        if !check_canonical(&instance.w) || !check_canonical(&instance.err)
            || !crate::field::felt_is_canonical(&instance.c) {
            return Ok(false);
        }
        let w_root = commit_codeword(cfg, &instance.w);
        let err_root = commit_codeword(cfg, &instance.err);
        if !felts_equal(&w_root, &witness.blinded_w) || !felts_equal(&err_root, &witness.blinded_err) {
            return Ok(false);
        }
        let empty: Vec<Felt> = Vec::new();
        let aw = matrix_vec_mul(&decider_key.a, &instance.w, &empty);
        let bw = matrix_vec_mul(&decider_key.b, &instance.w, &empty);
        let cw = matrix_vec_mul(&decider_key.c, &instance.w, &empty);
        proof {
            assert(instance.w@ + empty@ =~= instance.w@);
            assert(vals(aw@).len() == aw@.len());
            assert(vals(bw@).len() == bw@.len());
            assert(vals(cw@).len() == cw@.len());
            assert(mv_rows(rows_of(decider_key.a), vals(instance.w@)).len() == rows_of(
                decider_key.a,
            ).len());
            assert(mv_rows(rows_of(decider_key.b), vals(instance.w@)).len() == rows_of(
                decider_key.b,
            ).len());
            assert(mv_rows(rows_of(decider_key.c), vals(instance.w@)).len() == rows_of(
                decider_key.c,
            ).len());
            assert(rows_of(decider_key.a).len() == decider_key.a@.len());
            assert(rows_of(decider_key.b).len() == decider_key.b@.len());
            assert(rows_of(decider_key.c).len() == decider_key.c@.len());
        }
        let awp = pad_to(aw, n);
        let bwp = pad_to(bw, n);
        let cwp = pad_to(cw, n);
        let lhs = had_product(&awp, &bwp);
        let scw = scalar_mult(&instance.c, &cwp);
        proof {
            assert(vals(scw@).len() == scw@.len());
            assert(scalar_spec(instance.c.value(), vals(cwp@)).len() == vals(cwp@).len());
        }
        let rhs = add_vectors(&instance.err, &scw);
        let ghost nn = n as nat;
        let ghost goal = Seq::new(
            nn,
            |i: int| (vals(instance.err@)[i] + instance.c.value() * mv_padded(
                rows_of(decider_key.c),
                vals(instance.w@),
                nn,
            )[i]) % p(),
        );
        proof {
            assert forall|i: int| 0 <= i < nn implies vals(rhs@)[i] == goal[i] by {
                let e = vals(instance.err@)[i];
                let cc = instance.c.value();
                let x = mv_padded(rows_of(decider_key.c), vals(instance.w@), nn)[i];
                lemma_add_mod_noop_right(e, cc * x, p());
                lemma_small_mod(e as nat, p() as nat);
                lemma_add_mod_noop(e, cc * x, p());
            }
            assert(vals(rhs@) =~= goal);
        }
        let ghost lhs_goal = had_spec(
            mv_padded(rows_of(decider_key.a), vals(instance.w@), nn),
            mv_padded(rows_of(decider_key.b), vals(instance.w@), nn),
        );
        proof {
            assert(vals(lhs@) == lhs_goal);
        }
        let eq = crate::matrix::vecs_equal(&lhs, &rhs);
        proof {
            assert(eq == (lhs_goal == goal));
            assert(eq == decider_relation(
                *decider_key,
                vals(instance.w@),
                vals(instance.err@),
                instance.c.value(),
            ));
        }
        Ok(eq)
    }
}

/// Encodes a vector at the fixed codeword length and commits to the
/// codeword; returns the root.
pub fn commit_codeword(cfg: &MerkleHashConfig, v: &Vec<Felt>) -> (r: Felt)
    requires
        wf_vec(v@),
        v@.len() <= RATE,
    ensures
        r.wf(),
        r.value() == codeword_root(vals(v@)),
{
    let c = crate::matrix::copy_felts(v);
    let code = match RSCode::encode(c, RATE) {
        Ok(code) => code,
        Err(e) => {
            proof {
                assert(false);
            }
            return Felt::zero();
        },
    };
    proof {
        lemma_rate_is_pow2();
    }
    let tree = commit(cfg, &code.code);
    tree.root()
}

/// Every entry of a zero vector's matrix image is zero.
proof fn lemma_row_sum_zero(row: Seq<(Felt, usize)>, n: nat)
    requires
        crate::matrix::row_wf(row, n as int),
    ensures
        crate::matrix::row_sum(row, zero_seq(n)) == 0,
    decreases row.len(),
{
    if row.len() > 0 {
        assert(crate::matrix::row_wf(row.drop_last(), n as int));
        lemma_row_sum_zero(row.drop_last(), n);
        assert(zero_seq(n)[row.last().1 as int] == 0);
    }
}

/// The zero accumulator satisfies the decider relation for every
/// well-formed key.
pub proof fn lemma_zero_decider_relation(key: IndexProverKey)
    requires
        key.wf(),
    ensures
        decider_relation(
            key,
            zero_seq(key.index_info.num_variables as nat),
            zero_seq(key.index_info.num_variables as nat),
            0,
        ),
{
    let n = key.index_info.num_variables as nat;
    let zs = zero_seq(n);
    let awp = mv_padded(rows_of(key.a), zs, n);
    let bwp = mv_padded(rows_of(key.b), zs, n);
    let cwp = mv_padded(rows_of(key.c), zs, n);
    assert forall|i: int| 0 <= i < n implies awp[i] == 0 && bwp[i] == 0 && cwp[i] == 0 by {
        if i < key.a@.len() {
            lemma_row_sum_zero(rows_of(key.a)[i], n);
            lemma_small_mod(0nat, p() as nat);
        }
        if i < key.b@.len() {
            lemma_row_sum_zero(rows_of(key.b)[i], n);
            lemma_small_mod(0nat, p() as nat);
        }
        if i < key.c@.len() {
            lemma_row_sum_zero(rows_of(key.c)[i], n);
            lemma_small_mod(0nat, p() as nat);
        }
    }
    assert forall|i: int| 0 <= i < n implies had_spec(awp, bwp)[i] == Seq::new(
        n,
        |q: int| (zs[q] + 0 * cwp[q]) % p(),
    )[i] by {
        lemma_small_mod(0nat, p() as nat);
    }
    assert(had_spec(awp, bwp) =~= Seq::new(n, |q: int| (zs[q] + 0 * cwp[q]) % p()));
}

/// The decider accepts the zero accumulator of every well-formed key:
/// an instance of zero vectors and a zero scalar whose witness roots
/// commit to the all-zero codeword.
pub proof fn lemma_zero_accumulator_accepted(
    key: IndexProverKey,
    inst: AccumulatorInstance,
    wit: AccumulatorWitness,
)
    requires
        key.wf(),
        inst.wf(),
        inst.w@.len() == key.index_info.num_variables,
        inst.err@.len() == key.index_info.num_variables,
        vals(inst.w@) == zero_seq(key.index_info.num_variables as nat),
        vals(inst.err@) == zero_seq(key.index_info.num_variables as nat),
        inst.c.value() == 0,
        wit.blinded_w.value() == codeword_root(zero_seq(key.index_info.num_variables as nat)),
        wit.blinded_err.value() == codeword_root(zero_seq(key.index_info.num_variables as nat)),
    ensures
        decide_spec(key, inst, wit),
{
    lemma_zero_decider_relation(key);
}


/// What the folding prover demands of its inputs: the declared
/// lengths, canonical elements, and commitments that match freshly
/// recomputed codeword roots.
pub open spec fn prove_pre(
    key: IndexProverKey,
    acc_i: AccumulatorInstance,
    acc_w: AccumulatorWitness,
    inp_i: FullAssignment,
    inp_w: CommitmentFullAssignment,
) -> bool {
    let n = key.index_info.num_variables;
    &&& inp_i.input@.len() + inp_i.witness@.len() == n
    &&& acc_i.w@.len() == n
    &&& acc_i.err@.len() == n
    &&& inp_i.wf()
    &&& acc_i.wf()
    &&& codeword_root(vals(acc_i.w@)) == acc_w.blinded_w.value()
    &&& codeword_root(vals(acc_i.err@)) == acc_w.blinded_err.value()
    &&& codeword_root(inp_z(inp_i)) == inp_w.blinded_assignment.value()
}

/// A correct opening of position `idx` in the codeword tree of the
/// coefficient vector `coeffs`: the right index, the codeword value
/// as the leaf, the sibling digests of the tree, and a path that
/// hashes up to the tree root.
pub open spec fn opening_ok(o: MerkleOpening, idx: int, coeffs: Seq<int>) -> bool {
    let code = code_spec(coeffs, RATE as nat);
    &&& o.wf()
    &&& o.index == idx
    &&& 0 <= idx < RATE
    &&& o.leaf.value() == code[idx]
    &&& o.siblings@.len() == 9
    &&& (forall|k: int|
        0 <= k < 9 ==> vals(o.siblings@)[k] == sibling_at(digests_of(code), idx, k as nat))
    &&& path_root(hash_leaf_of(code[idx]), idx as nat, vals(o.siblings@)) == merkle_root_spec(
        code,
    )
}

/// Everything the folding prover promises of its output: the folded
/// instance, the fresh roots, the cross-term, and one correct opening
/// per spot-check index in each of the six codeword trees.
pub open spec fn prove_post(
    key: IndexProverKey,
    acc_i: AccumulatorInstance,
    acc_w: AccumulatorWitness,
    inp_i: FullAssignment,
    inp_w: CommitmentFullAssignment,
    new_i: AccumulatorInstance,
    new_w: AccumulatorWitness,
    pf: Proof,
) -> bool {
    let n = key.index_info.num_variables;
    let z = inp_z(inp_i);
    let w = vals(acc_i.w@);
    let e = vals(acc_i.err@);
    let r = scalar_of(inp_w, acc_w);
    let t = cross_term(key, z, w, acc_i.c.value());
    &&& new_i.wf()
    &&& new_w.wf()
    &&& pf.wf()
    &&& new_i.w@.len() == n
    &&& new_i.err@.len() == n
    &&& vals(new_i.w@) == fold_spec(w, z, r)
    &&& vals(new_i.err@) == fold_spec(e, t, r)
    &&& new_i.c.value() == (acc_i.c.value() + r) % p()
    &&& new_w.blinded_w.value() == codeword_root(fold_spec(w, z, r))
    &&& new_w.blinded_err.value() == codeword_root(fold_spec(e, t, r))
    &&& pf.t@.len() == n
    &&& vals(pf.t@) == t
    &&& pf.blinded_t.value() == codeword_root(t)
    &&& pf.acc_openings@.len() == QUERY_COUNT
    &&& pf.new_acc_openings@.len() == QUERY_COUNT
    &&& pf.input_openings@.len() == QUERY_COUNT
    &&& pf.err_openings@.len() == QUERY_COUNT
    &&& pf.new_err_openings@.len() == QUERY_COUNT
    &&& pf.t_openings@.len() == QUERY_COUNT
    &&& (forall|j: int| 0 <= j < QUERY_COUNT ==> #[trigger] prove_spot(
        key,
        acc_i,
        acc_w,
        inp_i,
        inp_w,
        pf,
        j,
    ))
}

/// The six openings the prover emits for the `j`-th spot-check index,
/// each correct for its codeword tree.
pub open spec fn prove_spot(
    key: IndexProverKey,
    acc_i: AccumulatorInstance,
    acc_w: AccumulatorWitness,
    inp_i: FullAssignment,
    inp_w: CommitmentFullAssignment,
    pf: Proof,
    j: int,
) -> bool {
    let z = inp_z(inp_i);
    let w = vals(acc_i.w@);
    let e = vals(acc_i.err@);
    let r = scalar_of(inp_w, acc_w);
    let t = cross_term(key, z, w, acc_i.c.value());
    let idx = index_of(inp_w, acc_w, j as nat);
    &&& opening_ok(pf.acc_openings@[j], idx, w)
    &&& opening_ok(pf.new_acc_openings@[j], idx, fold_spec(w, z, r))
    &&& opening_ok(pf.input_openings@[j], idx, z)
    &&& opening_ok(pf.err_openings@[j], idx, e)
    &&& opening_ok(pf.new_err_openings@[j], idx, fold_spec(e, t, r))
    &&& opening_ok(pf.t_openings@[j], idx, t)
}

/// Encodes a vector, whose length fits the codeword, at the codeword
/// length.
fn encode_checked(v: &Vec<Felt>) -> (code: RSCode)
    requires
        wf_vec(v@),
        v@.len() <= RATE,
    ensures
        code.wf(),
        code.t == RATE,
        code.coeffs@ == v@,
        vals(code.code@) == code_spec(vals(v@), RATE as nat),
        code.code@.len() == RATE,
        wf_vec(code.code@),
{
    let c = crate::matrix::copy_felts(v);
    match RSCode::encode(c, RATE) {
        Ok(code) => code,
        Err(e) => {
            proof {
                assert(false);
            }
            RSCode {
                evaluation_domain: Vec::new(),
                code: Vec::new(),
                coeffs: Vec::new(),
                t: 0,
                d: 0,
            }
        },
    }
}

/// A tree over a full codeword has ten levels.
proof fn lemma_codeword_tree_height(h: int)
    requires
        h >= 1,
        crate::merkle::two_pow((h - 1) as nat) == RATE,
    ensures
        h == 10,
{
    reveal_with_fuel(crate::merkle::two_pow, 12);
    if h <= 9 {
        crate::merkle::lemma_two_pow_monotone((h - 1) as nat, 8);
        assert(crate::merkle::two_pow(8) == 256);
    }
    if h >= 11 {
        crate::merkle::lemma_two_pow_monotone(10, (h - 1) as nat);
        assert(crate::merkle::two_pow(10) == 1024);
    }
}


/// Opens one codeword tree at every spot-check index.
fn open_batch(tree: &crate::merkle::MerkleTree, code: &RSCode, indices: &Vec<usize>) -> (r: Vec<
    MerkleOpening,
>)
    requires
        code.wf(),
        code.t == RATE,
        tree.wf(),
        tree.level0() == digests_of(vals(code.code@)),
        crate::merkle::two_pow((tree.height() - 1) as nat) == RATE,
        tree.height() >= 1,
        indices@.len() == QUERY_COUNT,
        forall|j: int| 0 <= j < QUERY_COUNT ==> (#[trigger] indices@[j]) < RATE,
    ensures
        r@.len() == QUERY_COUNT,
        forall|j: int|
            0 <= j < QUERY_COUNT ==> opening_ok(
                #[trigger] r@[j],
                indices@[j] as int,
                vals(code.coeffs@),
            ),
{
    proof {
        lemma_codeword_tree_height(tree.height());
    }
    let mut r: Vec<MerkleOpening> = Vec::new();
    let mut j: usize = 0;
    while j < QUERY_COUNT
        invariant
            j <= QUERY_COUNT,
            code.wf(),
            code.t == RATE,
            tree.wf(),
            tree.level0() == digests_of(vals(code.code@)),
            tree.height() == 10,
            indices@.len() == QUERY_COUNT,
            forall|q: int| 0 <= q < QUERY_COUNT ==> (#[trigger] indices@[q]) < RATE,
            r@.len() == j,
            forall|q: int|
                0 <= q < j ==> opening_ok(
                    #[trigger] r@[q],
                    indices@[q] as int,
                    vals(code.coeffs@),
                ),
        decreases QUERY_COUNT - j,
    {
        let idx = indices[j];
        proof {
            assert(vals(code.code@).len() == RATE);
            assert(tree.level0().len() == RATE);
        }
        let sibs = tree.open(idx);
        let o = MerkleOpening { index: idx, leaf: code.code[idx], siblings: sibs };
        proof {
            let coeffs = vals(code.coeffs@);
            let cs = code_spec(coeffs, RATE as nat);
            assert(vals(code.code@) == cs);
            assert(o.leaf.value() == cs[idx as int]);
            assert(digests_of(cs) == tree.level0());
            assert(tree.level0()[idx as int] == hash_leaf_of(cs[idx as int]));
            assert(merkle_root_spec(cs) == crate::merkle::root_of_digests(digests_of(cs)));
            assert(opening_ok(o, idx as int, coeffs));
        }
        r.push(o);
        j = j + 1;
    }
    r
}

impl BDASAccumulationScheme {
    /// Folds one NARK input into the accumulator: derives the scalar
    /// `r`, computes the cross-term, folds vectors and scalar, commits
    /// to the new codewords, and opens all six trees at the
    /// Fiat-Shamir indices.  Inputs whose declared lengths or
    /// commitments disagree with the data are refused.
    pub fn prove(
        prover_key: &IndexProverKey,
        old_accumulator: (&AccumulatorInstance, &AccumulatorWitness),
        input: (&FullAssignment, &CommitmentFullAssignment),
        cfg: &MerkleHashConfig,
    ) -> (r: Result<((AccumulatorInstance, AccumulatorWitness), Proof), SchemeError>)
        requires
            prover_key.wf(),
        ensures
            r is Ok <==> prove_pre(
                *prover_key,
                *old_accumulator.0,
                *old_accumulator.1,
                *input.0,
                *input.1,
            ),
            r is Err ==> r == Result::<
                ((AccumulatorInstance, AccumulatorWitness), Proof),
                SchemeError,
            >::Err(SchemeError::PreconditionMismatch),
            r is Ok ==> prove_post(
                *prover_key,
                *old_accumulator.0,
                *old_accumulator.1,
                *input.0,
                *input.1,
                r->Ok_0.0.0,
                r->Ok_0.0.1,
                r->Ok_0.1,
            ),
    {
        let (acc_instance, acc_witness) = old_accumulator;
        let (input_instance, input_witness) = input;
        let n = prover_key.index_info.num_variables;
        if input_instance.input.len() > RATE as usize || input_instance.witness.len()
            > RATE as usize {
            return Err(SchemeError::PreconditionMismatch);
        }
        if input_instance.input.len() + input_instance.witness.len() != n {
            return Err(SchemeError::PreconditionMismatch);
        }
        if acc_instance.w.len() != n || acc_instance.err.len() != n {
            return Err(SchemeError::PreconditionMismatch);
        }
        if !check_canonical(&input_instance.input) || !check_canonical(&input_instance.witness) {
            return Err(SchemeError::PreconditionMismatch);
        }
        if !check_canonical(&acc_instance.w) || !check_canonical(&acc_instance.err)
            || !crate::field::felt_is_canonical(&acc_instance.c) {
            return Err(SchemeError::PreconditionMismatch);
        }
        let z = crate::matrix::concat_felts(&input_instance.input, &input_instance.witness);
        let ghost zv = vals(z@);
        let ghost wv = vals(acc_instance.w@);
        let ghost ev = vals(acc_instance.err@);
        let ghost nn = n as nat;

        // recompute the three committed roots and hold them against
        // the claimed commitments
        let w_code = encode_checked(&acc_instance.w);
        let err_code = encode_checked(&acc_instance.err);
        let z_code = encode_checked(&z);
        proof {
            lemma_rate_is_pow2();
        }
        let w_tree = commit(cfg, &w_code.code);
        let err_tree = commit(cfg, &err_code.code);
        let z_tree = commit(cfg, &z_code.code);
        let w_root = w_tree.root();
        let err_root = err_tree.root();
        let z_root = z_tree.root();
        if !felts_equal(&w_root, &acc_witness.blinded_w) {
            return Err(SchemeError::PreconditionMismatch);
        }
        if !felts_equal(&err_root, &acc_witness.blinded_err) {
            return Err(SchemeError::PreconditionMismatch);
        }
        if !felts_equal(&z_root, &input_witness.blinded_assignment) {
            return Err(SchemeError::PreconditionMismatch);
        }

        // the Fiat-Shamir scalar
        let iw_vec = vec![input_witness.blinded_assignment];
        let aw_vec = vec![acc_witness.blinded_w];
        let rv = get_randomness(&iw_vec, &aw_vec);
        let r_f = rv[0];
        let ghost rr = scalar_of(*input_witness, *acc_witness);
        proof {
            assert(r_f.value() == rr);
        }

        // the six padded matrix images
        let empty: Vec<Felt> = Vec::new();
        let az = matrix_vec_mul(&prover_key.a, &input_instance.input, &input_instance.witness);
        let bz = matrix_vec_mul(&prover_key.b, &input_instance.input, &input_instance.witness);
        let cz = matrix_vec_mul(&prover_key.c, &input_instance.input, &input_instance.witness);
        let aw = matrix_vec_mul(&prover_key.a, &acc_instance.w, &empty);
        let bw = matrix_vec_mul(&prover_key.b, &acc_instance.w, &empty);
        let cw = matrix_vec_mul(&prover_key.c, &acc_instance.w, &empty);
        proof {
            assert(acc_instance.w@ + empty@ =~= acc_instance.w@);
            assert(vals(az@).len() == az@.len());
            assert(vals(bz@).len() == bz@.len());
            assert(vals(cz@).len() == cz@.len());
            assert(vals(aw@).len() == aw@.len());
            assert(vals(bw@).len() == bw@.len());
            assert(vals(cw@).len() == cw@.len());
            assert(rows_of(prover_key.a).len() == prover_key.a@.len());
            assert(rows_of(prover_key.b).len() == prover_key.b@.len());
            assert(rows_of(prover_key.c).len() == prover_key.c@.len());
            assert(mv_rows(rows_of(prover_key.a), zv).len() == rows_of(prover_key.a).len());
            assert(mv_rows(rows_of(prover_key.b), zv).len() == rows_of(prover_key.b).len());
            assert(mv_rows(rows_of(prover_key.c), zv).len() == rows_of(prover_key.c).len());
            assert(mv_rows(rows_of(prover_key.a), wv).len() == rows_of(prover_key.a).len());
            assert(mv_rows(rows_of(prover_key.b), wv).len() == rows_of(prover_key.b).len());
            assert(mv_rows(rows_of(prover_key.c), wv).len() == rows_of(prover_key.c).len());
        }
        let azp = pad_to(az, n);
        let bzp = pad_to(bz, n);
        let czp = pad_to(cz, n);
        let awp = pad_to(aw, n);
        let bwp = pad_to(bw, n);
        let cwp = pad_to(cw, n);

        // the cross-term t = Az (.) Bw + Aw (.) Bz - (Cw + c Cz)
        let azbw = had_product(&azp, &bwp);
        let awbz = had_product(&awp, &bzp);
        proof {
            assert(vals(azbw@).len() == vals(azp@).len());
            assert(vals(awbz@).len() == vals(awp@).len());
        }
        let sum = add_vectors(&azbw, &awbz);
        let czc = scalar_mult(&acc_instance.c, &czp);
        proof {
            assert(vals(czc@).len() == vals(czp@).len());
        }
        let cwsum = add_vectors(&cwp, &czc);
        proof {
            assert(vals(sum@).len() == nn);
            assert(vals(cwsum@).len() == nn);
        }
        let t = sub_vectors(&sum, &cwsum);
        let ghost tg = cross_term(*prover_key, zv, wv, acc_instance.c.value());
        proof {
            let c_old = acc_instance.c.value();
            assert forall|i: int| 0 <= i < nn implies vals(t@)[i] == tg[i] by {
                let azi = mv_padded(rows_of(prover_key.a), zv, nn)[i];
                let bzi = mv_padded(rows_of(prover_key.b), zv, nn)[i];
                let czi = mv_padded(rows_of(prover_key.c), zv, nn)[i];
                let awi = mv_padded(rows_of(prover_key.a), wv, nn)[i];
                let bwi = mv_padded(rows_of(prover_key.b), wv, nn)[i];
                let cwi = mv_padded(rows_of(prover_key.c), wv, nn)[i];
                assert(vals(sum@)[i] == ((azi * bwi) % p() + (awi * bzi) % p()) % p());
                lemma_add_mod_noop(azi * bwi, awi * bzi, p());
                assert(vals(cwsum@)[i] == (cwi + (c_old * czi) % p()) % p());
                lemma_add_mod_noop_right(cwi, c_old * czi, p());
                lemma_sub_mod_noop(azi * bwi + awi * bzi, cwi + c_old * czi, p());
            }
            assert(vals(t@) =~= tg);
        }

        // fold the vectors and the scalar
        let rz = scalar_mult(&r_f, &z);
        proof {
            assert(vals(rz@).len() == zv.len());
        }
        let new_w = add_vectors(&acc_instance.w, &rz);
        let rt = scalar_mult(&r_f, &t);
        proof {
            assert(vals(rt@).len() == vals(t@).len());
        }
        let new_err = add_vectors(&acc_instance.err, &rt);
        let new_c = fadd(&acc_instance.c, &r_f);
        proof {
            assert forall|i: int| 0 <= i < nn implies vals(new_w@)[i] == fold_spec(wv, zv, rr)[i]
            by {
                lemma_add_mod_noop_right(wv[i], rr * zv[i], p());
            }
            assert(vals(new_w@) =~= fold_spec(wv, zv, rr));
            assert forall|i: int| 0 <= i < nn implies vals(new_err@)[i] == fold_spec(ev, tg, rr)[i]
            by {
                lemma_add_mod_noop_right(ev[i], rr * tg[i], p());
            }
            assert(vals(new_err@) =~= fold_spec(ev, tg, rr));
        }

        // commit to the folded codewords and the cross-term
        let t_code = encode_checked(&t);
        let new_w_code = encode_checked(&new_w);
        let new_err_code = encode_checked(&new_err);
        let t_tree = commit(cfg, &t_code.code);
        let new_w_tree = commit(cfg, &new_w_code.code);
        let new_err_tree = commit(cfg, &new_err_code.code);
        let blinded_t = t_tree.root();
        let new_w_root = new_w_tree.root();
        let new_err_root = new_err_tree.root();

        // the spot-check indices, and one opening per tree and index
        let indices = get_random_indices(QUERY_COUNT, &iw_vec, &aw_vec, RATE as usize);
        let acc_openings = open_batch(&w_tree, &w_code, &indices);
        let new_acc_openings = open_batch(&new_w_tree, &new_w_code, &indices);
        let input_openings = open_batch(&z_tree, &z_code, &indices);
        let err_openings = open_batch(&err_tree, &err_code, &indices);
        let new_err_openings = open_batch(&new_err_tree, &new_err_code, &indices);
        let t_openings = open_batch(&t_tree, &t_code, &indices);

        let new_acc_instance = AccumulatorInstance { w: new_w, err: new_err, c: new_c };
        let new_acc_witness = AccumulatorWitness {
            blinded_w: new_w_root,
            blinded_err: new_err_root,
        };
        let pf = Proof {
            acc_openings,
            new_acc_openings,
            input_openings,
            err_openings,
            new_err_openings,
            t_openings,
            blinded_t,
            t,
        };
        proof {
            assert forall|j: int| 0 <= j < QUERY_COUNT implies #[trigger] prove_spot(
                *prover_key,
                *acc_instance,
                *acc_witness,
                *input_instance,
                *input_witness,
                pf,
                j,
            ) by {
                let idx = index_of(*input_witness, *acc_witness, j as nat);
                assert(indices@[j] as int == idx);
                assert(opening_ok(pf.acc_openings@[j], idx, vals(w_code.coeffs@)));
                assert(opening_ok(pf.new_acc_openings@[j], idx, vals(new_w_code.coeffs@)));
                assert(opening_ok(pf.input_openings@[j], idx, vals(z_code.coeffs@)));
                assert(opening_ok(pf.err_openings@[j], idx, vals(err_code.coeffs@)));
                assert(opening_ok(pf.new_err_openings@[j], idx, vals(new_err_code.coeffs@)));
                assert(opening_ok(pf.t_openings@[j], idx, vals(t_code.coeffs@)));
                assert(vals(z_code.coeffs@) == inp_z(*input_instance));
                assert(vals(new_w_code.coeffs@) == fold_spec(wv, zv, rr));
                assert(vals(new_err_code.coeffs@) == fold_spec(ev, tg, rr));
                assert(vals(t_code.coeffs@) == tg);
            }
        }
        Ok(((new_acc_instance, new_acc_witness), pf))
    }
}


/// One opening held against a locally recomputed codeword and a
/// committed root: the right index, the codeword value as the leaf,
/// and a path that hashes up to the root.
pub open spec fn opening_checks(o: MerkleOpening, idx: int, code: Seq<int>, root: Felt) -> bool {
    &&& o.index == idx
    &&& o.leaf.value() == code[idx]
    &&& path_root(hash_leaf_of(o.leaf.value()), idx as nat, vals(o.siblings@)) == root.value()
}

/// Everything the folding verifier checks at the `j`-th spot-check
/// index: the six openings against their roots and the two linear
/// relations between the recomputed codewords.
pub open spec fn verify_spot(
    pf: Proof,
    acc_w: AccumulatorWitness,
    new_w: AccumulatorWitness,
    inp_w: CommitmentFullAssignment,
    z: Seq<int>,
    w: Seq<int>,
    e: Seq<int>,
    wn: Seq<int>,
    en: Seq<int>,
    t: Seq<int>,
    j: int,
) -> bool {
    let idx = index_of(inp_w, acc_w, j as nat);
    let r = scalar_of(inp_w, acc_w);
    let zc = code_spec(z, RATE as nat);
    let wc = code_spec(w, RATE as nat);
    let ec = code_spec(e, RATE as nat);
    let wnc = code_spec(wn, RATE as nat);
    let enc = code_spec(en, RATE as nat);
    let tc = code_spec(t, RATE as nat);
    &&& opening_checks(pf.input_openings@[j], idx, zc, inp_w.blinded_assignment)
    &&& opening_checks(pf.acc_openings@[j], idx, wc, acc_w.blinded_w)
    &&& opening_checks(pf.new_acc_openings@[j], idx, wnc, new_w.blinded_w)
    &&& opening_checks(pf.t_openings@[j], idx, tc, pf.blinded_t)
    &&& opening_checks(pf.err_openings@[j], idx, ec, acc_w.blinded_err)
    &&& opening_checks(pf.new_err_openings@[j], idx, enc, new_w.blinded_err)
    &&& wnc[idx] == (wc[idx] + r * zc[idx]) % p()
    &&& enc[idx] == (ec[idx] + r * tc[idx]) % p()
}

/// Everything the folding verifier accepts: shapes, canonicity, the
/// exact scalar relation `c_new = c_old + r`, and every spot check.
pub open spec fn verify_spec(
    key: IndexProverKey,
    pf: Proof,
    acc_i: AccumulatorInstance,
    acc_w: AccumulatorWitness,
    new_i: AccumulatorInstance,
    new_w: AccumulatorWitness,
    inp_i: FullAssignment,
    inp_w: CommitmentFullAssignment,
) -> bool {
    let n = key.index_info.num_variables;
    let r = scalar_of(inp_w, acc_w);
    &&& pf.acc_openings@.len() == QUERY_COUNT
    &&& pf.new_acc_openings@.len() == QUERY_COUNT
    &&& pf.input_openings@.len() == QUERY_COUNT
    &&& pf.err_openings@.len() == QUERY_COUNT
    &&& pf.new_err_openings@.len() == QUERY_COUNT
    &&& pf.t_openings@.len() == QUERY_COUNT
    &&& inp_i.input@.len() + inp_i.witness@.len() == n
    &&& acc_i.w@.len() == n
    &&& acc_i.err@.len() == n
    &&& new_i.w@.len() == n
    &&& new_i.err@.len() == n
    &&& pf.t@.len() == n
    &&& inp_i.wf()
    &&& acc_i.wf()
    &&& new_i.wf()
    &&& pf.wf()
    &&& new_i.c.value() == (acc_i.c.value() + r) % p()
    &&& (forall|j: int|
        0 <= j < QUERY_COUNT ==> #[trigger] verify_spot(
            pf,
            acc_w,
            new_w,
            inp_w,
            inp_z(inp_i),
            vals(acc_i.w@),
            vals(acc_i.err@),
            vals(new_i.w@),
            vals(new_i.err@),
            vals(pf.t@),
            j,
        ))
}

/// Checks that every opening in a vector is canonical.
fn check_openings(v: &Vec<MerkleOpening>) -> (r: bool)
    ensures
        r == crate::data_structures::wf_openings(v@),
{
    let n = v.len();
    let mut i: usize = 0;
    while i < n
        invariant
            n == v@.len(),
            i <= n,
            forall|j: int| 0 <= j < i ==> (#[trigger] v@[j]).wf(),
        decreases n - i,
    {
        let o = &v[i];
        if !crate::field::felt_is_canonical(&o.leaf) || !check_canonical(&o.siblings) {
            return false;
        }
        i = i + 1;
    }
    true
}


/// Checks one opening at spot-check position `j` against the local
/// codeword and the committed root.
fn check_family(
    cfg: &MerkleHashConfig,
    openings: &Vec<MerkleOpening>,
    code: &RSCode,
    root: &Felt,
    idx: usize,
    j: usize,
) -> (r: bool)
    requires
        j < openings@.len(),
        crate::data_structures::wf_openings(openings@),
        code.wf(),
        code.t == RATE,
        idx < RATE,
    ensures
        r == opening_checks(
            openings@[j as int],
            idx as int,
            code_spec(vals(code.coeffs@), RATE as nat),
            *root,
        ),
{
    let o = &openings[j];
    if o.index != idx {
        return false;
    }
    if !felts_equal(&o.leaf, &code.code[idx]) {
        proof {
            assert(vals(code.code@)[idx as int] == code.code@[idx as int].value());
        }
        return false;
    }
    verify_opening(cfg, root, o)
}

/// Runs every check of one spot-check position: the six openings and
/// the two linear relations.
fn check_spot(
    cfg: &MerkleHashConfig,
    pf: &Proof,
    acc_witness: &AccumulatorWitness,
    new_acc_witness: &AccumulatorWitness,
    input_witness: &CommitmentFullAssignment,
    z_code: &RSCode,
    w_code: &RSCode,
    err_code: &RSCode,
    new_w_code: &RSCode,
    new_err_code: &RSCode,
    t_code: &RSCode,
    r_f: &Felt,
    idx: usize,
    j: usize,
) -> (r: bool)
    requires
        j < QUERY_COUNT,
        pf.acc_openings@.len() == QUERY_COUNT,
        pf.new_acc_openings@.len() == QUERY_COUNT,
        pf.input_openings@.len() == QUERY_COUNT,
        pf.err_openings@.len() == QUERY_COUNT,
        pf.new_err_openings@.len() == QUERY_COUNT,
        pf.t_openings@.len() == QUERY_COUNT,
        crate::data_structures::wf_openings(pf.acc_openings@),
        crate::data_structures::wf_openings(pf.new_acc_openings@),
        crate::data_structures::wf_openings(pf.input_openings@),
        crate::data_structures::wf_openings(pf.err_openings@),
        crate::data_structures::wf_openings(pf.new_err_openings@),
        crate::data_structures::wf_openings(pf.t_openings@),
        z_code.wf() && z_code.t == RATE,
        w_code.wf() && w_code.t == RATE,
        err_code.wf() && err_code.t == RATE,
        new_w_code.wf() && new_w_code.t == RATE,
        new_err_code.wf() && new_err_code.t == RATE,
        t_code.wf() && t_code.t == RATE,
        idx < RATE,
        idx as int == index_of(*input_witness, *acc_witness, j as nat),
        r_f.value() == scalar_of(*input_witness, *acc_witness),
    ensures
        r == verify_spot(
            *pf,
            *acc_witness,
            *new_acc_witness,
            *input_witness,
            vals(z_code.coeffs@),
            vals(w_code.coeffs@),
            vals(err_code.coeffs@),
            vals(new_w_code.coeffs@),
            vals(new_err_code.coeffs@),
            vals(t_code.coeffs@),
            j as int,
        ),
{
    let ghost idxi = idx as int;
    let ghost rr = scalar_of(*input_witness, *acc_witness);
    let ok1 = check_family(cfg, &pf.input_openings, z_code, &input_witness.blinded_assignment, idx, j);
    if !ok1 {
        return false;
    }
    let ok2 = check_family(cfg, &pf.acc_openings, w_code, &acc_witness.blinded_w, idx, j);
    if !ok2 {
        return false;
    }
    let ok3 = check_family(cfg, &pf.new_acc_openings, new_w_code, &new_acc_witness.blinded_w, idx, j);
    if !ok3 {
        return false;
    }
    let ok4 = check_family(cfg, &pf.t_openings, t_code, &pf.blinded_t, idx, j);
    if !ok4 {
        return false;
    }
    let ok5 = check_family(cfg, &pf.err_openings, err_code, &acc_witness.blinded_err, idx, j);
    if !ok5 {
        return false;
    }
    let ok6 = check_family(cfg, &pf.new_err_openings, new_err_code, &new_acc_witness.blinded_err, idx, j);
    if !ok6 {
        return false;
    }
    let wn_at = new_w_code.code[idx];
    let w_at = w_code.code[idx];
    let z_at = z_code.code[idx];
    let en_at = new_err_code.code[idx];
    let e_at = err_code.code[idx];
    let t_at = t_code.code[idx];
    let lin_w = felts_equal(&wn_at, &fadd(&w_at, &fmul(&r_f, &z_at)));
    let lin_e = felts_equal(&en_at, &fadd(&e_at, &fmul(&r_f, &t_at)));
    proof {
        let zc = code_spec(vals(z_code.coeffs@), RATE as nat);
        let wc = code_spec(vals(w_code.coeffs@), RATE as nat);
        let ec = code_spec(vals(err_code.coeffs@), RATE as nat);
        let wnc = code_spec(vals(new_w_code.coeffs@), RATE as nat);
        let enc = code_spec(vals(new_err_code.coeffs@), RATE as nat);
        let tc = code_spec(vals(t_code.coeffs@), RATE as nat);
        assert(wn_at.value() == wnc[idxi]);
        assert(w_at.value() == wc[idxi]);
        assert(z_at.value() == zc[idxi]);
        assert(en_at.value() == enc[idxi]);
        assert(e_at.value() == ec[idxi]);
        assert(t_at.value() == tc[idxi]);
        lemma_add_mod_noop_right(wc[idxi], rr * zc[idxi], p());
        lemma_small_mod(wnc[idxi] as nat, p() as nat);
        lemma_add_mod_noop_right(ec[idxi], rr * tc[idxi], p());
        lemma_small_mod(enc[idxi] as nat, p() as nat);
        assert(lin_w == (wnc[idxi] == (wc[idxi] + rr * zc[idxi]) % p()));
        assert(lin_e == (enc[idxi] == (ec[idxi] + rr * tc[idxi]) % p()));
    }
    lin_w && lin_e
}

impl BDASAccumulationScheme {
    /// Checks one fold: recomputes the six codewords locally from the
    /// instances and the cross-term, re-derives the scalar and the
    /// spot-check indices, and holds the openings, the scalar
    /// relation `c_new = c_old + r`, and the two codeword linearity
    /// relations against them.  Never an error; every failure is
    /// `false`.
    #[verifier::rlimit(100)]
    pub fn verify(
        verifier_key: &IndexVerifierKey,
        proof: &Proof,
        old_accumulator: (&AccumulatorInstance, &AccumulatorWitness),
        new_accumulator: (&AccumulatorInstance, &AccumulatorWitness),
        input: (&FullAssignment, &CommitmentFullAssignment),
        cfg: &MerkleHashConfig,
    ) -> (r: Result<bool, SchemeError>)
        requires
            verifier_key.wf(),
        ensures
            r is Ok,
            r->Ok_0 == verify_spec(
                *verifier_key,
                *proof,
                *old_accumulator.0,
                *old_accumulator.1,
                *new_accumulator.0,
                *new_accumulator.1,
                *input.0,
                *input.1,
            ),
    {
        let (acc_instance, acc_witness) = old_accumulator;
        let (new_acc_instance, new_acc_witness) = new_accumulator;
        let (input_instance, input_witness) = input;
        let n = verifier_key.index_info.num_variables;
        if proof.acc_openings.len() != QUERY_COUNT || proof.new_acc_openings.len() != QUERY_COUNT
            || proof.input_openings.len() != QUERY_COUNT || proof.err_openings.len()
            != QUERY_COUNT || proof.new_err_openings.len() != QUERY_COUNT
            || proof.t_openings.len() != QUERY_COUNT {
            return Ok(false);
        }
        if input_instance.input.len() > RATE as usize || input_instance.witness.len()
            > RATE as usize {
            return Ok(false);
        }
        if input_instance.input.len() + input_instance.witness.len() != n {
            return Ok(false);
        }
        if acc_instance.w.len() != n || acc_instance.err.len() != n || new_acc_instance.w.len()
            != n || new_acc_instance.err.len() != n || proof.t.len() != n {
            return Ok(false);
        }
        if !check_canonical(&input_instance.input) || !check_canonical(&input_instance.witness) {
            return Ok(false);
        }
        if !check_canonical(&acc_instance.w) || !check_canonical(&acc_instance.err)
            || !crate::field::felt_is_canonical(&acc_instance.c) {
            return Ok(false);
        }
        if !check_canonical(&new_acc_instance.w) || !check_canonical(&new_acc_instance.err)
            || !crate::field::felt_is_canonical(&new_acc_instance.c) {
            return Ok(false);
        }
        if !check_canonical(&proof.t) || !crate::field::felt_is_canonical(&proof.blinded_t) {
            return Ok(false);
        }
        if !check_openings(&proof.acc_openings) || !check_openings(&proof.new_acc_openings)
            || !check_openings(&proof.input_openings) || !check_openings(&proof.err_openings)
            || !check_openings(&proof.new_err_openings) || !check_openings(&proof.t_openings) {
            return Ok(false);
        }
        let z = crate::matrix::concat_felts(&input_instance.input, &input_instance.witness);
        let z_code = encode_checked(&z);
        let w_code = encode_checked(&acc_instance.w);
        let err_code = encode_checked(&acc_instance.err);
        let new_w_code = encode_checked(&new_acc_instance.w);
        let new_err_code = encode_checked(&new_acc_instance.err);
        let t_code = encode_checked(&proof.t);
        let iw_vec = vec![input_witness.blinded_assignment];
        let aw_vec = vec![acc_witness.blinded_w];
        let rv = get_randomness(&iw_vec, &aw_vec);
        let r_f = rv[0];
        let expected_c = fadd(&acc_instance.c, &r_f);
        if !felts_equal(&new_acc_instance.c, &expected_c) {
            return Ok(false);
        }
        let indices = get_random_indices(QUERY_COUNT, &iw_vec, &aw_vec, RATE as usize);
        proof {
            assert(vals(z@) == inp_z(*input_instance));
        }
        let mut j: usize = 0;
        #[verifier::loop_isolation(false)]
        while j < QUERY_COUNT
            invariant
                j <= QUERY_COUNT,
                forall|q: int|
                    0 <= q < j ==> #[trigger] verify_spot(
                        *proof,
                        *acc_witness,
                        *new_acc_witness,
                        *input_witness,
                        inp_z(*input_instance),
                        vals(acc_instance.w@),
                        vals(acc_instance.err@),
                        vals(new_acc_instance.w@),
                        vals(new_acc_instance.err@),
                        vals(proof.t@),
                        q,
                    ),
            decreases QUERY_COUNT - j,
        {
            let idx = indices[j];
            let ok = check_spot(
                cfg,
                proof,
                acc_witness,
                new_acc_witness,
                input_witness,
                &z_code,
                &w_code,
                &err_code,
                &new_w_code,
                &new_err_code,
                &t_code,
                &r_f,
                idx,
                j,
            );
            if !ok {
                proof {
                    assert(!verify_spot(
                        *proof,
                        *acc_witness,
                        *new_acc_witness,
                        *input_witness,
                        inp_z(*input_instance),
                        vals(acc_instance.w@),
                        vals(acc_instance.err@),
                        vals(new_acc_instance.w@),
                        vals(new_acc_instance.err@),
                        vals(proof.t@),
                        j as int,
                    ));
                    assert(!verify_spec(
                        *verifier_key,
                        *proof,
                        *old_accumulator.0,
                        *old_accumulator.1,
                        *new_accumulator.0,
                        *new_accumulator.1,
                        *input.0,
                        *input.1,
                    )) by {
                        if verify_spec(
                            *verifier_key,
                            *proof,
                            *old_accumulator.0,
                            *old_accumulator.1,
                            *new_accumulator.0,
                            *new_accumulator.1,
                            *input.0,
                            *input.1,
                        ) {
                            assert(verify_spot(
                                *proof,
                                *acc_witness,
                                *new_acc_witness,
                                *input_witness,
                                inp_z(*input_instance),
                                vals(acc_instance.w@),
                                vals(acc_instance.err@),
                                vals(new_acc_instance.w@),
                                vals(new_acc_instance.err@),
                                vals(proof.t@),
                                j as int,
                            ));
                        }
                    }
                }
                return Ok(false);
            }
            j = j + 1;
        }
        Ok(true)
    }
}

} // verus!
