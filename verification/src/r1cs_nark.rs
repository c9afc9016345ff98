//! The R1CS NARK: indexing a constraint system into its three
//! matrices, committing to a full assignment, and checking the
//! rank-one relation `(A·z) ⊙ (B·z) = C·z`.
//!
//! The constraint-synthesis front-end is an external collaborator: it
//! hands this module plain matrices and assignment vectors, extracted
//! in setup and prove mode on the same circuit.  The commitment binds
//! the assignment for the later folding spot-checks: it is the Merkle
//! root over the Reed-Solomon codeword of `input ‖ witness`.

use vstd::prelude::*;
use crate::errors::SchemeError;
use crate::field::{felt_is_canonical, felts_equal, Felt};
use crate::matrix::{
    had_spec, matrix_vec_mul, matrix_wf, mv_rows, vals, wf_vec, SparseMatrix, SparseRow,
};
use crate::merkle::{commit, is_pow2, merkle_root_spec};
use crate::poseidon::MerkleHashConfig;
use crate::reed_solomon::{code_spec, RSCode, RATE};

verus! {

/// There is no trusted setup; the public parameters are empty.
pub type PublicParameters = ();

/// The shape of an indexed constraint system.
#[derive(Clone, Copy, Debug, PartialEq, Eq, Structural)]
pub struct IndexInfo {
    /// How many constraint rows the matrices have.
    pub num_constraints: usize,
    /// The length of `input ‖ witness`.
    pub num_variables: usize,
}

/// The key of the indexed circuit: its three constraint matrices.
/// Prover, verifier and decider share it; there is no trapdoor.
#[derive(Clone, Debug, PartialEq, Eq)]
pub struct IndexProverKey {
    /// The shape of the matrices.
    pub index_info: IndexInfo,
    /// The left matrix.
    pub a: SparseMatrix,
    /// The right matrix.
    pub b: SparseMatrix,
    /// The output matrix.
    pub c: SparseMatrix,
}

/// Verifier and prover key are the same.
pub type IndexVerifierKey = IndexProverKey;

/// The rows of a matrix, as sequences.
pub open spec fn rows_of(m: SparseMatrix) -> Seq<Seq<(Felt, usize)>> {
    m@.map_values(|row: SparseRow| row@)
}

/// Two keys hold the same shape and the same matrices.
pub open spec fn key_eq(k1: IndexProverKey, k2: IndexProverKey) -> bool {
    &&& k1.index_info == k2.index_info
    &&& rows_of(k1.a) == rows_of(k2.a)
    &&& rows_of(k1.b) == rows_of(k2.b)
    &&& rows_of(k1.c) == rows_of(k2.c)
}

/// Copies one sparse row.
fn copy_row(row: &SparseRow) -> (r: SparseRow)
    ensures
        r@ == row@,
{
    let mut r: SparseRow = Vec::new();
    let n = row.len();
    let mut k: usize = 0;
    while k < n
        invariant
            n == row@.len(),
            k <= n,
            r@ == row@.subrange(0, k as int),
        decreases n - k,
    {
        proof {
            assert(r@.push(row@[k as int]) =~= row@.subrange(0, k + 1));
        }
        r.push(row[k]);
        k = k + 1;
    }
    assert(row@.subrange(0, n as int) =~= row@);
    r
}

/// Copies a sparse matrix.
fn copy_matrix(m: &SparseMatrix) -> (r: SparseMatrix)
    ensures
        rows_of(r) == rows_of(*m),
        r@.len() == m@.len(),
{
    let mut r: SparseMatrix = Vec::new();
    let n = m.len();
    let mut i: usize = 0;
    while i < n
        invariant
            n == m@.len(),
            i <= n,
            r@.len() == i,
            forall|j: int| 0 <= j < i ==> (#[trigger] r@[j])@ == m@[j]@,
        decreases n - i,
    {
        let row = copy_row(&m[i]);
        r.push(row);
        i = i + 1;
    }
    assert(rows_of(r) =~= rows_of(*m));
    r
}

impl IndexProverKey {
    /// The key is consistent: each matrix has one row per constraint,
    /// every column addresses the assignment, there are at least as
    /// many variables as constraints, and the assignment fits the
    /// fixed codeword length.
    pub open spec fn wf(self) -> bool {
        &&& self.index_info.num_variables >= 1
        &&& self.index_info.num_variables <= RATE
        &&& self.index_info.num_constraints <= self.index_info.num_variables
        &&& self.a@.len() == self.index_info.num_constraints
        &&& self.b@.len() == self.index_info.num_constraints
        &&& self.c@.len() == self.index_info.num_constraints
        &&& matrix_wf(rows_of(self.a), self.index_info.num_variables as int)
        &&& matrix_wf(rows_of(self.b), self.index_info.num_variables as int)
        &&& matrix_wf(rows_of(self.c), self.index_info.num_variables as int)
    }

    /// The all-zero key of the given shape: one empty row per
    /// constraint in each matrix.
    pub fn get_default(index_info: IndexInfo) -> (r: IndexProverKey)
        requires
            1 <= index_info.num_variables <= RATE,
            index_info.num_constraints <= index_info.num_variables,
        ensures
            r.wf(),
            r.index_info == index_info,
            forall|i: int| 0 <= i < r.a@.len() ==> (#[trigger] rows_of(r.a)[i]).len() == 0,
            forall|i: int| 0 <= i < r.b@.len() ==> (#[trigger] rows_of(r.b)[i]).len() == 0,
            forall|i: int| 0 <= i < r.c@.len() ==> (#[trigger] rows_of(r.c)[i]).len() == 0,
    {
        let n = index_info.num_constraints;
        let mut def_m: SparseMatrix = Vec::new();
        let mut i: usize = 0;
        while i < n
            invariant
                i <= n,
                def_m@.len() == i,
                forall|j: int| 0 <= j < i ==> (#[trigger] def_m@[j])@.len() == 0,
            decreases n - i,
        {
            let zer: SparseRow = Vec::new();
            def_m.push(zer);
            i = i + 1;
        }
        let a = copy_matrix(&def_m);
        let b = copy_matrix(&def_m);
        let c = def_m;
        let r = IndexProverKey { index_info, a, b, c };
        proof {
            assert(forall|j: int|
                0 <= j < r.c@.len() ==> (#[trigger] rows_of(r.c)[j]) == r.c@[j]@);
            assert(forall|j: int|
                0 <= j < r.a@.len() ==> (#[trigger] rows_of(r.a)[j]).len() == 0);
            assert(forall|j: int|
                0 <= j < r.b@.len() ==> (#[trigger] rows_of(r.b)[j]).len() == 0);
            assert(forall|j: int|
                0 <= j < r.c@.len() ==> (#[trigger] rows_of(r.c)[j]).len() == 0);
        }
        r
    }
}

/// A full assignment: the public input and the private witness.
#[derive(Clone, Debug, PartialEq, Eq)]
pub struct FullAssignment {
    /// The public part.
    pub input: Vec<Felt>,
    /// The private part.
    pub witness: Vec<Felt>,
}

impl FullAssignment {
    /// Every element is canonical.
    pub open spec fn wf(self) -> bool {
        wf_vec(self.input@) && wf_vec(self.witness@)
    }

    /// The whole assignment vector `input ‖ witness`, as integers.
    pub open spec fn z(self) -> Seq<int> {
        vals(self.input@ + self.witness@)
    }
}

/// The commitment to a full assignment: one Merkle root.
#[derive(Clone, Copy, Debug, PartialEq, Eq, Structural)]
pub struct CommitmentFullAssignment {
    /// The root of the tree over the assignment's codeword.
    pub blinded_assignment: Felt,
}

/// A NARK proof: the assignment in the clear with its commitment.
#[derive(Clone, Debug, PartialEq, Eq)]
pub struct Proof {
    /// The assignment.
    pub instance: FullAssignment,
    /// The Merkle root binding it.
    pub witness: CommitmentFullAssignment,
}

/// The Merkle root of the Reed-Solomon codeword of a vector: the one
/// commitment shape the scheme uses for assignments, accumulators and
/// cross-terms.
pub open spec fn codeword_root(v: Seq<int>) -> int {
    merkle_root_spec(code_spec(v, RATE as nat))
}

/// The rank-one relation at an assignment: the row-wise product of
/// the `A` and `B` images equals the `C` image.
pub open spec fn nark_relation(key: IndexProverKey, z: Seq<int>) -> bool {
    had_spec(mv_rows(rows_of(key.a), z), mv_rows(rows_of(key.b), z)) == mv_rows(rows_of(key.c), z)
}

/// Checks that every element of a vector is canonical.
pub fn check_canonical(v: &Vec<Felt>) -> (r: bool)
    ensures
        r == wf_vec(v@),
{
    let n = v.len();
    let mut i: usize = 0;
    while i < n
        invariant
            n == v@.len(),
            i <= n,
            forall|j: int| 0 <= j < i ==> (#[trigger] v@[j]).wf(),
        decreases n - i,
    {
        if !felt_is_canonical(&v[i]) {
            return false;
        }
        i = i + 1;
    }
    true
}

/// Checks a matrix against the key shape: canonical coefficients and
/// in-range column indices.
fn check_matrix(m: &SparseMatrix, rows: usize, width: usize) -> (r: bool)
    ensures
        r == (m@.len() == rows && matrix_wf(rows_of(*m), width as int)),
{
    if m.len() != rows {
        return false;
    }
    let mut i: usize = 0;
    while i < rows
        invariant
            rows == m@.len(),
            i <= rows,
            forall|j: int| 0 <= j < i ==> crate::matrix::row_wf(#[trigger] rows_of(*m)[j], width as int),
        decreases rows - i,
    {
        let row = &m[i];
        let rl = row.len();
        let mut k: usize = 0;
        while k < rl
            invariant
                rl == row@.len(),
                k <= rl,
                row@ == m@[i as int]@,
                0 <= i < m@.len(),
                forall|q: int|
                    0 <= q < k ==> (#[trigger] row@[q]).0.wf() && row@[q].1 < width,
            decreases rl - k,
        {
            let (coeff, col) = row[k];
            if col >= width || !felt_is_canonical(&coeff) {
                proof {
                    assert(rows_of(*m)[i as int] == row@);
                    assert(!crate::matrix::row_wf(row@, width as int)) by {
                        if crate::matrix::row_wf(row@, width as int) {
                            assert(row@[k as int].0.wf() && row@[k as int].1 < width);
                        }
                    }
                    assert(!matrix_wf(rows_of(*m), width as int)) by {
                        if matrix_wf(rows_of(*m), width as int) {
                            assert(crate::matrix::row_wf(rows_of(*m)[i as int], width as int));
                        }
                    }
                }
                return false;
            }
            k = k + 1;
        }
        proof {
            assert(rows_of(*m)[i as int] == m@[i as int]@);
        }
        i = i + 1;
    }
    true
}

/// What the indexer accepts: at least one variable, an assignment
/// that fits the fixed codeword length, no more constraints than
/// variables, one row per constraint in each matrix, and well-formed
/// rows.
pub open spec fn index_ok(
    a: SparseMatrix,
    b: SparseMatrix,
    c: SparseMatrix,
    num_input_variables: int,
    num_witness_variables: int,
    num_constraints: int,
) -> bool {
    let n = num_input_variables + num_witness_variables;
    &&& 1 <= n <= RATE
    &&& num_constraints <= n
    &&& a@.len() == num_constraints
    &&& b@.len() == num_constraints
    &&& c@.len() == num_constraints
    &&& matrix_wf(rows_of(a), n)
    &&& matrix_wf(rows_of(b), n)
    &&& matrix_wf(rows_of(c), n)
}

/// The NARK itself; all operations are associated functions.
pub struct R1CSNark {}

impl R1CSNark {
    /// There is no trusted setup.
    pub fn setup() -> PublicParameters {
    }

    /// Packages the matrices and counts that the front-end extracted
    /// in setup mode into the prover and verifier keys.  The two keys
    /// are equal by value.  Exactly the shapes that fit the scheme are
    /// accepted.
    pub fn index(
        _pp: &PublicParameters,
        a: SparseMatrix,
        b: SparseMatrix,
        c: SparseMatrix,
        num_input_variables: usize,
        num_witness_variables: usize,
        num_constraints: usize,
    ) -> (r: Result<(IndexProverKey, IndexVerifierKey), SchemeError>)
        ensures
            r is Ok <==> index_ok(
                a,
                b,
                c,
                num_input_variables as int,
                num_witness_variables as int,
                num_constraints as int,
            ),
            r is Ok ==> {
                &&& r->Ok_0.0.wf()
                &&& r->Ok_0.1.wf()
                &&& key_eq(r->Ok_0.1, r->Ok_0.0)
                &&& r->Ok_0.0.index_info.num_constraints == num_constraints
                &&& r->Ok_0.0.index_info.num_variables == num_input_variables
                    + num_witness_variables
                &&& r->Ok_0.0.a == a
                &&& r->Ok_0.0.b == b
                &&& r->Ok_0.0.c == c
            },
            r is Err ==> r == Result::<(IndexProverKey, IndexVerifierKey), SchemeError>::Err(
                SchemeError::PreconditionMismatch,
            ),
    {
        if num_input_variables > RATE as usize || num_witness_variables > RATE as usize {
            return Err(SchemeError::PreconditionMismatch);
        }
        let num_variables = num_input_variables + num_witness_variables;
        if num_variables < 1 || num_variables > RATE as usize || num_constraints > num_variables {
            return Err(SchemeError::PreconditionMismatch);
        }
        if !check_matrix(&a, num_constraints, num_variables) || !check_matrix(
            &b,
            num_constraints,
            num_variables,
        ) || !check_matrix(&c, num_constraints, num_variables) {
            return Err(SchemeError::PreconditionMismatch);
        }
        let index_info = IndexInfo { num_constraints, num_variables };
        let a2 = copy_matrix(&a);
        let b2 = copy_matrix(&b);
        let c2 = copy_matrix(&c);
        let ipk = IndexProverKey { index_info, a, b, c };
        let ivk = IndexProverKey { index_info, a: a2, b: b2, c: c2 };
        Ok((ipk, ivk))
    }

    /// Commits to the assignment the front-end extracted in prove
    /// mode.  Refuses, with a precondition mismatch, an assignment
    /// whose length disagrees with the key or that is not canonical.
    pub fn prove(
        ipk: &IndexProverKey,
        input: Vec<Felt>,
        witness: Vec<Felt>,
        cfg: &MerkleHashConfig,
    ) -> (r: Result<Proof, SchemeError>)
        requires
            ipk.wf(),
        ensures
            r is Ok <==> (input@.len() + witness@.len() == ipk.index_info.num_variables && wf_vec(
                input@,
            ) && wf_vec(witness@)),
            r is Err ==> r == Result::<Proof, SchemeError>::Err(SchemeError::PreconditionMismatch),
            r is Ok ==> {
                &&& r->Ok_0.instance.input == input
                &&& r->Ok_0.instance.witness == witness
                &&& r->Ok_0.witness.blinded_assignment.wf()
                &&& r->Ok_0.witness.blinded_assignment.value() == codeword_root(
                    vals(input@ + witness@),
                )
            },
    {
        if input.len() > RATE as usize || witness.len() > RATE as usize {
            return Err(SchemeError::PreconditionMismatch);
        }
        if input.len() + witness.len() != ipk.index_info.num_variables {
            return Err(SchemeError::PreconditionMismatch);
        }
        if !check_canonical(&input) || !check_canonical(&witness) {
            return Err(SchemeError::PreconditionMismatch);
        }
        let mut z: Vec<Felt> = Vec::new();
        let mut i: usize = 0;
        let ni = input.len();
        while i < ni
            invariant
                ni == input@.len(),
                i <= ni,
                wf_vec(input@),
                z@ == input@.subrange(0, i as int),
            decreases ni - i,
        {
            z.push(input[i]);
            i = i + 1;
        }
        let nw = witness.len();
        let mut j: usize = 0;
        while j < nw
            invariant
                nw == witness@.len(),
                j <= nw,
                wf_vec(input@),
                wf_vec(witness@),
                z@ == input@.subrange(0, input@.len() as int) + witness@.subrange(0, j as int),
            decreases nw - j,
        {
            proof {
                assert(z@.push(witness@[j as int]) =~= input@.subrange(0, input@.len() as int)
                    + witness@.subrange(0, j + 1));
            }
            z.push(witness[j]);
            j = j + 1;
        }
        assert(z@ =~= input@ + witness@);
        let code = match RSCode::encode(z, RATE) {
            Ok(code) => code,
            Err(e) => {
                proof {
                    assert(false);
                }
                return Err(e);
            },
        };
        proof {
            lemma_rate_is_pow2();
        }
        let tree = commit(cfg, &code.code);
        let root = tree.root();
        Ok(
            Proof {
                instance: FullAssignment { input, witness },
                witness: CommitmentFullAssignment { blinded_assignment: root },
            },
        )
    }

    /// Checks the rank-one relation `(A·z) ⊙ (B·z) = C·z` over the
    /// assignment `input ‖ proof.instance.witness`.  A proof whose
    /// data does not fit the key, or is not canonical, is rejected.
    pub fn verify(ivk: &IndexVerifierKey, input: &Vec<Felt>, proof: &Proof) -> (r: bool)
        requires
            ivk.wf(),
        ensures
            r == (input@.len() + proof.instance.witness@.len() == ivk.index_info.num_variables
                && wf_vec(input@) && wf_vec(proof.instance.witness@) && nark_relation(
                *ivk,
                vals(input@ + proof.instance.witness@),
            )),
    {
        if input.len() > RATE as usize || proof.instance.witness.len() > RATE as usize {
            return false;
        }
        if input.len() + proof.instance.witness.len() != ivk.index_info.num_variables {
            return false;
        }
        if !check_canonical(input) || !check_canonical(&proof.instance.witness) {
            return false;
        }
        let a_times = matrix_vec_mul(&ivk.a, input, &proof.instance.witness);
        let b_times = matrix_vec_mul(&ivk.b, input, &proof.instance.witness);
        let c_times = matrix_vec_mul(&ivk.c, input, &proof.instance.witness);
        proof {
            assert(vals(a_times@).len() == a_times@.len());
            assert(vals(b_times@).len() == b_times@.len());
            assert(vals(c_times@).len() == c_times@.len());
            assert(rows_of(ivk.a).len() == ivk.a@.len());
            assert(rows_of(ivk.b).len() == ivk.b@.len());
            assert(rows_of(ivk.c).len() == ivk.c@.len());
        }
        let had = crate::matrix::had_product(&a_times, &b_times);
        let ghost z = vals(input@ + proof.instance.witness@);
        proof {
            assert(mv_rows(rows_of(ivk.a), z).len() == rows_of(ivk.a).len());
            assert(mv_rows(rows_of(ivk.c), z).len() == rows_of(ivk.c).len());
            assert(vals(had@).len() == had@.len());
            assert(vals(had@) == had_spec(mv_rows(rows_of(ivk.a), z), mv_rows(rows_of(ivk.b), z)));
            assert(had_spec(mv_rows(rows_of(ivk.a), z), mv_rows(rows_of(ivk.b), z)).len()
                == mv_rows(rows_of(ivk.a), z).len());
            assert(had@.len() == ivk.a@.len());
            assert(c_times@.len() == ivk.c@.len());
        }
        let n = had.len();
        let mut i: usize = 0;
        while i < n
            invariant
                n == had@.len(),
                n == c_times@.len(),
                i <= n,
                z == vals(input@ + proof.instance.witness@),
                wf_vec(had@),
                wf_vec(c_times@),
                vals(had@) == had_spec(mv_rows(rows_of(ivk.a), z), mv_rows(rows_of(ivk.b), z)),
                vals(c_times@) == mv_rows(rows_of(ivk.c), z),
                forall|j: int| 0 <= j < i ==> vals(had@)[j] == vals(c_times@)[j],
            decreases n - i,
        {
            if !felts_equal(&had[i], &c_times[i]) {
                proof {
                    assert(vals(had@)[i as int] == had@[i as int].value());
                    assert(vals(c_times@)[i as int] == c_times@[i as int].value());
                    assert(vals(had@)[i as int] != vals(c_times@)[i as int]);
                    assert(vals(had@) != vals(c_times@));
                    assert(!nark_relation(*ivk, z));
                }
                return false;
            }
            i = i + 1;
        }
        proof {
            assert(vals(had@) =~= vals(c_times@));
        }
        true
    }
}

/// The codeword length is a power of two.
pub proof fn lemma_rate_is_pow2()
    ensures
        is_pow2(RATE as nat),
{
    reveal_with_fuel(is_pow2, 11);
}

} // verus!
