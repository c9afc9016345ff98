//! The accumulator and the folding proof.
//!
//! The instance carries the running vectors `w` and `err` and the
//! running scalar `c` in the clear; the witness carries the two Merkle
//! roots committing to the codewords of `w` and `err`.  The zero
//! accumulator satisfies the decider unconditionally.

use vstd::prelude::*;
use vstd::arithmetic::div_mod::lemma_small_mod;
use crate::field::{p, Felt};
use crate::matrix::{vals, wf_vec};
use crate::merkle::{commit, MerkleOpening};
use crate::poseidon::MerkleHashConfig;
use crate::r1cs_nark::{codeword_root, lemma_rate_is_pow2, IndexProverKey};
use crate::reed_solomon::{code_spec, poly_eval, RATE};

verus! {

/// The zero sequence of the given length.
pub open spec fn zero_seq(n: nat) -> Seq<int> {
    Seq::new(n, |i: int| 0int)
}

/// An accumulator instance: the folded vectors and the folded scalar,
/// in the clear.
#[derive(Clone, Debug, PartialEq, Eq)]
pub struct AccumulatorInstance {
    /// The folded assignment vector.
    pub w: Vec<Felt>,
    /// The folded error vector.
    pub err: Vec<Felt>,
    /// The folded scalar.
    pub c: Felt,
}

impl AccumulatorInstance {
    /// Every element is canonical.
    pub open spec fn wf(self) -> bool {
        wf_vec(self.w@) && wf_vec(self.err@) && self.c.wf()
    }

    /// The zero accumulator instance for the given key: zero vectors
    /// of the key's width and a zero scalar.
    pub fn zero(ipk: &IndexProverKey) -> (r: AccumulatorInstance)
        ensures
            r.wf(),
            r.w@.len() == ipk.index_info.num_variables,
            r.err@.len() == ipk.index_info.num_variables,
            vals(r.w@) == zero_seq(ipk.index_info.num_variables as nat),
            vals(r.err@) == zero_seq(ipk.index_info.num_variables as nat),
            r.c.value() == 0,
    {
        let n = ipk.index_info.num_variables;
        let mut w: Vec<Felt> = Vec::new();
        let mut i: usize = 0;
        while i < n
            invariant
                i <= n,
                w@.len() == i,
                forall|j: int| 0 <= j < i ==> (#[trigger] w@[j]) == (Felt { l0: 0, l1: 0, l2: 0, l3: 0 }),
            decreases n - i,
        {
            w.push(Felt::zero());
            i = i + 1;
        }
        let err = clone_zero_vec(&w);
        let r = AccumulatorInstance { w, err, c: Felt::zero() };
        proof {
            assert(vals(r.w@) =~= zero_seq(n as nat));
            assert(vals(r.err@) =~= zero_seq(n as nat));
        }
        r
    }
}

/// Copies a vector of zero elements.
fn clone_zero_vec(v: &Vec<Felt>) -> (r: Vec<Felt>)
    ensures
        r@ == v@,
{
    let mut r: Vec<Felt> = Vec::new();
    let n = v.len();
    let mut i: usize = 0;
    while i < n
        invariant
            n == v@.len(),
            i <= n,
            r@ == v@.subrange(0, i as int),
        decreases n - i,
    {
        proof {
            assert(r@.push(v@[i as int]) =~= v@.subrange(0, i + 1));
        }
        r.push(v[i]);
        i = i + 1;
    }
    assert(v@.subrange(0, n as int) =~= v@);
    r
}

/// An accumulator witness: the roots of the codeword trees of `w` and
/// `err`.
#[derive(Clone, Copy, Debug, PartialEq, Eq, Structural)]
pub struct AccumulatorWitness {
    /// The root committing to the codeword of `w`.
    pub blinded_w: Felt,
    /// The root committing to the codeword of `err`.
    pub blinded_err: Felt,
}

impl AccumulatorWitness {
    /// Both roots are canonical.
    pub open spec fn wf(self) -> bool {
        self.blinded_w.wf() && self.blinded_err.wf()
    }

    /// The witness of the zero accumulator: both roots commit to the
    /// all-zero codeword.
    pub fn zero(ipk: &IndexProverKey, cfg: &MerkleHashConfig) -> (r: AccumulatorWitness)
        requires
            ipk.wf(),
        ensures
            r.wf(),
            r.blinded_w.value() == codeword_root(zero_seq(ipk.index_info.num_variables as nat)),
            r.blinded_err == r.blinded_w,
    {
        let mut zeros: Vec<Felt> = Vec::new();
        let mut i: usize = 0;
        let n: usize = RATE as usize;
        while i < n
            invariant
                n == RATE,
                i <= n,
                zeros@.len() == i,
                wf_vec(zeros@),
                forall|j: int| 0 <= j < i ==> (#[trigger] zeros@[j]).value() == 0,
            decreases n - i,
        {
            zeros.push(Felt::zero());
            i = i + 1;
        }
        proof {
            lemma_rate_is_pow2();
            assert(vals(zeros@) =~= zero_seq(RATE as nat));
        }
        let tree = commit(cfg, &zeros);
        let root = tree.root();
        proof {
            lemma_code_of_zero(ipk.index_info.num_variables as nat);
        }
        AccumulatorWitness { blinded_w: root, blinded_err: root }
    }
}

/// The zero polynomial evaluates to zero everywhere.
proof fn lemma_poly_eval_zero(coeffs: Seq<int>, x: int)
    requires
        coeffs == zero_seq(coeffs.len()),
    ensures
        poly_eval(coeffs, x) == 0,
    decreases coeffs.len(),
{
    if coeffs.len() > 0 {
        assert(coeffs.drop_first() =~= zero_seq((coeffs.len() - 1) as nat));
        lemma_poly_eval_zero(coeffs.drop_first(), x);
    }
}

/// The codeword of a zero vector is the zero codeword.
pub proof fn lemma_code_of_zero(n: nat)
    requires
        n <= RATE,
    ensures
        code_spec(zero_seq(n), RATE as nat) == zero_seq(RATE as nat),
{
    assert forall|i: int| 0 <= i < RATE implies code_spec(zero_seq(n), RATE as nat)[i] == 0 by {
        lemma_poly_eval_zero(zero_seq(n), crate::reed_solomon::gen_pow((i + 1) as nat));
        lemma_small_mod(0nat, p() as nat);
    }
    assert(code_spec(zero_seq(n), RATE as nat) =~= zero_seq(RATE as nat));
}

/// A folding proof: the cross-term in the clear, the root committing
/// to its codeword, and one opening per spot-check index in each of
/// the six codeword trees.
#[derive(Clone, Debug, PartialEq, Eq)]
pub struct Proof {
    /// Openings of the old accumulator's `w` codeword tree.
    pub acc_openings: Vec<MerkleOpening>,
    /// Openings of the new accumulator's `w` codeword tree.
    pub new_acc_openings: Vec<MerkleOpening>,
    /// Openings of the assignment codeword tree.
    pub input_openings: Vec<MerkleOpening>,
    /// Openings of the old accumulator's `err` codeword tree.
    pub err_openings: Vec<MerkleOpening>,
    /// Openings of the new accumulator's `err` codeword tree.
    pub new_err_openings: Vec<MerkleOpening>,
    /// Openings of the cross-term codeword tree.
    pub t_openings: Vec<MerkleOpening>,
    /// The root committing to the cross-term codeword.
    pub blinded_t: Felt,
    /// The cross-term vector in the clear.
    pub t: Vec<Felt>,
}

/// Every opening in a vector of openings is canonical.
pub open spec fn wf_openings(s: Seq<MerkleOpening>) -> bool {
    forall|i: int| 0 <= i < s.len() ==> (#[trigger] s[i]).wf()
}

impl Proof {
    /// Every element carried is canonical.
    pub open spec fn wf(self) -> bool {
        &&& wf_openings(self.acc_openings@)
        &&& wf_openings(self.new_acc_openings@)
        &&& wf_openings(self.input_openings@)
        &&& wf_openings(self.err_openings@)
        &&& wf_openings(self.new_err_openings@)
        &&& wf_openings(self.t_openings@)
        &&& self.blinded_t.wf()
        &&& wf_vec(self.t@)
    }
}

} // verus!
