//! Sparse matrices over the scalar field and the vector arithmetic of
//! the scheme.
//!
//! A matrix is a sequence of rows; each row lists `(coefficient,
//! column)` pairs.  Columns address the concatenation of a public input
//! and a private witness vector.  All contracts are stated over the
//! integer values of the elements, modulo the field prime.

use vstd::prelude::*;
use vstd::arithmetic::div_mod::{lemma_add_mod_noop, lemma_mul_mod_noop_general, lemma_small_mod};
use crate::field::{fadd, fmul, fsub, p, Felt};

verus! {

/// The integer values of a vector of field elements.
pub open spec fn vals(s: Seq<Felt>) -> Seq<int> {
    s.map_values(|f: Felt| f.value())
}

/// Every element is in canonical form.
pub open spec fn wf_vec(s: Seq<Felt>) -> bool {
    forall|i: int| 0 <= i < s.len() ==> (#[trigger] s[i]).wf()
}

/// One row of a sparse matrix.
pub type SparseRow = Vec<(Felt, usize)>;

/// A sparse row-major matrix.
pub type SparseMatrix = Vec<SparseRow>;

/// Every coefficient is canonical and every column index is below `n`.
pub open spec fn row_wf(row: Seq<(Felt, usize)>, n: int) -> bool {
    forall|j: int|
        0 <= j < row.len() ==> (#[trigger] row[j]).0.wf() && row[j].1 < n
}

/// Every row of the matrix is well formed against width `n`.
pub open spec fn matrix_wf(m: Seq<Seq<(Felt, usize)>>, n: int) -> bool {
    forall|i: int| 0 <= i < m.len() ==> row_wf(#[trigger] m[i], n)
}

/// The inner product of a sparse row with a vector of integers, before
/// reduction: the sum of `coefficient * z[column]` over the row.
pub open spec fn row_sum(row: Seq<(Felt, usize)>, z: Seq<int>) -> int
    decreases row.len(),
{
    if row.len() == 0 {
        0
    } else {
        row_sum(row.drop_last(), z) + row.last().0.value() * z[row.last().1 as int]
    }
}

/// The matrix-vector product over integers, each entry reduced modulo
/// the prime.
pub open spec fn mv_rows(m: Seq<Seq<(Felt, usize)>>, z: Seq<int>) -> Seq<int> {
    Seq::new(m.len(), |i: int| row_sum(m[i], z) % p())
}

/// The inner product of one sparse row with the virtual vector
/// `input ‖ witness`.  A coefficient equal to one skips the multiply.
fn inner_prod(row: &SparseRow, input: &Vec<Felt>, witness: &Vec<Felt>) -> (r: Felt)
    requires
        row_wf(row@, input@.len() + witness@.len() as int),
        wf_vec(input@),
        wf_vec(witness@),
    ensures
        r.wf(),
        r.value() == row_sum(row@, vals(input@ + witness@)) % p(),
{
    let ghost z = vals(input@ + witness@);
    let one = Felt::one();
    let mut acc = Felt::zero();
    assert(row@.subrange(0, 0) =~= Seq::<(Felt, usize)>::empty());
    let n = row.len();
    let mut k: usize = 0;
    while k < n
        invariant
            n == row@.len(),
            k <= n,
            row_wf(row@, input@.len() + witness@.len() as int),
            wf_vec(input@),
            wf_vec(witness@),
            z == vals(input@ + witness@),
            acc.wf(),
            acc.value() == row_sum(row@.subrange(0, k as int), z) % p(),
            one.wf(),
            one.value() == 1,
        decreases n - k,
    {
        let (coeff, col) = row[k];
        let tmp = if col < input.len() {
            input[col]
        } else {
            witness[col - input.len()]
        };
        assert(tmp.value() == z[col as int]) by {
            assert((input@ + witness@)[col as int] == tmp);
        }
        let term = if coeff == one {
            proof {
                lemma_small_mod(tmp.value() as nat, p() as nat);
            }
            tmp
        } else {
            fmul(&tmp, &coeff)
        };
        assert(term.value() == (coeff.value() * z[col as int]) % p()) by {
            lemma_mul_mod_noop_general(coeff.value(), z[col as int], p());
        }
        let prev = acc;
        acc = fadd(&acc, &term);
        proof {
            let s_prev = row_sum(row@.subrange(0, k as int), z);
            let c = coeff.value();
            let zi = z[col as int];
            lemma_add_mod_noop(s_prev, c * zi, p());
            assert(row@.subrange(0, k + 1).drop_last() =~= row@.subrange(0, k as int));
            assert(row_sum(row@.subrange(0, k + 1), z) == s_prev + c * zi);
        }
        k = k + 1;
    }
    assert(row@.subrange(0, n as int) =~= row@);
    acc
}

/// Multiplies a sparse matrix by the virtual vector `input ‖ witness`.
pub fn matrix_vec_mul(matrix: &SparseMatrix, input: &Vec<Felt>, witness: &Vec<Felt>) -> (r: Vec<
    Felt,
>)
    requires
        matrix_wf(matrix@.map_values(|row: SparseRow| row@), input@.len() + witness@.len() as int),
        wf_vec(input@),
        wf_vec(witness@),
    ensures
        wf_vec(r@),
        vals(r@) == mv_rows(matrix@.map_values(|row: SparseRow| row@), vals(input@ + witness@)),
{
    let ghost m = matrix@.map_values(|row: SparseRow| row@);
    let ghost z = vals(input@ + witness@);
    let mut r: Vec<Felt> = Vec::new();
    let n = matrix.len();
    let mut i: usize = 0;
    while i < n
        invariant
            n == matrix@.len(),
            i <= n,
            m == matrix@.map_values(|row: SparseRow| row@),
            z == vals(input@ + witness@),
            matrix_wf(m, input@.len() + witness@.len() as int),
            wf_vec(input@),
            wf_vec(witness@),
            r@.len() == i,
            wf_vec(r@),
            forall|j: int| 0 <= j < i ==> (#[trigger] r@[j]).value() == mv_rows(m, z)[j],
        decreases n - i,
    {
        proof {
            assert(row_wf(m[i as int], input@.len() + witness@.len() as int));
            assert(m[i as int] == matrix@[i as int]@);
        }
        let v = inner_prod(&matrix[i], input, witness);
        r.push(v);
        i = i + 1;
    }
    assert(vals(r@) =~= mv_rows(m, z));
    r
}

/// The element-wise sum modulo the prime.
pub open spec fn add_spec(a: Seq<int>, b: Seq<int>) -> Seq<int> {
    Seq::new(a.len(), |i: int| (a[i] + b[i]) % p())
}

/// The element-wise difference modulo the prime.
pub open spec fn sub_spec(a: Seq<int>, b: Seq<int>) -> Seq<int> {
    Seq::new(a.len(), |i: int| (a[i] - b[i]) % p())
}

/// The element-wise (Hadamard) product modulo the prime.
pub open spec fn had_spec(a: Seq<int>, b: Seq<int>) -> Seq<int> {
    Seq::new(a.len(), |i: int| (a[i] * b[i]) % p())
}

/// A vector scaled by a constant, element-wise modulo the prime.
pub open spec fn scalar_spec(c: int, a: Seq<int>) -> Seq<int> {
    Seq::new(a.len(), |i: int| (c * a[i]) % p())
}

/// Adds two vectors of one length element-wise.
pub fn add_vectors(vec_a: &Vec<Felt>, vec_b: &Vec<Felt>) -> (r: Vec<Felt>)
    requires
        wf_vec(vec_a@),
        wf_vec(vec_b@),
        vec_a@.len() == vec_b@.len(),
    ensures
        wf_vec(r@),
        vals(r@) == add_spec(vals(vec_a@), vals(vec_b@)),
{
    let mut r: Vec<Felt> = Vec::new();
    let n = vec_a.len();
    let mut i: usize = 0;
    while i < n
        invariant
            n == vec_a@.len(),
            vec_a@.len() == vec_b@.len(),
            i <= n,
            wf_vec(vec_a@),
            wf_vec(vec_b@),
            r@.len() == i,
            wf_vec(r@),
            forall|j: int| 0 <= j < i ==> (#[trigger] r@[j]).value() == add_spec(vals(vec_a@), vals(vec_b@))[j],
        decreases n - i,
    {
        r.push(fadd(&vec_a[i], &vec_b[i]));
        i = i + 1;
    }
    assert(vals(r@) =~= add_spec(vals(vec_a@), vals(vec_b@)));
    r
}

/// Subtracts two vectors of one length element-wise.
pub fn sub_vectors(vec_a: &Vec<Felt>, vec_b: &Vec<Felt>) -> (r: Vec<Felt>)
    requires
        wf_vec(vec_a@),
        wf_vec(vec_b@),
        vec_a@.len() == vec_b@.len(),
    ensures
        wf_vec(r@),
        vals(r@) == sub_spec(vals(vec_a@), vals(vec_b@)),
{
    let mut r: Vec<Felt> = Vec::new();
    let n = vec_a.len();
    let mut i: usize = 0;
    while i < n
        invariant
            n == vec_a@.len(),
            vec_a@.len() == vec_b@.len(),
            i <= n,
            wf_vec(vec_a@),
            wf_vec(vec_b@),
            r@.len() == i,
            wf_vec(r@),
            forall|j: int| 0 <= j < i ==> (#[trigger] r@[j]).value() == sub_spec(vals(vec_a@), vals(vec_b@))[j],
        decreases n - i,
    {
        r.push(fsub(&vec_a[i], &vec_b[i]));
        i = i + 1;
    }
    assert(vals(r@) =~= sub_spec(vals(vec_a@), vals(vec_b@)));
    r
}

/// Multiplies two vectors of one length element-wise.
pub fn had_product(vec_a: &Vec<Felt>, vec_b: &Vec<Felt>) -> (r: Vec<Felt>)
    requires
        wf_vec(vec_a@),
        wf_vec(vec_b@),
        vec_a@.len() == vec_b@.len(),
    ensures
        wf_vec(r@),
        vals(r@) == had_spec(vals(vec_a@), vals(vec_b@)),
{
    let mut r: Vec<Felt> = Vec::new();
    let n = vec_a.len();
    let mut i: usize = 0;
    while i < n
        invariant
            n == vec_a@.len(),
            vec_a@.len() == vec_b@.len(),
            i <= n,
            wf_vec(vec_a@),
            wf_vec(vec_b@),
            r@.len() == i,
            wf_vec(r@),
            forall|j: int| 0 <= j < i ==> (#[trigger] r@[j]).value() == had_spec(vals(vec_a@), vals(vec_b@))[j],
        decreases n - i,
    {
        r.push(fmul(&vec_a[i], &vec_b[i]));
        i = i + 1;
    }
    assert(vals(r@) =~= had_spec(vals(vec_a@), vals(vec_b@)));
    r
}

/// Scales a vector by a constant element-wise.
pub fn scalar_mult(c: &Felt, vec_a: &Vec<Felt>) -> (r: Vec<Felt>)
    requires
        c.wf(),
        wf_vec(vec_a@),
    ensures
        wf_vec(r@),
        vals(r@) == scalar_spec(c.value(), vals(vec_a@)),
{
    let mut r: Vec<Felt> = Vec::new();
    let n = vec_a.len();
    let mut i: usize = 0;
    while i < n
        invariant
            n == vec_a@.len(),
            i <= n,
            c.wf(),
            wf_vec(vec_a@),
            r@.len() == i,
            wf_vec(r@),
            forall|j: int| 0 <= j < i ==> (#[trigger] r@[j]).value() == scalar_spec(c.value(), vals(vec_a@))[j],
        decreases n - i,
    {
        r.push(fmul(c, &vec_a[i]));
        i = i + 1;
    }
    assert(vals(r@) =~= scalar_spec(c.value(), vals(vec_a@)));
    r
}

/// Copies a vector of field elements.
pub fn copy_felts(v: &Vec<Felt>) -> (r: Vec<Felt>)
    ensures
        r@ == v@,
{
    let mut r: Vec<Felt> = Vec::new();
    let n = v.len();
    let mut i: usize = 0;
    while i < n
        invariant
            n == v@.len(),
            i <= n,
            r@ == v@.subrange(0, i as int),
        decreases n - i,
    {
        proof {
            assert(r@.push(v@[i as int]) =~= v@.subrange(0, i + 1));
        }
        r.push(v[i]);
        i = i + 1;
    }
    assert(v@.subrange(0, n as int) =~= v@);
    r
}

/// Compares two vectors of field elements by value.
pub fn vecs_equal(a: &Vec<Felt>, b: &Vec<Felt>) -> (r: bool)
    ensures
        r == (vals(a@) == vals(b@)),
{
    if a.len() != b.len() {
        proof {
            assert(vals(a@).len() != vals(b@).len());
        }
        return false;
    }
    let n = a.len();
    let mut i: usize = 0;
    while i < n
        invariant
            n == a@.len(),
            n == b@.len(),
            i <= n,
            forall|j: int| 0 <= j < i ==> vals(a@)[j] == vals(b@)[j],
        decreases n - i,
    {
        if !crate::field::felts_equal(&a[i], &b[i]) {
            proof {
                assert(vals(a@)[i as int] == a@[i as int].value());
                assert(vals(b@)[i as int] == b@[i as int].value());
                assert(vals(a@)[i as int] != vals(b@)[i as int]);
            }
            return false;
        }
        i = i + 1;
    }
    proof {
        assert(vals(a@) =~= vals(b@));
    }
    true
}

/// Concatenates two vectors of field elements.
pub fn concat_felts(a: &Vec<Felt>, b: &Vec<Felt>) -> (r: Vec<Felt>)
    ensures
        r@ == a@ + b@,
{
    let mut r = copy_felts(a);
    proof {
        assert(a@ + b@.subrange(0, 0) =~= a@);
    }
    let n = b.len();
    let mut i: usize = 0;
    while i < n
        invariant
            n == b@.len(),
            i <= n,
            r@ == a@ + b@.subrange(0, i as int),
        decreases n - i,
    {
        proof {
            assert((a@ + b@.subrange(0, i as int)).push(b@[i as int]) =~= a@ + b@.subrange(
                0,
                i + 1,
            ));
        }
        r.push(b[i]);
        i = i + 1;
    }
    assert(a@ + b@.subrange(0, n as int) =~= a@ + b@);
    r
}

/// A vector right-padded with zeros to length `n`.
pub open spec fn padded(s: Seq<int>, n: nat) -> Seq<int> {
    Seq::new(n, |i: int| if i < s.len() { s[i] } else { 0 })
}

/// Right-pads a vector with zero elements up to length `n`.
pub fn pad_to(v: Vec<Felt>, n: usize) -> (r: Vec<Felt>)
    requires
        wf_vec(v@),
        v@.len() <= n,
    ensures
        wf_vec(r@),
        r@.len() == n,
        vals(r@) == padded(vals(v@), n as nat),
{
    let mut r = v;
    let ghost orig = vals(r@);
    while r.len() < n
        invariant
            orig.len() <= r@.len() <= n,
            wf_vec(r@),
            forall|j: int| 0 <= j < r@.len() ==> (#[trigger] r@[j]).value() == padded(orig, n as nat)[j],
        decreases n - r@.len(),
    {
        r.push(Felt::zero());
    }
    assert(vals(r@) =~= padded(orig, n as nat));
    r
}

} // verus!
