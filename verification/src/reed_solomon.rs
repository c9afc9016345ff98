//! The Reed-Solomon encoder.
//!
//! A coefficient vector of length `d` is read as a polynomial and
//! evaluated on the fixed domain `g, g^2, ..., g^t`, where `g` is the
//! multiplicative generator of the field.  The scheme always encodes at
//! the fixed codeword length [`RATE`]; vectors longer than the
//! evaluation length are refused.

use vstd::prelude::*;
use vstd::arithmetic::div_mod::{
    lemma_add_mod_noop, lemma_add_mod_noop_right, lemma_mod_bound, lemma_mul_mod_noop_right,
    lemma_small_mod,
};
use vstd::arithmetic::mul::lemma_mul_is_commutative;
use crate::errors::SchemeError;
use crate::field::{fadd, fmul, p, Felt};
use crate::matrix::{vals, wf_vec};

verus! {

/// The canonical codeword length of the scheme.
pub const RATE: u64 = 512;

/// The value of the polynomial with the given coefficients at `x`,
/// over the plain integers.
pub open spec fn poly_eval(coeffs: Seq<int>, x: int) -> int
    decreases coeffs.len(),
{
    if coeffs.len() == 0 {
        0
    } else {
        coeffs[0] + x * poly_eval(coeffs.drop_first(), x)
    }
}

/// `g^e` modulo the prime, for the generator `g = 6`.
pub open spec fn gen_pow(e: nat) -> int
    decreases e,
{
    if e == 0 {
        1
    } else {
        (6 * gen_pow((e - 1) as nat)) % p()
    }
}

/// The codeword: the polynomial evaluated at `g^1 .. g^t`, reduced.
pub open spec fn code_spec(coeffs: Seq<int>, t: nat) -> Seq<int> {
    Seq::new(t, |i: int| poly_eval(coeffs, gen_pow((i + 1) as nat)) % p())
}

/// The evaluation domain: `g^1 .. g^t`.
pub open spec fn domain_spec(t: nat) -> Seq<int> {
    Seq::new(t, |i: int| gen_pow((i + 1) as nat))
}

/// A Reed-Solomon codeword together with what produced it.
#[derive(Clone, Debug)]
pub struct RSCode {
    /// The points the polynomial was evaluated at.
    pub evaluation_domain: Vec<Felt>,
    /// The evaluations, in domain order.
    pub code: Vec<Felt>,
    /// The coefficient vector that was encoded.
    pub coeffs: Vec<Felt>,
    /// The evaluation length.
    pub t: u64,
    /// The coefficient count.
    pub d: u64,
}

impl RSCode {
    /// The encoding is complete and in canonical form.
    pub open spec fn wf(self) -> bool {
        &&& wf_vec(self.code@)
        &&& wf_vec(self.coeffs@)
        &&& wf_vec(self.evaluation_domain@)
        &&& self.code@.len() == self.t
        &&& self.d == self.coeffs@.len()
        &&& vals(self.code@) == code_spec(vals(self.coeffs@), self.t as nat)
        &&& vals(self.evaluation_domain@) == domain_spec(self.t as nat)
    }

    /// Evaluates the polynomial `coeff` on the fixed domain of length
    /// `t`.  Refuses a coefficient vector longer than the evaluation
    /// length: the codeword would no longer determine the polynomial.
    pub fn encode(coeff: Vec<Felt>, t: u64) -> (r: Result<RSCode, SchemeError>)
        requires
            wf_vec(coeff@),
            t <= 0x1000000,
        ensures
            coeff@.len() > t ==> r == Result::<RSCode, SchemeError>::Err(
                SchemeError::EncodeDegreeExceeded,
            ),
            coeff@.len() <= t ==> {
                &&& r is Ok
                &&& r->Ok_0.wf()
                &&& r->Ok_0.coeffs == coeff
                &&& r->Ok_0.t == t
            },
    {
        if coeff.len() as u64 > t {
            return Err(SchemeError::EncodeDegreeExceeded);
        }
        let tu: usize = t as usize;
        let g = Felt::generator();
        let mut cur = g;
        let mut evals: Vec<Felt> = Vec::new();
        let mut domain: Vec<Felt> = Vec::new();
        proof {
            lemma_small_mod(6nat, p() as nat);
            assert(gen_pow(1) == (6 * gen_pow(0)) % p());
        }
        let mut i: usize = 0;
        while i < tu
            invariant
                tu == t,
                i <= tu,
                wf_vec(coeff@),
                g.wf(),
                g.value() == 6,
                cur.wf(),
                cur.value() == gen_pow((i + 1) as nat),
                evals@.len() == i,
                wf_vec(evals@),
                domain@.len() == i,
                wf_vec(domain@),
                forall|j: int|
                    0 <= j < i ==> (#[trigger] evals@[j]).value() == poly_eval(
                        vals(coeff@),
                        gen_pow((j + 1) as nat),
                    ) % p(),
                forall|j: int|
                    0 <= j < i ==> (#[trigger] domain@[j]).value() == gen_pow((j + 1) as nat),
            decreases tu - i,
        {
            let e = eval_at(&coeff, &cur);
            evals.push(e);
            domain.push(cur);
            let next = fmul(&cur, &g);
            proof {
                lemma_mul_is_commutative(cur.value(), 6);
                assert(gen_pow((i + 2) as nat) == (6 * gen_pow((i + 1) as nat)) % p());
            }
            cur = next;
            i = i + 1;
        }
        assert(vals(evals@) =~= code_spec(vals(coeff@), t as nat));
        assert(vals(domain@) =~= domain_spec(t as nat));
        let d = coeff.len() as u64;
        Ok(RSCode { evaluation_domain: domain, code: evals, coeffs: coeff, t, d })
    }
}

/// Evaluates the polynomial with coefficients `coeff` at the point
/// `x`, by Horner's rule from the highest coefficient down.
fn eval_at(coeff: &Vec<Felt>, x: &Felt) -> (r: Felt)
    requires
        wf_vec(coeff@),
        x.wf(),
    ensures
        r.wf(),
        r.value() == poly_eval(vals(coeff@), x.value()) % p(),
{
    let mut acc = Felt::zero();
    let n = coeff.len();
    let mut i: usize = n;
    proof {
        assert(vals(coeff@).subrange(n as int, n as int) =~= Seq::<int>::empty());
        lemma_small_mod(0nat, p() as nat);
    }
    while i > 0
        invariant
            n == coeff@.len(),
            i <= n,
            wf_vec(coeff@),
            x.wf(),
            acc.wf(),
            acc.value() == poly_eval(vals(coeff@).subrange(i as int, n as int), x.value()) % p(),
        decreases i,
    {
        i = i - 1;
        let m = fmul(x, &acc);
        let next = fadd(&coeff[i], &m);
        proof {
            let cs = vals(coeff@);
            let tail = cs.subrange(i + 1, n as int);
            let here = cs.subrange(i as int, n as int);
            assert(here.drop_first() =~= tail);
            assert(here[0] == cs[i as int]);
            assert(poly_eval(here, x.value()) == cs[i as int] + x.value() * poly_eval(
                tail,
                x.value(),
            ));
            // (c + (x * (T % p)) % p) % p == (c + x * T) % p
            lemma_mul_mod_noop_right(x.value(), poly_eval(tail, x.value()), p());
            lemma_add_mod_noop_right(cs[i as int], x.value() * poly_eval(tail, x.value()), p());
            lemma_small_mod(cs[i as int] as nat, p() as nat);
            lemma_add_mod_noop(
                cs[i as int],
                x.value() * poly_eval(tail, x.value()),
                p(),
            );
        }
        acc = next;
    }
    assert(vals(coeff@).subrange(0, n as int) =~= vals(coeff@));
    acc
}

/// The linear-combination vector `w + r·z`, element-wise modulo the
/// prime.
pub open spec fn fold_spec(w: Seq<int>, z: Seq<int>, r: int) -> Seq<int> {
    Seq::new(w.len(), |i: int| (w[i] + r * z[i]) % p())
}

/// Codeword linearity: the polynomial of the folded coefficient vector
/// evaluates, modulo the prime, to the fold of the two evaluations.
pub proof fn lemma_poly_eval_linear(w: Seq<int>, z: Seq<int>, r: int, x: int)
    requires
        w.len() == z.len(),
    ensures
        poly_eval(fold_spec(w, z, r), x) % p() == (poly_eval(w, x) + r * poly_eval(z, x)) % p(),
    decreases w.len(),
{
    let f = fold_spec(w, z, r);
    if w.len() == 0 {
        assert(f.len() == 0);
        lemma_small_mod(0nat, p() as nat);
    } else {
        let wt = w.drop_first();
        let zt = z.drop_first();
        assert(f.drop_first() =~= fold_spec(wt, zt, r));
        lemma_poly_eval_linear(wt, zt, r, x);
        let pw = poly_eval(wt, x);
        let pz = poly_eval(zt, x);
        let ft = poly_eval(f.drop_first(), x);
        // poly_eval(f, x) == f[0] + x * ft, with f[0] == (w[0] + r*z[0]) % p
        assert(poly_eval(f, x) == f[0] + x * ft);
        assert(f[0] == (w[0] + r * z[0]) % p());
        // reduce the head and the tail separately
        lemma_add_mod_noop(w[0] + r * z[0], x * ft, p());
        lemma_small_mod((((w[0] + r * z[0]) % p()) % p()) as nat, p() as nat);
        lemma_mod_bound(w[0] + r * z[0], p());
        lemma_small_mod(((w[0] + r * z[0]) % p()) as nat, p() as nat);
        lemma_mul_mod_noop_right(x, ft, p());
        lemma_mul_mod_noop_right(x, pw + r * pz, p());
        assert((x * ft) % p() == (x * (pw + r * pz)) % p()) by {
            assert(ft % p() == (pw + r * pz) % p());
            lemma_mul_mod_noop_right(x, ft, p());
            lemma_mul_mod_noop_right(x, pw + r * pz, p());
        }
        lemma_add_mod_noop_right(w[0] + r * z[0], x * ft, p());
        lemma_add_mod_noop_right(w[0] + r * z[0], x * (pw + r * pz), p());
        assert((poly_eval(f, x)) % p() == (w[0] + r * z[0] + x * (pw + r * pz)) % p()) by {
            assert(poly_eval(f, x) == (w[0] + r * z[0]) % p() + x * ft);
            lemma_add_mod_noop((w[0] + r * z[0]) % p(), x * ft, p());
            lemma_add_mod_noop(w[0] + r * z[0], x * ft, p());
        }
        assert(w[0] + r * z[0] + x * (pw + r * pz) == (w[0] + x * pw) + r * (z[0] + x * pz))
            by (nonlinear_arith);
        assert(poly_eval(w, x) == w[0] + x * pw);
        assert(poly_eval(z, x) == z[0] + x * pz);
        assert((poly_eval(w, x) + r * poly_eval(z, x)) % p() == (w[0] + x * pw + r * (z[0] + x
            * pz)) % p());
    }
}

} // verus!
