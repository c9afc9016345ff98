//! The properties the scheme is built around, stated and proved once
//! over the specification functions of the other modules.

use vstd::prelude::*;
use vstd::arithmetic::div_mod::{
    lemma_add_mod_noop, lemma_add_mod_noop_right, lemma_fundamental_div_mod_converse,
    lemma_mod_bound, lemma_mul_mod_noop_general, lemma_mul_mod_noop_right, lemma_small_mod,
    lemma_sub_mod_noop,
};
use vstd::arithmetic::mul::{
    lemma_mul_is_associative, lemma_mul_is_commutative, lemma_mul_is_distributive_add,
    lemma_mul_is_distributive_add_other_way, lemma_mul_is_distributive_sub,
};
use crate::bd_as::{
    cross_term, decide_spec, decider_relation, index_of, inp_z, mv_padded, opening_checks,
    opening_ok, prove_post, prove_pre, prove_spot, scalar_of, verify_spec, verify_spot,
    QUERY_COUNT,
};
use crate::data_structures::{AccumulatorInstance, AccumulatorWitness};
use crate::field::{p, Felt};
use crate::matrix::{had_spec, mv_rows, row_sum, row_wf, vals};
use crate::data_structures::Proof;
use crate::r1cs_nark::{
    nark_relation, rows_of, CommitmentFullAssignment, FullAssignment, IndexProverKey,
};
use crate::reed_solomon::{code_spec, fold_spec, gen_pow, lemma_poly_eval_linear, poly_eval, RATE};

verus! {

/// A sparse inner product is linear: against the fold `w + r·z` it is
/// congruent to the fold of the two inner products.
proof fn lemma_row_sum_linear(row: Seq<(Felt, usize)>, w: Seq<int>, z: Seq<int>, r: int)
    requires
        w.len() == z.len(),
        row_wf(row, w.len() as int),
    ensures
        row_sum(row, fold_spec(w, z, r)) % p() == (row_sum(row, w) + r * row_sum(row, z)) % p(),
    decreases row.len(),
{
    let f = fold_spec(w, z, r);
    if row.len() == 0 {
    } else {
        let head = row.drop_last();
        assert(row_wf(head, w.len() as int)) by {
            assert(forall|j: int| 0 <= j < head.len() ==> head[j] == row[j]);
        }
        lemma_row_sum_linear(head, w, z, r);
        let cf = row.last().0.value();
        let col = row.last().1 as int;
        let sw = row_sum(head, w);
        let sz = row_sum(head, z);
        let sf = row_sum(head, f);
        // row_sum(row, f) == sf + cf * ((w[col] + r * z[col]) % p())
        assert(f[col] == (w[col] + r * z[col]) % p());
        lemma_mul_mod_noop_right(cf, w[col] + r * z[col], p());
        // (sf + cf * f[col]) % p == (sf + (cf * (w[col] + r z[col])) % p) % p
        lemma_add_mod_noop_right(sf, cf * (w[col] + r * z[col]), p());
        lemma_add_mod_noop(sf, cf * (w[col] + r * z[col]), p());
        lemma_add_mod_noop(sw + r * sz, cf * (w[col] + r * z[col]), p());
        assert((sf + cf * f[col]) % p() == (sw + r * sz + cf * (w[col] + r * z[col])) % p()) by {
            assert((sf + cf * f[col]) % p() == (sf % p() + (cf * (w[col] + r * z[col])) % p())
                % p()) by {
                assert(cf * f[col] == cf * ((w[col] + r * z[col]) % p()));
            }
            assert(sf % p() == (sw + r * sz) % p());
        }
        assert(sw + r * sz + cf * (w[col] + r * z[col]) == (sw + cf * w[col]) + r * (sz + cf
            * z[col])) by (nonlinear_arith);
        assert(row_sum(row, w) == sw + cf * w[col]);
        assert(row_sum(row, z) == sz + cf * z[col]);
    }
}

/// A padded matrix image is linear in the vector, entry by entry.
proof fn lemma_mv_padded_linear(
    m: Seq<Seq<(Felt, usize)>>,
    w: Seq<int>,
    z: Seq<int>,
    r: int,
    n: nat,
    i: int,
)
    requires
        w.len() == z.len(),
        w.len() == n,
        crate::matrix::matrix_wf(m, n as int),
        0 <= i < n,
    ensures
        mv_padded(m, fold_spec(w, z, r), n)[i] == (mv_padded(m, w, n)[i] + r * mv_padded(
            m,
            z,
            n,
        )[i]) % p(),
{
    if i < m.len() {
        lemma_row_sum_linear(m[i], w, z, r);
        let sw = row_sum(m[i], w);
        let sz = row_sum(m[i], z);
        lemma_mul_mod_noop_right(r, sz, p());
        lemma_add_mod_noop(sw, r * (sz % p()), p());
        lemma_add_mod_noop(sw, r * sz, p());
        assert((sw % p() + (r * (sz % p())) % p()) % p() == (sw % p() + (r * sz) % p()) % p());
        assert(mv_padded(m, fold_spec(w, z, r), n)[i] == row_sum(m[i], fold_spec(w, z, r)) % p());
        assert((sw % p() + r * (sz % p())) % p() == (sw + r * sz) % p()) by {
            lemma_add_mod_noop_right(sw % p(), r * (sz % p()), p());
            lemma_add_mod_noop_right(sw % p(), r * sz, p());
            lemma_small_mod((sw % p()) as nat, p() as nat);
            lemma_mod_bound(sw, p());
            lemma_add_mod_noop(sw, r * sz, p());
            lemma_add_mod_noop_right(sw, r * sz, p());
        }
    } else {
        assert(mv_padded(m, fold_spec(w, z, r), n)[i] == 0);
        assert(mv_padded(m, w, n)[i] == 0);
        assert(mv_padded(m, z, n)[i] == 0);
        lemma_small_mod(0nat, p() as nat);
    }
}

/// The decider identity at one coordinate: folding with the cross-term
/// preserves the relation.
proof fn lemma_fold_cell(
    alpha: int,
    beta: int,
    gamma: int,
    a: int,
    b: int,
    chat: int,
    e: int,
    c: int,
    r: int,
)
    requires
        (alpha * beta) % p() == (e + c * gamma) % p(),
        (a * b) % p() == chat % p(),
    ensures
        ((alpha + r * a) * (beta + r * b)) % p() == ((e + r * (a * beta + alpha * b - (gamma + c
            * chat))) + (c + r) * (gamma + r * chat)) % p(),
{
    let lhs_int = (alpha + r * a) * (beta + r * b);
    let d = r * (a * beta + alpha * b);
    assert(lhs_int == alpha * beta + d + (r * r) * (a * b)) by {
        lemma_mul_is_distributive_add_other_way(beta + r * b, alpha, r * a);
        lemma_mul_is_distributive_add(alpha, beta, r * b);
        lemma_mul_is_distributive_add(r * a, beta, r * b);
        // alpha * (r * b) == r * (alpha * b)
        lemma_mul_is_associative(alpha, r, b);
        lemma_mul_is_commutative(alpha, r);
        lemma_mul_is_associative(r, alpha, b);
        // (r * a) * beta == r * (a * beta)
        lemma_mul_is_associative(r, a, beta);
        // (r * a) * (r * b) == (r * r) * (a * b)
        lemma_mul_is_associative(r * a, r, b);
        lemma_mul_is_commutative(r * a, r);
        lemma_mul_is_associative(r, r * a, b);
        lemma_mul_is_associative(r, a, b);
        lemma_mul_is_associative(r, r, a * b);
        // r * (a * beta) + r * (alpha * b) == d
        lemma_mul_is_distributive_add(r, a * beta, alpha * b);
    }
    let rhs_int = (e + r * (a * beta + alpha * b - (gamma + c * chat))) + (c + r) * (gamma + r
        * chat);
    assert(rhs_int == (e + c * gamma) + d + (r * r) * chat) by {
        lemma_mul_is_distributive_sub(r, a * beta + alpha * b, gamma + c * chat);
        lemma_mul_is_distributive_add(r, gamma, c * chat);
        lemma_mul_is_distributive_add_other_way(gamma + r * chat, c, r);
        lemma_mul_is_distributive_add(c, gamma, r * chat);
        lemma_mul_is_distributive_add(r, gamma, r * chat);
        // c * (r * chat) == r * (c * chat)
        lemma_mul_is_associative(c, r, chat);
        lemma_mul_is_commutative(c, r);
        lemma_mul_is_associative(r, c, chat);
        // r * (r * chat) == (r * r) * chat
        lemma_mul_is_associative(r, r, chat);
    }
    // reduce both sides to a shared normal form
    lemma_add_mod_noop(alpha * beta, d + (r * r) * (a * b), p());
    lemma_add_mod_noop(e + c * gamma, d + (r * r) * chat, p());
    lemma_add_mod_noop_right(d, (r * r) * (a * b), p());
    lemma_add_mod_noop_right(d, (r * r) * chat, p());
    lemma_mul_mod_noop_right(r * r, a * b, p());
    lemma_mul_mod_noop_right(r * r, chat, p());
    assert(((r * r) * (a * b)) % p() == ((r * r) * chat) % p());
    assert((d + (r * r) * (a * b)) % p() == (d + (r * r) * chat) % p());
    assert(lhs_int % p() == ((alpha * beta) % p() + (d + (r * r) * (a * b)) % p()) % p());
    assert(rhs_int % p() == ((e + c * gamma) % p() + (d + (r * r) * chat) % p()) % p());
}

/// Codeword linearity: the codeword of the fold `w + r·z` is, at every
/// position, the fold of the two codewords.
pub proof fn lemma_codeword_linearity(w: Seq<int>, z: Seq<int>, r: int, i: int)
    requires
        w.len() == z.len(),
        0 <= i < RATE,
    ensures
        code_spec(fold_spec(w, z, r), RATE as nat)[i] == (code_spec(w, RATE as nat)[i] + r
            * code_spec(z, RATE as nat)[i]) % p(),
{
    let x = gen_pow((i + 1) as nat);
    lemma_poly_eval_linear(w, z, r, x);
    let pw = poly_eval(w, x);
    let pz = poly_eval(z, x);
    // (pw % p + r * (pz % p)) % p == (pw + r * pz) % p
    lemma_mul_mod_noop_right(r, pz, p());
    lemma_add_mod_noop_right(pw % p(), r * (pz % p()), p());
    lemma_add_mod_noop_right(pw % p(), r * pz, p());
    lemma_small_mod((pw % p()) as nat, p() as nat);
    lemma_mod_bound(pw, p());
    lemma_add_mod_noop(pw, r * pz, p());
    lemma_add_mod_noop_right(pw, r * pz, p());
}

/// Folding with the cross-term preserves the decider relation: if the
/// rank-one relation holds at `z` and the decider relation holds at
/// `(w, err, c)`, then the decider relation holds at the fold under
/// any scalar `r`.
pub proof fn lemma_fold_preserves_decider(
    key: IndexProverKey,
    z: Seq<int>,
    w: Seq<int>,
    e: Seq<int>,
    c: int,
    r: int,
)
    requires
        key.wf(),
        z.len() == key.index_info.num_variables,
        w.len() == key.index_info.num_variables,
        e.len() == key.index_info.num_variables,
        forall|i: int| 0 <= i < e.len() ==> 0 <= #[trigger] e[i] < p(),
        nark_relation(key, z),
        decider_relation(key, w, e, c),
    ensures
        decider_relation(
            key,
            fold_spec(w, z, r),
            fold_spec(e, cross_term(key, z, w, c), r),
            (c + r) % p(),
        ),
{
    let n = key.index_info.num_variables as nat;
    let t = cross_term(key, z, w, c);
    let wn = fold_spec(w, z, r);
    let en = fold_spec(e, t, r);
    let cn = (c + r) % p();
    let ma = rows_of(key.a);
    let mb = rows_of(key.b);
    let mc = rows_of(key.c);
    let rows = key.a@.len() as int;
    assert(ma.len() == rows && mb.len() == rows && mc.len() == rows);
    assert forall|i: int| 0 <= i < n implies had_spec(
        mv_padded(ma, wn, n),
        mv_padded(mb, wn, n),
    )[i] == Seq::new(n, |q: int| (en[q] + cn * mv_padded(mc, wn, n)[q]) % p())[i] by {
        let alpha = mv_padded(ma, w, n)[i];
        let beta = mv_padded(mb, w, n)[i];
        let gamma = mv_padded(mc, w, n)[i];
        let a = mv_padded(ma, z, n)[i];
        let b = mv_padded(mb, z, n)[i];
        let chat = mv_padded(mc, z, n)[i];
        let ei = e[i];
        lemma_mv_padded_linear(ma, w, z, r, n, i);
        lemma_mv_padded_linear(mb, w, z, r, n, i);
        lemma_mv_padded_linear(mc, w, z, r, n, i);
        lemma_mod_bound(alpha + r * a, p());
        lemma_mod_bound(beta + r * b, p());
        lemma_mod_bound(gamma + r * chat, p());
        // the hypotheses at this coordinate
        assert((alpha * beta) % p() == (ei + c * gamma) % p()) by {
            assert(had_spec(mv_padded(ma, w, n), mv_padded(mb, w, n))[i] == Seq::new(
                n,
                |q: int| (e[q] + c * mv_padded(mc, w, n)[q]) % p(),
            )[i]);
        }
        assert((a * b) % p() == chat % p()) by {
            if i < rows {
                assert(had_spec(mv_rows(ma, z), mv_rows(mb, z))[i] == mv_rows(mc, z)[i]);
                assert(mv_rows(ma, z)[i] == a && mv_rows(mb, z)[i] == b && mv_rows(mc, z)[i]
                    == chat);
                lemma_mul_mod_noop_general(a, b, p());
                lemma_mod_bound(row_sum(mc[i], z), p());
                lemma_small_mod(chat as nat, p() as nat);
            } else {
                assert(a == 0 && b == 0 && chat == 0);
                lemma_small_mod(0nat, p() as nat);
            }
        }
        lemma_fold_cell(alpha, beta, gamma, a, b, chat, ei, c, r);
        // connect the reduced entries with the unreduced identity
        let ti = t[i];
        assert(ti == (a * beta + alpha * b - (gamma + c * chat)) % p());
        let tint = a * beta + alpha * b - (gamma + c * chat);
        // left side
        assert(had_spec(mv_padded(ma, wn, n), mv_padded(mb, wn, n))[i] == (((alpha + r * a) % p())
            * ((beta + r * b) % p())) % p());
        lemma_mul_mod_noop_general(alpha + r * a, beta + r * b, p());
        // right side
        let rhs_entry = (en[i] + cn * mv_padded(mc, wn, n)[i]) % p();
        assert(en[i] == (ei + r * ti) % p());
        assert(mv_padded(mc, wn, n)[i] == (gamma + r * chat) % p());
        // (ei + r * ti) % p == (ei + r * tint) % p
        lemma_mul_mod_noop_right(r, tint, p());
        lemma_add_mod_noop_right(ei, r * ti, p());
        lemma_add_mod_noop_right(ei, r * tint, p());
        assert((ei + r * ti) % p() == (ei + r * tint) % p()) by {
            assert((r * ti) % p() == (r * tint) % p()) by {
                lemma_mod_bound(tint, p());
                lemma_small_mod(ti as nat, p() as nat);
                lemma_mul_mod_noop_right(r, ti, p());
            }
        }
        // rhs_entry == ((ei + r*tint) + (c + r) * (gamma + r*chat)) % p
        assert(rhs_entry == ((ei + r * tint) + (c + r) * (gamma + r * chat)) % p()) by {
            let s = (ei + r * ti) % p();
            let cc = cn * ((gamma + r * chat) % p());
            lemma_mul_mod_noop_general(c + r, gamma + r * chat, p());
            assert(cc % p() == ((c + r) * (gamma + r * chat)) % p());
            lemma_add_mod_noop_right(cc, ei + r * ti, p());
            lemma_add_mod_noop(cc, ei + r * tint, p());
            lemma_add_mod_noop((c + r) * (gamma + r * chat), ei + r * tint, p());
            assert((s + cc) % p() == (cc + s) % p());
            lemma_add_mod_noop_right(cc, ei + r * tint, p());
            assert((cc + s) % p() == (cc + (ei + r * tint)) % p());
            lemma_add_mod_noop(cc, ei + r * tint, p());
            assert((cc + (ei + r * tint)) % p() == (cc % p() + (ei + r * tint) % p()) % p());
            assert((((c + r) * (gamma + r * chat)) + (ei + r * tint)) % p() == (((c + r) * (gamma
                + r * chat)) % p() + (ei + r * tint) % p()) % p());
        }
    }
    assert(had_spec(mv_padded(ma, wn, n), mv_padded(mb, wn, n)) =~= Seq::new(
        n,
        |q: int| (en[q] + cn * mv_padded(mc, wn, n)[q]) % p(),
    ));
}


/// Soundness of honest folding: on a satisfying assignment and an
/// accumulator the decider accepts, the prover's output passes the
/// folding verifier, and the decider accepts the new accumulator.
pub proof fn lemma_honest_fold_sound(
    key: IndexProverKey,
    acc_i: AccumulatorInstance,
    acc_w: AccumulatorWitness,
    inp_i: FullAssignment,
    inp_w: CommitmentFullAssignment,
    new_i: AccumulatorInstance,
    new_w: AccumulatorWitness,
    pf: Proof,
)
    requires
        key.wf(),
        prove_pre(key, acc_i, acc_w, inp_i, inp_w),
        prove_post(key, acc_i, acc_w, inp_i, inp_w, new_i, new_w, pf),
        nark_relation(key, inp_z(inp_i)),
        decide_spec(key, acc_i, acc_w),
    ensures
        verify_spec(key, pf, acc_i, acc_w, new_i, new_w, inp_i, inp_w),
        decide_spec(key, new_i, new_w),
{
    let n = key.index_info.num_variables;
    let z = inp_z(inp_i);
    let w = vals(acc_i.w@);
    let e = vals(acc_i.err@);
    let c = acc_i.c.value();
    let r = scalar_of(inp_w, acc_w);
    let t = cross_term(key, z, w, c);
    let wn = fold_spec(w, z, r);
    let en = fold_spec(e, t, r);

    // the decider accepts the new accumulator
    assert(z.len() == n);
    assert forall|i: int| 0 <= i < e.len() implies 0 <= #[trigger] e[i] < p() by {
        assert(e[i] == acc_i.err@[i].value());
        assert(acc_i.err@[i].wf());
    }
    lemma_fold_preserves_decider(key, z, w, e, c, r);
    assert(vals(new_i.w@) == wn);
    assert(vals(new_i.err@) == en);
    assert(decider_relation(key, vals(new_i.w@), vals(new_i.err@), new_i.c.value()));
    assert(decide_spec(key, new_i, new_w));

    // the folding verifier accepts the proof
    let zc = code_spec(z, RATE as nat);
    let wc = code_spec(w, RATE as nat);
    let ec = code_spec(e, RATE as nat);
    let wnc = code_spec(wn, RATE as nat);
    let enc = code_spec(en, RATE as nat);
    let tc = code_spec(t, RATE as nat);
    assert forall|j: int| 0 <= j < QUERY_COUNT implies #[trigger] verify_spot(
        pf,
        acc_w,
        new_w,
        inp_w,
        z,
        w,
        e,
        wn,
        en,
        t,
        j,
    ) by {
        let idx = index_of(inp_w, acc_w, j as nat);
        assert(prove_spot(key, acc_i, acc_w, inp_i, inp_w, pf, j));
        assert(opening_ok(pf.acc_openings@[j], idx, w));
        assert(opening_ok(pf.new_acc_openings@[j], idx, wn));
        assert(opening_ok(pf.input_openings@[j], idx, z));
        assert(opening_ok(pf.err_openings@[j], idx, e));
        assert(opening_ok(pf.new_err_openings@[j], idx, en));
        assert(opening_ok(pf.t_openings@[j], idx, t));
        assert(opening_checks(pf.input_openings@[j], idx, zc, inp_w.blinded_assignment));
        assert(opening_checks(pf.acc_openings@[j], idx, wc, acc_w.blinded_w));
        assert(opening_checks(pf.new_acc_openings@[j], idx, wnc, new_w.blinded_w));
        assert(opening_checks(pf.t_openings@[j], idx, tc, pf.blinded_t));
        assert(opening_checks(pf.err_openings@[j], idx, ec, acc_w.blinded_err));
        assert(opening_checks(pf.new_err_openings@[j], idx, enc, new_w.blinded_err));
        lemma_codeword_linearity(w, z, r, idx);
        lemma_codeword_linearity(e, t, r, idx);
        assert(verify_spot(pf, acc_w, new_w, inp_w, z, w, e, wn, en, t, j));
    }
    assert(verify_spec(key, pf, acc_i, acc_w, new_i, new_w, inp_i, inp_w)) by {
        assert(vals(new_i.w@) == wn && vals(new_i.err@) == en && vals(pf.t@) == t);
        assert(forall|j: int|
            0 <= j < QUERY_COUNT ==> #[trigger] verify_spot(
                pf,
                acc_w,
                new_w,
                inp_w,
                inp_z(inp_i),
                vals(acc_i.w@),
                vals(acc_i.err@),
                vals(new_i.w@),
                vals(new_i.err@),
                vals(pf.t@),
                j,
            ));
    }
}

/// A fold whose new scalar is anything but `c_old + r` is rejected:
/// in particular, a prover that replaced the Fiat-Shamir scalar `r`
/// with any other value, or flipped a bit of `c_new`, fails.
pub proof fn lemma_wrong_scalar_rejected(
    key: IndexProverKey,
    pf: Proof,
    acc_i: AccumulatorInstance,
    acc_w: AccumulatorWitness,
    new_i: AccumulatorInstance,
    new_w: AccumulatorWitness,
    inp_i: FullAssignment,
    inp_w: CommitmentFullAssignment,
)
    requires
        new_i.c.value() != (acc_i.c.value() + scalar_of(inp_w, acc_w)) % p(),
    ensures
        !verify_spec(key, pf, acc_i, acc_w, new_i, new_w, inp_i, inp_w),
{
}

/// Tampering with one entry of a decided accumulator's error vector
/// breaks the rank-one relation: whatever witness is presented, the
/// decider rejects the tampered accumulator.
pub proof fn lemma_tampered_err_rejected(
    key: IndexProverKey,
    inst: AccumulatorInstance,
    wit: AccumulatorWitness,
    inst2: AccumulatorInstance,
    wit2: AccumulatorWitness,
    k: int,
)
    requires
        key.wf(),
        decide_spec(key, inst, wit),
        inst2.wf(),
        inst2.w@ == inst.w@,
        inst2.c == inst.c,
        inst2.err@.len() == inst.err@.len(),
        0 <= k < inst.err@.len(),
        vals(inst2.err@)[k] != vals(inst.err@)[k],
    ensures
        !decide_spec(key, inst2, wit2),
{
    let n = key.index_info.num_variables as nat;
    let w = vals(inst.w@);
    let c = inst.c.value();
    let e = vals(inst.err@);
    let e2 = vals(inst2.err@);
    let cwp = mv_padded(rows_of(key.c), w, n);
    if decider_relation(key, w, e2, c) {
        let x = e[k];
        let y = e2[k];
        assert(had_spec(mv_padded(rows_of(key.a), w, n), mv_padded(rows_of(key.b), w, n))[k]
            == Seq::new(n, |q: int| (e[q] + c * cwp[q]) % p())[k]);
        assert(had_spec(mv_padded(rows_of(key.a), w, n), mv_padded(rows_of(key.b), w, n))[k]
            == Seq::new(n, |q: int| (e2[q] + c * cwp[q]) % p())[k]);
        assert((x + c * cwp[k]) % p() == (y + c * cwp[k]) % p());
        lemma_sub_mod_noop(x + c * cwp[k], y + c * cwp[k], p());
        assert((x - y) % p() == 0);
        assert(0 <= x < p()) by {
            assert(e[k] == inst.err@[k].value());
            assert(inst.err@[k].wf());
        }
        assert(0 <= y < p()) by {
            assert(e2[k] == inst2.err@[k].value());
            assert(inst2.err@[k].wf());
        }
        if x > y {
            lemma_small_mod((x - y) as nat, p() as nat);
        } else {
            lemma_fundamental_div_mod_converse(x - y, p(), -1, x - y + p());
        }
        assert(false);
    }
}

/// The prover is deterministic: any two outputs it can produce for
/// one key, one accumulator and one input carry the same data.
#[verifier::rlimit(60)]
pub proof fn lemma_prove_deterministic(
    key: IndexProverKey,
    acc_i: AccumulatorInstance,
    acc_w: AccumulatorWitness,
    inp_i: FullAssignment,
    inp_w: CommitmentFullAssignment,
    new_i1: AccumulatorInstance,
    new_w1: AccumulatorWitness,
    pf1: Proof,
    new_i2: AccumulatorInstance,
    new_w2: AccumulatorWitness,
    pf2: Proof,
)
    requires
        prove_post(key, acc_i, acc_w, inp_i, inp_w, new_i1, new_w1, pf1),
        prove_post(key, acc_i, acc_w, inp_i, inp_w, new_i2, new_w2, pf2),
    ensures
        new_i1.w@ == new_i2.w@,
        new_i1.err@ == new_i2.err@,
        new_i1.c == new_i2.c,
        new_w1 == new_w2,
        pf1.t@ == pf2.t@,
        pf1.blinded_t == pf2.blinded_t,
        openings_same(pf1.acc_openings@, pf2.acc_openings@),
        openings_same(pf1.new_acc_openings@, pf2.new_acc_openings@),
        openings_same(pf1.input_openings@, pf2.input_openings@),
        openings_same(pf1.err_openings@, pf2.err_openings@),
        openings_same(pf1.new_err_openings@, pf2.new_err_openings@),
        openings_same(pf1.t_openings@, pf2.t_openings@),
{
    lemma_felt_vec_determined(new_i1.w@, new_i2.w@);
    lemma_felt_vec_determined(new_i1.err@, new_i2.err@);
    crate::field::lemma_felt_value_injective(new_i1.c, new_i2.c);
    crate::field::lemma_felt_value_injective(new_w1.blinded_w, new_w2.blinded_w);
    crate::field::lemma_felt_value_injective(new_w1.blinded_err, new_w2.blinded_err);
    lemma_felt_vec_determined(pf1.t@, pf2.t@);
    crate::field::lemma_felt_value_injective(pf1.blinded_t, pf2.blinded_t);
    lemma_spots_to_openings(key, acc_i, acc_w, inp_i, inp_w, pf1);
    lemma_spots_to_openings(key, acc_i, acc_w, inp_i, inp_w, pf2);
    lemma_openings_determined(pf1.acc_openings@, pf2.acc_openings@, inp_w, acc_w, vals(acc_i.w@));
    lemma_openings_determined(
        pf1.new_acc_openings@,
        pf2.new_acc_openings@,
        inp_w,
        acc_w,
        fold_spec(vals(acc_i.w@), inp_z(inp_i), scalar_of(inp_w, acc_w)),
    );
    lemma_openings_determined(pf1.input_openings@, pf2.input_openings@, inp_w, acc_w, inp_z(inp_i));
    lemma_openings_determined(
        pf1.err_openings@,
        pf2.err_openings@,
        inp_w,
        acc_w,
        vals(acc_i.err@),
    );
    lemma_openings_determined(
        pf1.new_err_openings@,
        pf2.new_err_openings@,
        inp_w,
        acc_w,
        fold_spec(
            vals(acc_i.err@),
            cross_term(key, inp_z(inp_i), vals(acc_i.w@), acc_i.c.value()),
            scalar_of(inp_w, acc_w),
        ),
    );
    lemma_openings_determined(
        pf1.t_openings@,
        pf2.t_openings@,
        inp_w,
        acc_w,
        cross_term(key, inp_z(inp_i), vals(acc_i.w@), acc_i.c.value()),
    );
}

/// Two openings hold the same data.
pub open spec fn opening_same(o1: crate::merkle::MerkleOpening, o2: crate::merkle::MerkleOpening) -> bool {
    o1.index == o2.index && o1.leaf == o2.leaf && o1.siblings@ == o2.siblings@
}

/// Two vectors of openings hold the same data, position by position.
pub open spec fn openings_same(s1: Seq<crate::merkle::MerkleOpening>, s2: Seq<crate::merkle::MerkleOpening>) -> bool {
    s1.len() == s2.len() && forall|j: int| 0 <= j < s1.len() ==> opening_same(#[trigger] s1[j], s2[j])
}

/// Two element vectors of one value sequence are one sequence.
proof fn lemma_felt_vec_determined(v1: Seq<Felt>, v2: Seq<Felt>)
    requires
        vals(v1) == vals(v2),
    ensures
        v1 == v2,
{
    assert(vals(v1).len() == v1.len() && vals(v2).len() == v2.len());
    assert forall|i: int| 0 <= i < v1.len() implies v1[i] == v2[i] by {
        assert(vals(v1)[i] == v1[i].value());
        assert(vals(v2)[i] == v2[i].value());
        crate::field::lemma_felt_value_injective(v1[i], v2[i]);
    }
    assert(v1 =~= v2);
}

/// Openings pinned by `opening_ok` at the same indices and codeword
/// carry the same data.
proof fn lemma_openings_determined(
    s1: Seq<crate::merkle::MerkleOpening>,
    s2: Seq<crate::merkle::MerkleOpening>,
    inp_w: CommitmentFullAssignment,
    acc_w: AccumulatorWitness,
    coeffs: Seq<int>,
)
    requires
        s1.len() == QUERY_COUNT,
        s2.len() == QUERY_COUNT,
        forall|j: int|
            0 <= j < QUERY_COUNT ==> opening_ok(
                #[trigger] s1[j],
                index_of(inp_w, acc_w, j as nat),
                coeffs,
            ),
        forall|j: int|
            0 <= j < QUERY_COUNT ==> opening_ok(
                #[trigger] s2[j],
                index_of(inp_w, acc_w, j as nat),
                coeffs,
            ),
    ensures
        openings_same(s1, s2),
{
    assert forall|j: int| 0 <= j < s1.len() implies opening_same(#[trigger] s1[j], s2[j]) by {
        let idx = index_of(inp_w, acc_w, j as nat);
        let o1 = s1[j];
        let o2 = s2[j];
        assert(opening_ok(o1, idx, coeffs));
        assert(opening_ok(o2, idx, coeffs));
        crate::field::lemma_felt_value_injective(o1.leaf, o2.leaf);
        assert forall|k: int| 0 <= k < o1.siblings@.len() implies o1.siblings@[k]
            == o2.siblings@[k] by {
            assert(vals(o1.siblings@)[k] == o1.siblings@[k].value());
            assert(vals(o2.siblings@)[k] == o2.siblings@[k].value());
            assert(vals(o1.siblings@)[k] == crate::merkle::sibling_at(
                crate::merkle::digests_of(code_spec(coeffs, RATE as nat)),
                idx,
                k as nat,
            ));
            assert(vals(o2.siblings@)[k] == crate::merkle::sibling_at(
                crate::merkle::digests_of(code_spec(coeffs, RATE as nat)),
                idx,
                k as nat,
            ));
            crate::field::lemma_felt_value_injective(o1.siblings@[k], o2.siblings@[k]);
        }
        assert(o1.siblings@ =~= o2.siblings@);
    }
}


/// Unpacks the prover's per-index promise into one promise per
/// opening family.
proof fn lemma_spots_to_openings(
    key: IndexProverKey,
    acc_i: AccumulatorInstance,
    acc_w: AccumulatorWitness,
    inp_i: FullAssignment,
    inp_w: CommitmentFullAssignment,
    pf: Proof,
)
    requires
        forall|j: int|
            0 <= j < QUERY_COUNT ==> #[trigger] prove_spot(key, acc_i, acc_w, inp_i, inp_w, pf, j),
    ensures
        forall|j: int|
            0 <= j < QUERY_COUNT ==> opening_ok(
                #[trigger] pf.acc_openings@[j],
                index_of(inp_w, acc_w, j as nat),
                vals(acc_i.w@),
            ),
        forall|j: int|
            0 <= j < QUERY_COUNT ==> opening_ok(
                #[trigger] pf.new_acc_openings@[j],
                index_of(inp_w, acc_w, j as nat),
                fold_spec(vals(acc_i.w@), inp_z(inp_i), scalar_of(inp_w, acc_w)),
            ),
        forall|j: int|
            0 <= j < QUERY_COUNT ==> opening_ok(
                #[trigger] pf.input_openings@[j],
                index_of(inp_w, acc_w, j as nat),
                inp_z(inp_i),
            ),
        forall|j: int|
            0 <= j < QUERY_COUNT ==> opening_ok(
                #[trigger] pf.err_openings@[j],
                index_of(inp_w, acc_w, j as nat),
                vals(acc_i.err@),
            ),
        forall|j: int|
            0 <= j < QUERY_COUNT ==> opening_ok(
                #[trigger] pf.new_err_openings@[j],
                index_of(inp_w, acc_w, j as nat),
                fold_spec(
                    vals(acc_i.err@),
                    cross_term(key, inp_z(inp_i), vals(acc_i.w@), acc_i.c.value()),
                    scalar_of(inp_w, acc_w),
                ),
            ),
        forall|j: int|
            0 <= j < QUERY_COUNT ==> opening_ok(
                #[trigger] pf.t_openings@[j],
                index_of(inp_w, acc_w, j as nat),
                cross_term(key, inp_z(inp_i), vals(acc_i.w@), acc_i.c.value()),
            ),
{
    assert forall|j: int| 0 <= j < QUERY_COUNT implies opening_ok(
        #[trigger] pf.acc_openings@[j],
        index_of(inp_w, acc_w, j as nat),
        vals(acc_i.w@),
    ) by {
        assert(prove_spot(key, acc_i, acc_w, inp_i, inp_w, pf, j));
    }
    assert forall|j: int| 0 <= j < QUERY_COUNT implies opening_ok(
        #[trigger] pf.new_acc_openings@[j],
        index_of(inp_w, acc_w, j as nat),
        fold_spec(vals(acc_i.w@), inp_z(inp_i), scalar_of(inp_w, acc_w)),
    ) by {
        assert(prove_spot(key, acc_i, acc_w, inp_i, inp_w, pf, j));
    }
    assert forall|j: int| 0 <= j < QUERY_COUNT implies opening_ok(
        #[trigger] pf.input_openings@[j],
        index_of(inp_w, acc_w, j as nat),
        inp_z(inp_i),
    ) by {
        assert(prove_spot(key, acc_i, acc_w, inp_i, inp_w, pf, j));
    }
    assert forall|j: int| 0 <= j < QUERY_COUNT implies opening_ok(
        #[trigger] pf.err_openings@[j],
        index_of(inp_w, acc_w, j as nat),
        vals(acc_i.err@),
    ) by {
        assert(prove_spot(key, acc_i, acc_w, inp_i, inp_w, pf, j));
    }
    assert forall|j: int| 0 <= j < QUERY_COUNT implies opening_ok(
        #[trigger] pf.new_err_openings@[j],
        index_of(inp_w, acc_w, j as nat),
        fold_spec(
            vals(acc_i.err@),
            cross_term(key, inp_z(inp_i), vals(acc_i.w@), acc_i.c.value()),
            scalar_of(inp_w, acc_w),
        ),
    ) by {
        assert(prove_spot(key, acc_i, acc_w, inp_i, inp_w, pf, j));
    }
    assert forall|j: int| 0 <= j < QUERY_COUNT implies opening_ok(
        #[trigger] pf.t_openings@[j],
        index_of(inp_w, acc_w, j as nat),
        cross_term(key, inp_z(inp_i), vals(acc_i.w@), acc_i.c.value()),
    ) by {
        assert(prove_spot(key, acc_i, acc_w, inp_i, inp_w, pf, j));
    }
}

} // verus!
