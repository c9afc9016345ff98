//! Canonical serialisation of the scheme's data.
//!
//! Everything is little-endian and length-prefixed: a 64-bit count
//! followed by fixed 32-byte field elements.  Deserialisation accepts
//! exactly the canonical encodings of well-formed data: the contracts
//! state that decoding an encoding gives the encoded value back.

use vstd::prelude::*;
use vstd::arithmetic::div_mod::{
    lemma_div_denominator, lemma_fundamental_div_mod, lemma_fundamental_div_mod_converse,
    lemma_mod_bound, lemma_multiply_divide_lt,
};
use crate::data_structures::{AccumulatorInstance, AccumulatorWitness};
use crate::field::{felt_is_canonical, le_bytes_as_int, Felt};
use crate::fiat_shamir::{felt_le32, felt_to_le_bytes, u64_le8};
use crate::matrix::wf_vec;
use crate::merkle::MerkleOpening;
use crate::merkle::two_pow;
use crate::r1cs_nark::{
    rows_of, CommitmentFullAssignment, FullAssignment, IndexInfo, IndexProverKey, Proof,
};
use crate::matrix::{SparseMatrix, SparseRow};

verus! {

/// A little-endian byte string is bounded by `2^(8·len)`.
proof fn lemma_le_int_bound(s: Seq<u8>)
    ensures
        0 <= le_bytes_as_int(s) < two_pow((8 * s.len()) as nat),
    decreases s.len(),
{
    lemma_two_pow_pos_c((8 * s.len()) as nat);
    if s.len() > 0 {
        lemma_le_int_bound(s.drop_first());
        lemma_two_pow_add8_c((8 * (s.len() - 1)) as nat);
    }
}

/// `2^(k+8) = 256 * 2^k`.
proof fn lemma_two_pow_add8_c(k: nat)
    ensures
        two_pow(k + 8) == 256 * two_pow(k),
{
    reveal_with_fuel(two_pow, 9);
}

/// Powers of two are positive.
proof fn lemma_two_pow_pos_c(k: nat)
    ensures
        two_pow(k) >= 1,
    decreases k,
{
    if k > 0 {
        lemma_two_pow_pos_c((k - 1) as nat);
    }
}

/// `2^64` written out.
proof fn lemma_two_pow_64()
    ensures
        two_pow(64) == 0x10000000000000000,
{
    assert(two_pow(0) == 1);
    lemma_two_pow_add8_c(0);
    lemma_two_pow_add8_c(8);
    lemma_two_pow_add8_c(16);
    lemma_two_pow_add8_c(24);
    lemma_two_pow_add8_c(32);
    lemma_two_pow_add8_c(40);
    lemma_two_pow_add8_c(48);
    lemma_two_pow_add8_c(56);
}

/// Reading the little-endian bytes of a limb gives the limb back.
proof fn lemma_le_int_of_le8(x: u64)
    ensures
        le_bytes_as_int(u64_le8(x)) == x,
{
    lemma_two_pow_64();
    lemma_le_chunk(x, 8);
    assert(u64_le8(x) =~= Seq::new(8, |i: int| ((x as int / two_pow((8 * i) as nat) as int) % 256) as u8));
}

/// Reading the first `k` little-endian byte chunks of a value below
/// `2^(8k)` gives the value back.
proof fn lemma_le_chunk(x: u64, k: nat)
    requires
        k <= 8,
        x < two_pow((8 * k) as nat),
    ensures
        le_bytes_as_int(Seq::new(k, |i: int| ((x as int / two_pow((8 * i) as nat) as int) % 256) as u8)) == x,
    decreases k,
{
    let s = Seq::new(k, |i: int| ((x as int / two_pow((8 * i) as nat) as int) % 256) as u8);
    if k == 0 {
        assert(two_pow(0) == 1);
        assert(x == 0);
    } else {
        let y = x / 256;
        lemma_fundamental_div_mod(x as int, 256);
        lemma_two_pow_add8_c((8 * (k - 1)) as nat);
        lemma_two_pow_pos_c((8 * (k - 1)) as nat);
        lemma_multiply_divide_lt(x as int, two_pow((8 * (k - 1)) as nat) as int, 256);
        lemma_le_chunk(y, (k - 1) as nat);
        let s2 = Seq::new(
            (k - 1) as nat,
            |i: int| ((y as int / two_pow((8 * i) as nat) as int) % 256) as u8,
        );
        assert(s.drop_first() =~= s2) by {
            assert forall|i: int| 0 <= i < k - 1 implies s.drop_first()[i] == s2[i] by {
                lemma_two_pow_pos_c((8 * i) as nat);
                lemma_div_denominator(x as int, 256, two_pow((8 * i) as nat) as int);
                lemma_two_pow_add8_c((8 * i) as nat);
                assert(256 * two_pow((8 * i) as nat) == two_pow((8 * (i + 1)) as nat));
            }
        }
        assert(s[0] == (x as int % 256) as u8) by {
            assert(two_pow(0) == 1);
            vstd::arithmetic::div_mod::lemma_div_basics(x as int);
        }
        lemma_mod_bound(x as int, 256);
        assert(le_bytes_as_int(s) == x % 256 + 256 * (x as int / 256));
    }
}

/// Every byte of the little-endian encoding of `le_bytes_as_int` comes
/// unchanged.
proof fn lemma_le8_of_le_bytes_as_int(b: Seq<u8>)
    requires
        b.len() == 8,
    ensures
        le_bytes_as_int(b) < 0x10000000000000000,
        u64_le8(le_bytes_as_int(b) as u64) == b,
{
    lemma_le_int_bound(b);
    lemma_two_pow_64();
    lemma_le_digit(b, 8);
    let x = le_bytes_as_int(b) as u64;
    assert forall|i: int| 0 <= i < 8 implies u64_le8(x)[i] == b[i] by {
        assert((le_bytes_as_int(b) / two_pow((8 * i) as nat) as int) % 256 == b[i]);
    }
    assert(u64_le8(x) =~= b);
}

/// The `i`-th base-256 digit of `le_bytes_as_int(b)` is `b[i]`.
proof fn lemma_le_digit(b: Seq<u8>, k: nat)
    requires
        b.len() == k,
        k <= 8,
    ensures
        forall|i: int|
            0 <= i < k ==> (le_bytes_as_int(b) / two_pow((8 * i) as nat) as int) % 256 == b[i],
    decreases k,
{
    if k > 0 {
        let rest = b.drop_first();
        lemma_le_digit(rest, (k - 1) as nat);
        lemma_le_int_bound(rest);
        assert forall|i: int|
            0 <= i < k implies (le_bytes_as_int(b) / two_pow((8 * i) as nat) as int) % 256 == b[i] by {
            if i == 0 {
                assert(two_pow(0) == 1);
                vstd::arithmetic::div_mod::lemma_div_basics(le_bytes_as_int(b));
                lemma_fundamental_div_mod_converse(le_bytes_as_int(b), 256, le_bytes_as_int(rest), b[0] as int);
            } else {
                lemma_fundamental_div_mod_converse(le_bytes_as_int(b), 256, le_bytes_as_int(rest), b[0] as int);
                lemma_two_pow_pos_c((8 * (i - 1)) as nat);
                lemma_div_denominator(le_bytes_as_int(b), 256, two_pow((8 * (i - 1)) as nat) as int);
                lemma_two_pow_add8_c((8 * (i - 1)) as nat);
                assert(256 * two_pow((8 * (i - 1)) as nat) == two_pow((8 * i) as nat));
                assert((le_bytes_as_int(rest) / two_pow((8 * (i - 1)) as nat) as int) % 256 == rest[i - 1]);
            }
        }
    }
}

/// The limbs read back from a 32-byte block.
pub open spec fn felt_of_le32(s: Seq<u8>) -> Felt {
    Felt {
        l0: le_bytes_as_int(s.subrange(0, 8)) as u64,
        l1: le_bytes_as_int(s.subrange(8, 16)) as u64,
        l2: le_bytes_as_int(s.subrange(16, 24)) as u64,
        l3: le_bytes_as_int(s.subrange(24, 32)) as u64,
    }
}

/// Reading the 32-byte block of an element gives the element back.
pub proof fn lemma_felt_le32_roundtrip(f: Felt)
    ensures
        felt_of_le32(felt_le32(f)) == f,
{
    let s = felt_le32(f);
    assert(s.subrange(0, 8) =~= u64_le8(f.l0));
    assert(s.subrange(8, 16) =~= u64_le8(f.l1));
    assert(s.subrange(16, 24) =~= u64_le8(f.l2));
    assert(s.subrange(24, 32) =~= u64_le8(f.l3));
    lemma_le_int_of_le8(f.l0);
    lemma_le_int_of_le8(f.l1);
    lemma_le_int_of_le8(f.l2);
    lemma_le_int_of_le8(f.l3);
}

/// Writing the block read back from 32 bytes restores the bytes.
pub proof fn lemma_le32_felt_roundtrip(s: Seq<u8>)
    requires
        s.len() == 32,
    ensures
        felt_le32(felt_of_le32(s)) == s,
{
    lemma_le8_of_le_bytes_as_int(s.subrange(0, 8));
    lemma_le8_of_le_bytes_as_int(s.subrange(8, 16));
    lemma_le8_of_le_bytes_as_int(s.subrange(16, 24));
    lemma_le8_of_le_bytes_as_int(s.subrange(24, 32));
    assert(felt_le32(felt_of_le32(s)) =~= s);
}


/// The encoding of a sequence of elements, first to last.
pub open spec fn ser_felts(s: Seq<Felt>) -> Seq<u8>
    decreases s.len(),
{
    if s.len() == 0 {
        Seq::empty()
    } else {
        felt_le32(s[0]) + ser_felts(s.drop_first())
    }
}

/// The encoding of an element vector: its length, then its elements.
pub open spec fn ser_felt_vec(s: Seq<Felt>) -> Seq<u8> {
    u64_le8(s.len() as u64) + ser_felts(s)
}

/// The encoding of an accumulator witness: its two roots.
pub open spec fn ser_accumulator_witness(w: AccumulatorWitness) -> Seq<u8> {
    felt_le32(w.blinded_w) + felt_le32(w.blinded_err)
}

/// The encoding of an accumulator instance: `w`, `err`, then `c`.
pub open spec fn ser_accumulator_instance(a: AccumulatorInstance) -> Seq<u8> {
    ser_felt_vec(a.w@) + ser_felt_vec(a.err@) + felt_le32(a.c)
}

/// The encoding of a NARK proof: the assignment, then its commitment.
pub open spec fn ser_nark_proof(pr: Proof) -> Seq<u8> {
    ser_felt_vec(pr.instance.input@) + ser_felt_vec(pr.instance.witness@) + felt_le32(
        pr.witness.blinded_assignment,
    )
}

/// Appending one element extends the encoding by its block.
proof fn lemma_ser_felts_snoc(s: Seq<Felt>, x: Felt)
    ensures
        ser_felts(s.push(x)) == ser_felts(s) + felt_le32(x),
    decreases s.len(),
{
    reveal_with_fuel(ser_felts, 3);
    if s.len() == 0 {
        assert(s.push(x).drop_first() =~= Seq::<Felt>::empty());
        assert(s.push(x)[0] == x);
        assert(ser_felts(s.push(x)) =~= felt_le32(x));
        assert(ser_felts(s) + felt_le32(x) =~= felt_le32(x));
    } else {
        assert(s.push(x).drop_first() =~= s.drop_first().push(x));
        assert(s.push(x)[0] == s[0]);
        lemma_ser_felts_snoc(s.drop_first(), x);
        assert(felt_le32(s[0]) + (ser_felts(s.drop_first()) + felt_le32(x)) =~= (felt_le32(s[0])
            + ser_felts(s.drop_first())) + felt_le32(x));
    }
}

/// The encoding of a sequence is 32 bytes per element.
proof fn lemma_ser_felts_len(s: Seq<Felt>)
    ensures
        ser_felts(s).len() == 32 * s.len(),
    decreases s.len(),
{
    if s.len() > 0 {
        lemma_ser_felts_len(s.drop_first());
    }
}

/// The block of element `i` inside the encoding of a sequence.
proof fn lemma_ser_felts_chunk(s: Seq<Felt>, i: int)
    requires
        0 <= i < s.len(),
    ensures
        ser_felts(s).len() == 32 * s.len(),
        ser_felts(s).subrange(32 * i, 32 * i + 32) == felt_le32(s[i]),
    decreases i,
{
    lemma_ser_felts_len(s);
    lemma_ser_felts_len(s.drop_first());
    if i == 0 {
        assert(ser_felts(s).subrange(0, 32) =~= felt_le32(s[0]));
    } else {
        lemma_ser_felts_chunk(s.drop_first(), i - 1);
        assert(ser_felts(s).subrange(32 * i, 32 * i + 32) =~= ser_felts(s.drop_first()).subrange(
            32 * (i - 1),
            32 * (i - 1) + 32,
        ));
        assert(s.drop_first()[i - 1] == s[i]);
    }
}

/// Sequences with one encoding are one sequence.
proof fn lemma_ser_felts_injective(v: Seq<Felt>, w: Seq<Felt>)
    requires
        v.len() == w.len(),
        ser_felts(v) == ser_felts(w),
    ensures
        v == w,
{
    assert forall|i: int| 0 <= i < v.len() implies v[i] == w[i] by {
        lemma_ser_felts_chunk(v, i);
        lemma_ser_felts_chunk(w, i);
        lemma_felt_le32_roundtrip(v[i]);
        lemma_felt_le32_roundtrip(w[i]);
    }
    assert(v =~= w);
}

/// Appends the encoding of one element.
fn push_felt(out: &mut Vec<u8>, f: &Felt)
    ensures
        final(out)@ == old(out)@ + felt_le32(*f),
{
    let ghost base = out@;
    let b = felt_to_le_bytes(f);
    let mut i: usize = 0;
    while i < 32
        invariant
            b@ == felt_le32(*f),
            b@.len() == 32,
            i <= 32,
            out@ == base + b@.subrange(0, i as int),
        decreases 32 - i,
    {
        proof {
            assert((base + b@.subrange(0, i as int)).push(b@[i as int]) =~= base + b@.subrange(
                0,
                i + 1,
            ));
        }
        out.push(b[i]);
        i = i + 1;
    }
    assert(base + b@.subrange(0, 32) =~= base + b@);
}

/// Appends the encoding of an element vector.
fn push_felt_vec(out: &mut Vec<u8>, v: &Vec<Felt>)
    ensures
        final(out)@ == old(out)@ + ser_felt_vec(v@),
{
    let ghost base = out@;
    crate::fiat_shamir::push_le8(out, v.len() as u64);
    let n = v.len();
    let mut i: usize = 0;
    proof {
        assert(ser_felts(v@.subrange(0, 0)) =~= Seq::<u8>::empty());
        assert(out@ =~= base + u64_le8(n as u64) + ser_felts(v@.subrange(0, 0)));
    }
    while i < n
        invariant
            n == v@.len(),
            i <= n,
            out@ == base + u64_le8(n as u64) + ser_felts(v@.subrange(0, i as int)),
        decreases n - i,
    {
        push_felt(out, &v[i]);
        proof {
            assert(v@.subrange(0, i as int).push(v@[i as int]) =~= v@.subrange(0, i + 1));
            lemma_ser_felts_snoc(v@.subrange(0, i as int), v@[i as int]);
            assert((base + u64_le8(n as u64) + ser_felts(v@.subrange(0, i as int))) + felt_le32(
                v@[i as int],
            ) =~= base + u64_le8(n as u64) + ser_felts(v@.subrange(0, i + 1)));
        }
        i = i + 1;
    }
    assert(v@.subrange(0, n as int) =~= v@);
    assert(base + u64_le8(n as u64) + ser_felts(v@) =~= base + ser_felt_vec(v@));
}

/// Encodes an accumulator witness.
pub fn serialize_accumulator_witness(w: &AccumulatorWitness) -> (r: Vec<u8>)
    ensures
        r@ == ser_accumulator_witness(*w),
{
    let mut out: Vec<u8> = Vec::new();
    push_felt(&mut out, &w.blinded_w);
    push_felt(&mut out, &w.blinded_err);
    assert(out@ =~= ser_accumulator_witness(*w));
    out
}

/// Encodes an accumulator instance.
pub fn serialize_accumulator_instance(a: &AccumulatorInstance) -> (r: Vec<u8>)
    ensures
        r@ == ser_accumulator_instance(*a),
{
    let mut out: Vec<u8> = Vec::new();
    push_felt_vec(&mut out, &a.w);
    push_felt_vec(&mut out, &a.err);
    push_felt(&mut out, &a.c);
    assert(out@ =~= ser_accumulator_instance(*a));
    out
}

/// Encodes a NARK proof.
pub fn serialize_nark_proof(pr: &Proof) -> (r: Vec<u8>)
    ensures
        r@ == ser_nark_proof(*pr),
{
    let mut out: Vec<u8> = Vec::new();
    push_felt_vec(&mut out, &pr.instance.input);
    push_felt_vec(&mut out, &pr.instance.witness);
    push_felt(&mut out, &pr.witness.blinded_assignment);
    assert(out@ =~= ser_nark_proof(*pr));
    out
}


/// Reads one 64-bit count.
fn de_u64(bytes: &Vec<u8>, pos: usize) -> (r: Option<(u64, usize)>)
    requires
        pos <= bytes@.len(),
    ensures
        pos + 8 <= bytes@.len() ==> r is Some,
        r is Some ==> r->Some_0.1 == pos + 8 && pos + 8 <= bytes@.len() && u64_le8(r->Some_0.0)
            == bytes@.subrange(pos as int, pos as int + 8),
{
    let blen = bytes.len();
    if blen - pos < 8 {
        return None;
    }
    let ghost sub = bytes@.subrange(pos as int, pos as int + 8);
    let mut v: u64 = 0;
    let mut j: usize = 8;
    proof {
        assert(sub.subrange(8, 8) =~= Seq::<u8>::empty());
        assert(two_pow(0) == 1);
        assert(two_pow(56) == 0x100000000000000) by {
            reveal_with_fuel(two_pow, 57);
        }
    }
    while j > 0
        invariant
            pos + 8 <= blen,
            blen == bytes@.len(),
            j <= 8,
            sub == bytes@.subrange(pos as int, pos as int + 8),
            v as int == le_bytes_as_int(sub.subrange(j as int, 8)),
            (v as int) < two_pow((8 * (8 - j)) as nat),
            two_pow(56) == 0x100000000000000,
        decreases j,
    {
        j = j - 1;
        proof {
            assert(sub.subrange(j as int, 8).drop_first() =~= sub.subrange(j + 1, 8));
            assert(sub.subrange(j as int, 8)[0] == sub[j as int]);
            let tp: int = two_pow((8 * (7 - j)) as nat) as int;
            assert((v as int) < tp);
            assert(tp <= two_pow(56)) by {
                lemma_two_pow_mono_c((8 * (7 - j)) as nat, 56);
            }
            assert(v as int * 256 + 255 < 256 * tp) by (nonlinear_arith)
                requires
                    (v as int) < tp,
            ;
            assert(256 * tp <= 0x10000000000000000int);
            lemma_two_pow_add8_c((8 * (7 - j)) as nat);
            assert(two_pow((8 * (8 - j)) as nat) == 256 * two_pow((8 * (7 - j)) as nat));
        }
        v = v * 256 + (bytes[pos + j] as u64);
    }
    proof {
        assert(sub.subrange(0, 8) =~= sub);
        lemma_le8_of_le_bytes_as_int(sub);
    }
    Some((v, pos + 8))
}

/// Powers of two grow with the exponent.
proof fn lemma_two_pow_mono_c(a: nat, b: nat)
    requires
        a <= b,
    ensures
        two_pow(a) <= two_pow(b),
    decreases b,
{
    if a < b {
        lemma_two_pow_mono_c(a, (b - 1) as nat);
        lemma_two_pow_pos_c(a);
    }
}

/// Reads one canonical field element.
fn de_felt(bytes: &Vec<u8>, pos: usize) -> (r: Option<(Felt, usize)>)
    requires
        pos <= bytes@.len(),
    ensures
        r is Some ==> r->Some_0.1 == pos + 32 && pos + 32 <= bytes@.len() && felt_le32(
            r->Some_0.0,
        ) == bytes@.subrange(pos as int, pos as int + 32) && r->Some_0.0.wf() && r->Some_0.0
            == felt_of_le32(bytes@.subrange(pos as int, pos as int + 32)),
        (pos + 32 <= bytes@.len() && felt_of_le32(
            bytes@.subrange(pos as int, pos as int + 32),
        ).wf()) ==> r is Some,
{
    if bytes.len() - pos < 32 {
        return None;
    }
    let ghost sub = bytes@.subrange(pos as int, pos as int + 32);
    let r0 = de_u64(bytes, pos);
    let r1 = de_u64(bytes, pos + 8);
    let r2 = de_u64(bytes, pos + 16);
    let r3 = de_u64(bytes, pos + 24);
    let l0 = match r0 {
        Some(x) => x.0,
        None => { return None; },
    };
    let l1 = match r1 {
        Some(x) => x.0,
        None => { return None; },
    };
    let l2 = match r2 {
        Some(x) => x.0,
        None => { return None; },
    };
    let l3 = match r3 {
        Some(x) => x.0,
        None => { return None; },
    };
    let f = Felt { l0, l1, l2, l3 };
    proof {
        assert(bytes@.subrange(pos as int, pos as int + 8) =~= sub.subrange(0, 8));
        assert(bytes@.subrange(pos as int + 8, pos as int + 16) =~= sub.subrange(8, 16));
        assert(bytes@.subrange(pos as int + 16, pos as int + 24) =~= sub.subrange(16, 24));
        assert(bytes@.subrange(pos as int + 24, pos as int + 32) =~= sub.subrange(24, 32));
        lemma_le_int_of_le8(l0);
        lemma_le_int_of_le8(l1);
        lemma_le_int_of_le8(l2);
        lemma_le_int_of_le8(l3);
        assert(f == felt_of_le32(sub));
        lemma_le32_felt_roundtrip(sub);
        assert(felt_le32(f) == sub);
    }
    if !felt_is_canonical(&f) {
        return None;
    }
    Some((f, pos + 32))
}

/// Reads one element vector.
fn de_felt_vec(bytes: &Vec<u8>, pos: usize) -> (r: Option<(Vec<Felt>, usize)>)
    requires
        pos <= bytes@.len(),
    ensures
        r is Some ==> pos <= r->Some_0.1 <= bytes@.len() && bytes@.subrange(
            pos as int,
            r->Some_0.1 as int,
        ) == ser_felt_vec(r->Some_0.0@) && wf_vec(r->Some_0.0@),
        forall|v: Seq<Felt>|
            (wf_vec(v) && v.len() < 0x10000000000000000 && pos + ser_felt_vec(v).len()
                <= bytes@.len() && bytes@.subrange(
                pos as int,
                pos + ser_felt_vec(v).len(),
            ) == ser_felt_vec(v)) ==> (r is Some && r->Some_0.0@ == v && r->Some_0.1 == pos
                + ser_felt_vec(v).len()),
{
    proof {
        assert forall|v: Seq<Felt>| ser_felt_vec(v).len() == 8 + 32 * v.len() by {
            lemma_ser_felts_len(v);
        }
    }
    let lu = match de_u64(bytes, pos) {
        Some(x) => x.0,
        None => {
            return None;
        },
    };
    let p1 = pos + 8;
    let blen = bytes.len();
    let ghost pre = bytes@.subrange(pos as int, pos as int + 8);
    if ((blen - p1) as u64) / 32 < lu {
        proof {
            assert forall|v: Seq<Felt>|
                !(wf_vec(v) && v.len() < 0x10000000000000000 && pos + ser_felt_vec(v).len()
                    <= bytes@.len() && bytes@.subrange(pos as int, pos + ser_felt_vec(v).len())
                    == ser_felt_vec(v)) by {
                if wf_vec(v) && v.len() < 0x10000000000000000 && pos + ser_felt_vec(v).len()
                    <= bytes@.len() && bytes@.subrange(pos as int, pos + ser_felt_vec(v).len())
                    == ser_felt_vec(v) {
                    assert(ser_felt_vec(v).subrange(0, 8) =~= u64_le8(v.len() as u64));
                    assert(bytes@.subrange(pos as int, pos as int + 8) =~= bytes@.subrange(
                        pos as int,
                        pos + ser_felt_vec(v).len(),
                    ).subrange(0, 8));
                    assert(u64_le8(v.len() as u64) == pre);
                    lemma_le_int_of_le8(lu);
                    lemma_le_int_of_le8(v.len() as u64);
                    assert(v.len() == lu);
                    assert(32 * (lu as int) <= blen - p1);
                    vstd::arithmetic::div_mod::lemma_div_multiples_vanish(lu as int, 32);
                    vstd::arithmetic::div_mod::lemma_div_is_ordered(
                        32 * (lu as int),
                        blen - p1,
                        32,
                    );
                }
            }
        }
        return None;
    }
    let count = lu as usize;
    proof {
        vstd::arithmetic::div_mod::lemma_div_is_ordered(
            ((blen - p1) as u64 / 32) as int,
            blen as int,
            1,
        );
        assert(lu <= (blen - p1) as u64 / 32);
        assert((blen - p1) as u64 / 32 <= usize::MAX as u64);
    }
    let mut out: Vec<Felt> = Vec::new();
    let mut cur = p1;
    let mut i: usize = 0;
    proof {
        assert(ser_felts(out@) =~= Seq::<u8>::empty());
        assert(bytes@.subrange(p1 as int, p1 as int) =~= ser_felts(out@));
    }
    #[verifier::loop_isolation(false)]
    while i < count
        invariant
            out@.len() == i,
            i <= count,
            cur == p1 + 32 * i,
            cur <= bytes@.len(),
            wf_vec(out@),
            bytes@.subrange(p1 as int, cur as int) == ser_felts(out@),
        decreases count - i,
    {
        let f = match de_felt(bytes, cur) {
            Some(x) => x.0,
            None => {
                proof {
                    assert forall|v: Seq<Felt>|
                        !(wf_vec(v) && v.len() < 0x10000000000000000 && pos + ser_felt_vec(
                            v,
                        ).len() <= bytes@.len() && bytes@.subrange(
                            pos as int,
                            pos + ser_felt_vec(v).len(),
                        ) == ser_felt_vec(v)) by {
                        if wf_vec(v) && v.len() < 0x10000000000000000 && pos + ser_felt_vec(
                            v,
                        ).len() <= bytes@.len() && bytes@.subrange(
                            pos as int,
                            pos + ser_felt_vec(v).len(),
                        ) == ser_felt_vec(v) {
                            let sv = ser_felt_vec(v);
                            assert(sv.subrange(0, 8) =~= u64_le8(v.len() as u64));
                            assert(bytes@.subrange(pos as int, pos as int + 8) =~= bytes@.subrange(
                                pos as int,
                                pos + sv.len(),
                            ).subrange(0, 8));
                            assert(u64_le8(v.len() as u64) == pre);
                            lemma_le_int_of_le8(lu);
                            lemma_le_int_of_le8(v.len() as u64);
                            assert(v.len() == count);
                            lemma_ser_felts_chunk(v, i as int);
                            assert(bytes@.subrange(cur as int, cur as int + 32) =~= sv.subrange(
                                8 + 32 * (i as int),
                                8 + 32 * (i as int) + 32,
                            ));
                            assert(sv.subrange(8 + 32 * (i as int), 8 + 32 * (i as int) + 32)
                                =~= ser_felts(v).subrange(32 * (i as int), 32 * (i as int) + 32));
                            assert(bytes@.subrange(cur as int, cur as int + 32) == felt_le32(
                                v[i as int],
                            ));
                            lemma_felt_le32_roundtrip(v[i as int]);
                            assert(felt_of_le32(bytes@.subrange(cur as int, cur as int + 32)).wf());
                        }
                    }
                }
                return None;
            },
        };
        proof {
            lemma_ser_felts_snoc(out@, f);
            assert(bytes@.subrange(p1 as int, cur as int + 32) =~= bytes@.subrange(
                p1 as int,
                cur as int,
            ) + bytes@.subrange(cur as int, cur as int + 32));
        }
        out.push(f);
        cur = cur + 32;
        i = i + 1;
    }
    proof {
        assert(out@.len() == count && count == lu);
        assert(bytes@.subrange(pos as int, cur as int) =~= pre + bytes@.subrange(
            p1 as int,
            cur as int,
        ));
        assert(u64_le8(out@.len() as u64) == pre) by {
            lemma_le8_of_le_bytes_as_int(pre);
            lemma_le_int_of_le8(lu);
        }
        assert(bytes@.subrange(pos as int, cur as int) == ser_felt_vec(out@));
        assert forall|v: Seq<Felt>|
            (wf_vec(v) && v.len() < 0x10000000000000000 && pos + ser_felt_vec(v).len()
                <= bytes@.len() && bytes@.subrange(pos as int, pos + ser_felt_vec(v).len())
                == ser_felt_vec(v)) implies (out@ == v && cur == pos + ser_felt_vec(v).len()) by {
            let sv = ser_felt_vec(v);
            assert(sv.subrange(0, 8) =~= u64_le8(v.len() as u64));
            assert(bytes@.subrange(pos as int, pos as int + 8) =~= bytes@.subrange(
                pos as int,
                pos + sv.len(),
            ).subrange(0, 8));
            assert(u64_le8(v.len() as u64) == pre);
            lemma_le_int_of_le8(lu);
            lemma_le_int_of_le8(v.len() as u64);
            assert(v.len() == count);
            assert(cur == pos + sv.len());
            assert(ser_felts(v) =~= sv.subrange(8, sv.len() as int));
            assert(bytes@.subrange(p1 as int, cur as int) =~= bytes@.subrange(
                pos as int,
                pos + sv.len(),
            ).subrange(8, sv.len() as int));
            assert(ser_felts(v) == ser_felts(out@));
            lemma_ser_felts_injective(v, out@);
        }
    }
    Some((out, cur))
}


/// Decodes an accumulator witness.  Exactly the encodings of
/// well-formed witnesses are accepted, and decoding an encoding gives
/// the encoded witness back.
pub fn deserialize_accumulator_witness(bytes: &Vec<u8>) -> (r: Option<AccumulatorWitness>)
    ensures
        r is Some ==> ser_accumulator_witness(r->Some_0) == bytes@ && r->Some_0.wf(),
        forall|x: AccumulatorWitness|
            (x.wf() && bytes@ == ser_accumulator_witness(x)) ==> r == Some(x),
{
    let blen = bytes.len();
    let (bw, p1) = match de_felt(bytes, 0) {
        Some(x) => x,
        None => {
            proof {
                assert forall|x: AccumulatorWitness|
                    !(x.wf() && bytes@ == ser_accumulator_witness(x)) by {
                    if x.wf() && bytes@ == ser_accumulator_witness(x) {
                        assert(bytes@.subrange(0, 32) =~= felt_le32(x.blinded_w));
                        lemma_felt_le32_roundtrip(x.blinded_w);
                    }
                }
            }
            return None;
        },
    };
    let (be, p2) = match de_felt(bytes, p1) {
        Some(x) => x,
        None => {
            proof {
                assert forall|x: AccumulatorWitness|
                    !(x.wf() && bytes@ == ser_accumulator_witness(x)) by {
                    if x.wf() && bytes@ == ser_accumulator_witness(x) {
                        assert(bytes@.subrange(32, 64) =~= felt_le32(x.blinded_err));
                        lemma_felt_le32_roundtrip(x.blinded_err);
                    }
                }
            }
            return None;
        },
    };
    if p2 != blen {
        proof {
            assert forall|x: AccumulatorWitness|
                !(x.wf() && bytes@ == ser_accumulator_witness(x)) by {
                if x.wf() && bytes@ == ser_accumulator_witness(x) {
                    assert(bytes@.len() == 64);
                }
            }
        }
        return None;
    }
    let w = AccumulatorWitness { blinded_w: bw, blinded_err: be };
    proof {
        assert(ser_accumulator_witness(w) =~= bytes@);
        assert forall|x: AccumulatorWitness|
            (x.wf() && bytes@ == ser_accumulator_witness(x)) implies w == x by {
            assert(bytes@.subrange(0, 32) =~= felt_le32(x.blinded_w));
            assert(bytes@.subrange(32, 64) =~= felt_le32(x.blinded_err));
            lemma_felt_le32_roundtrip(x.blinded_w);
            lemma_felt_le32_roundtrip(x.blinded_err);
        }
    }
    Some(w)
}

/// The two instances hold the same data.
pub open spec fn instance_eq(a: AccumulatorInstance, b: AccumulatorInstance) -> bool {
    a.w@ == b.w@ && a.err@ == b.err@ && a.c == b.c
}

/// Decodes an accumulator instance.  Exactly the encodings of
/// well-formed instances are accepted, and decoding an encoding gives
/// the encoded data back.
pub fn deserialize_accumulator_instance(bytes: &Vec<u8>) -> (r: Option<AccumulatorInstance>)
    ensures
        r is Some ==> ser_accumulator_instance(r->Some_0) == bytes@ && r->Some_0.wf(),
        forall|x: AccumulatorInstance|
            (x.wf() && bytes@ == ser_accumulator_instance(x)) ==> r is Some && instance_eq(
                r->Some_0,
                x,
            ),
{
    let blen = bytes.len();
    proof {
        assert forall|v: Seq<Felt>| ser_felt_vec(v).len() == 8 + 32 * v.len() by {
            lemma_ser_felts_len(v);
        }
        assert forall|x: AccumulatorInstance|
            (x.wf() && bytes@ == ser_accumulator_instance(x)) implies (x.w@.len()
            < 0x10000000000000000 && x.err@.len() < 0x10000000000000000 && pieces_at(
            bytes@,
            x,
        )) by {
            let sw = ser_felt_vec(x.w@);
            let se = ser_felt_vec(x.err@);
            assert(bytes@.subrange(0, sw.len() as int) =~= sw);
            assert(bytes@.subrange(sw.len() as int, sw.len() + se.len() as int) =~= se);
            assert(bytes@.subrange(sw.len() + se.len() as int, sw.len() + se.len() + 32int) =~= felt_le32(
                x.c,
            ));
        }
    }
    let rw = de_felt_vec(bytes, 0);
    proof {
        assert forall|x: AccumulatorInstance|
            (x.wf() && bytes@ == ser_accumulator_instance(x)) implies (rw is Some
            && rw->Some_0.0@ == x.w@ && rw->Some_0.1 == ser_felt_vec(x.w@).len()) by {
            assert(pieces_at(bytes@, x));
        }
    }
    let (w, p1) = match rw {
        Some(x) => x,
        None => {
            return None;
        },
    };
    let re = de_felt_vec(bytes, p1);
    proof {
        assert forall|x: AccumulatorInstance|
            (x.wf() && bytes@ == ser_accumulator_instance(x)) implies (re is Some
            && re->Some_0.0@ == x.err@ && re->Some_0.1 == ser_felt_vec(x.w@).len()
            + ser_felt_vec(x.err@).len()) by {
            assert(pieces_at(bytes@, x));
            assert(p1 == ser_felt_vec(x.w@).len());
        }
    }
    let (err, p2) = match re {
        Some(x) => x,
        None => {
            return None;
        },
    };
    let rc = de_felt(bytes, p2);
    proof {
        assert forall|x: AccumulatorInstance|
            (x.wf() && bytes@ == ser_accumulator_instance(x)) implies (rc is Some
            && rc->Some_0.0 == x.c && rc->Some_0.1 == bytes@.len()) by {
            assert(pieces_at(bytes@, x));
            assert(p2 == ser_felt_vec(x.w@).len() + ser_felt_vec(x.err@).len());
            assert(felt_of_le32(bytes@.subrange(p2 as int, p2 as int + 32)) == x.c) by {
                lemma_felt_le32_roundtrip(x.c);
            }
        }
    }
    let (c, p3) = match rc {
        Some(x) => x,
        None => {
            return None;
        },
    };
    if p3 != blen {
        return None;
    }
    let a = AccumulatorInstance { w, err, c };
    proof {
        assert(ser_accumulator_instance(a) =~= bytes@);
        assert forall|x: AccumulatorInstance|
            (x.wf() && bytes@ == ser_accumulator_instance(x)) implies instance_eq(a, x) by {
            let sw = ser_felt_vec(x.w@);
            let se = ser_felt_vec(x.err@);
            assert(a.w@ == x.w@ && p1 == sw.len());
            assert(a.err@ == x.err@ && p2 == sw.len() + se.len());
            assert(bytes@.subrange(p2 as int, p2 + 32) == felt_le32(x.c));
            lemma_felt_le32_roundtrip(x.c);
        }
    }
    Some(a)
}

/// The encoding of an instance splits at the right places.
spec fn pieces_at(bytes: Seq<u8>, x: AccumulatorInstance) -> bool {
    let sw = ser_felt_vec(x.w@);
    let se = ser_felt_vec(x.err@);
    &&& bytes.len() == sw.len() + se.len() + 32
    &&& bytes.subrange(0, sw.len() as int) == sw
    &&& bytes.subrange(sw.len() as int, sw.len() + se.len() as int) == se
    &&& bytes.subrange(sw.len() + se.len() as int, sw.len() + se.len() + 32int) == felt_le32(x.c)
}

/// The two proofs hold the same data.
pub open spec fn nark_proof_eq(a: Proof, b: Proof) -> bool {
    a.instance.input@ == b.instance.input@ && a.instance.witness@ == b.instance.witness@
        && a.witness == b.witness
}

/// Decodes a NARK proof.  Exactly the encodings of well-formed proofs
/// are accepted, and decoding an encoding gives the encoded data back.
pub fn deserialize_nark_proof(bytes: &Vec<u8>) -> (r: Option<Proof>)
    ensures
        r is Some ==> ser_nark_proof(r->Some_0) == bytes@ && r->Some_0.instance.wf()
            && r->Some_0.witness.blinded_assignment.wf(),
        forall|x: Proof|
            (x.instance.wf() && x.witness.blinded_assignment.wf() && bytes@ == ser_nark_proof(x))
                ==> r is Some && nark_proof_eq(r->Some_0, x),
{
    let blen = bytes.len();
    proof {
        assert forall|v: Seq<Felt>| ser_felt_vec(v).len() == 8 + 32 * v.len() by {
            lemma_ser_felts_len(v);
        }
        assert forall|x: Proof|
            (x.instance.wf() && x.witness.blinded_assignment.wf() && bytes@ == ser_nark_proof(x))
                implies (x.instance.input@.len() < 0x10000000000000000 && x.instance.witness@.len()
            < 0x10000000000000000 && proof_pieces_at(bytes@, x)) by {
            let si = ser_felt_vec(x.instance.input@);
            let sw = ser_felt_vec(x.instance.witness@);
            assert(bytes@.subrange(0, si.len() as int) =~= si);
            assert(bytes@.subrange(si.len() as int, si.len() + sw.len() as int) =~= sw);
            assert(bytes@.subrange(si.len() + sw.len() as int, si.len() + sw.len() + 32int) =~= felt_le32(
                x.witness.blinded_assignment,
            ));
        }
    }
    let ri = de_felt_vec(bytes, 0);
    proof {
        assert forall|x: Proof|
            (x.instance.wf() && x.witness.blinded_assignment.wf() && bytes@ == ser_nark_proof(x))
                implies (ri is Some && ri->Some_0.0@ == x.instance.input@ && ri->Some_0.1
            == ser_felt_vec(x.instance.input@).len()) by {
            assert(proof_pieces_at(bytes@, x));
        }
    }
    let (input, p1) = match ri {
        Some(x) => x,
        None => {
            return None;
        },
    };
    let rv = de_felt_vec(bytes, p1);
    proof {
        assert forall|x: Proof|
            (x.instance.wf() && x.witness.blinded_assignment.wf() && bytes@ == ser_nark_proof(x))
                implies (rv is Some && rv->Some_0.0@ == x.instance.witness@ && rv->Some_0.1
            == ser_felt_vec(x.instance.input@).len() + ser_felt_vec(x.instance.witness@).len())
            by {
            assert(proof_pieces_at(bytes@, x));
            assert(p1 == ser_felt_vec(x.instance.input@).len());
        }
    }
    let (witness, p2) = match rv {
        Some(x) => x,
        None => {
            return None;
        },
    };
    let rc = de_felt(bytes, p2);
    proof {
        assert forall|x: Proof|
            (x.instance.wf() && x.witness.blinded_assignment.wf() && bytes@ == ser_nark_proof(x))
                implies (rc is Some && rc->Some_0.0 == x.witness.blinded_assignment && rc->Some_0.1
            == bytes@.len()) by {
            assert(proof_pieces_at(bytes@, x));
            assert(p2 == ser_felt_vec(x.instance.input@).len() + ser_felt_vec(
                x.instance.witness@,
            ).len());
            assert(felt_of_le32(bytes@.subrange(p2 as int, p2 as int + 32))
                == x.witness.blinded_assignment) by {
                lemma_felt_le32_roundtrip(x.witness.blinded_assignment);
            }
        }
    }
    let (commitment, p3) = match rc {
        Some(x) => x,
        None => {
            return None;
        },
    };
    if p3 != blen {
        return None;
    }
    let pr = Proof {
        instance: FullAssignment { input, witness },
        witness: CommitmentFullAssignment { blinded_assignment: commitment },
    };
    proof {
        assert(ser_nark_proof(pr) =~= bytes@);
        assert forall|x: Proof|
            (x.instance.wf() && x.witness.blinded_assignment.wf() && bytes@ == ser_nark_proof(x))
                implies nark_proof_eq(pr, x) by {
            let si = ser_felt_vec(x.instance.input@);
            let sw = ser_felt_vec(x.instance.witness@);
            assert(pr.instance.input@ == x.instance.input@ && p1 == si.len());
            assert(pr.instance.witness@ == x.instance.witness@ && p2 == si.len() + sw.len());
            assert(bytes@.subrange(p2 as int, p2 + 32) == felt_le32(x.witness.blinded_assignment));
            lemma_felt_le32_roundtrip(x.witness.blinded_assignment);
        }
    }
    Some(pr)
}

/// The encoding of a NARK proof splits at the right places.
spec fn proof_pieces_at(bytes: Seq<u8>, x: Proof) -> bool {
    let si = ser_felt_vec(x.instance.input@);
    let sw = ser_felt_vec(x.instance.witness@);
    &&& bytes.len() == si.len() + sw.len() + 32
    &&& bytes.subrange(0, si.len() as int) == si
    &&& bytes.subrange(si.len() as int, si.len() + sw.len() as int) == sw
    &&& bytes.subrange(si.len() + sw.len() as int, si.len() + sw.len() + 32int) == felt_le32(
        x.witness.blinded_assignment,
    )
}


/// The encoding of one opening: the leaf index, the leaf value, and
/// the authentication path.
pub open spec fn ser_opening(o: MerkleOpening) -> Seq<u8> {
    u64_le8(o.index as u64) + felt_le32(o.leaf) + ser_felt_vec(o.siblings@)
}

/// Encodes one opening.
pub fn serialize_merkle_opening(o: &MerkleOpening) -> (r: Vec<u8>)
    ensures
        r@ == ser_opening(*o),
{
    let mut out: Vec<u8> = Vec::new();
    crate::fiat_shamir::push_le8(&mut out, o.index as u64);
    push_felt(&mut out, &o.leaf);
    push_felt_vec(&mut out, &o.siblings);
    assert(out@ =~= ser_opening(*o));
    out
}

/// Decodes one opening.  Exactly the encodings of well-formed
/// openings are accepted, and decoding an encoding gives the encoded
/// data back.
pub fn deserialize_merkle_opening(bytes: &Vec<u8>) -> (r: Option<MerkleOpening>)
    ensures
        r is Some ==> ser_opening(r->Some_0) == bytes@ && r->Some_0.wf(),
        forall|x: MerkleOpening|
            (x.wf() && x.index <= usize::MAX && bytes@ == ser_opening(x)) ==> r is Some
                && r->Some_0.index == x.index && r->Some_0.leaf == x.leaf
                && r->Some_0.siblings@ == x.siblings@,
{
    let blen = bytes.len();
    proof {
        assert forall|v: Seq<Felt>| ser_felt_vec(v).len() == 8 + 32 * v.len() by {
            lemma_ser_felts_len(v);
        }
        assert forall|x: MerkleOpening|
            (x.wf() && bytes@ == ser_opening(x)) implies (opening_pieces_at(bytes@, x)
            && x.siblings@.len() < 0x10000000000000000) by {
            let sv = ser_felt_vec(x.siblings@);
            assert(bytes@.subrange(0, 8) =~= u64_le8(x.index as u64));
            assert(bytes@.subrange(8, 40) =~= felt_le32(x.leaf));
            assert(bytes@.subrange(40, 40 + sv.len() as int) =~= sv);
        }
    }
    let ru = de_u64(bytes, 0);
    let iu = match ru {
        Some(x) => x.0,
        None => {
            return None;
        },
    };
    if iu > usize::MAX as u64 {
        proof {
            assert forall|x: MerkleOpening|
                !(x.wf() && x.index <= usize::MAX && bytes@ == ser_opening(x)) by {
                if x.wf() && x.index <= usize::MAX && bytes@ == ser_opening(x) {
                    lemma_le_int_of_le8(iu);
                    lemma_le_int_of_le8(x.index as u64);
                }
            }
        }
        return None;
    }
    let rf = de_felt(bytes, 8);
    proof {
        assert forall|x: MerkleOpening|
            (x.wf() && x.index <= usize::MAX && bytes@ == ser_opening(x)) implies (rf is Some
            && rf->Some_0.0 == x.leaf && iu == x.index) by {
            assert(opening_pieces_at(bytes@, x));
            lemma_felt_le32_roundtrip(x.leaf);
            lemma_le_int_of_le8(iu);
            lemma_le_int_of_le8(x.index as u64);
        }
    }
    let leaf = match rf {
        Some(x) => x.0,
        None => {
            return None;
        },
    };
    let rv = de_felt_vec(bytes, 40);
    proof {
        assert forall|x: MerkleOpening|
            (x.wf() && x.index <= usize::MAX && bytes@ == ser_opening(x)) implies (rv is Some
            && rv->Some_0.0@ == x.siblings@ && rv->Some_0.1 == bytes@.len()) by {
            assert(opening_pieces_at(bytes@, x));
        }
    }
    let (siblings, p3) = match rv {
        Some(x) => x,
        None => {
            return None;
        },
    };
    if p3 != blen {
        return None;
    }
    let o = MerkleOpening { index: iu as usize, leaf, siblings };
    proof {
        assert(ser_opening(o) =~= bytes@);
    }
    Some(o)
}

/// The encoding of an opening splits at the right places.
spec fn opening_pieces_at(bytes: Seq<u8>, x: MerkleOpening) -> bool {
    let sv = ser_felt_vec(x.siblings@);
    &&& bytes.len() == 40 + sv.len()
    &&& bytes.subrange(0, 8) == u64_le8(x.index as u64)
    &&& bytes.subrange(8, 40) == felt_le32(x.leaf)
    &&& bytes.subrange(40, 40 + sv.len() as int) == sv
}


/// The encoding of one matrix entry: its coefficient, then its
/// column.
pub open spec fn ser_entry(e: (Felt, usize)) -> Seq<u8> {
    felt_le32(e.0) + u64_le8(e.1 as u64)
}

/// The encoding of a row's entries, first to last.
pub open spec fn ser_entries(row: Seq<(Felt, usize)>) -> Seq<u8>
    decreases row.len(),
{
    if row.len() == 0 {
        Seq::empty()
    } else {
        ser_entry(row[0]) + ser_entries(row.drop_first())
    }
}

/// The encoding of one sparse row: its entry count, then its entries.
pub open spec fn ser_sparse_row(row: Seq<(Felt, usize)>) -> Seq<u8> {
    u64_le8(row.len() as u64) + ser_entries(row)
}

/// The encoding of a matrix's rows, first to last.
pub open spec fn ser_rows(rs: Seq<Seq<(Felt, usize)>>) -> Seq<u8>
    decreases rs.len(),
{
    if rs.len() == 0 {
        Seq::empty()
    } else {
        ser_sparse_row(rs[0]) + ser_rows(rs.drop_first())
    }
}

/// The encoding of a sparse matrix: its row count, then its rows.
pub open spec fn ser_matrix(rs: Seq<Seq<(Felt, usize)>>) -> Seq<u8> {
    u64_le8(rs.len() as u64) + ser_rows(rs)
}

/// The encoding of a key: the two counts, then the three matrices.
pub open spec fn ser_key(k: IndexProverKey) -> Seq<u8> {
    u64_le8(k.index_info.num_constraints as u64) + u64_le8(k.index_info.num_variables as u64)
        + ser_matrix(rows_of(k.a)) + ser_matrix(rows_of(k.b)) + ser_matrix(rows_of(k.c))
}

/// Every coefficient of a row is canonical.
pub open spec fn row_coeffs_wf(row: Seq<(Felt, usize)>) -> bool {
    forall|j: int| 0 <= j < row.len() ==> (#[trigger] row[j]).0.wf()
}

/// Every coefficient of a matrix is canonical, and every count fits a
/// 64-bit word.
pub open spec fn rows_ok(rs: Seq<Seq<(Felt, usize)>>) -> bool {
    &&& rs.len() < 0x10000000000000000
    &&& forall|i: int|
        0 <= i < rs.len() ==> row_coeffs_wf(#[trigger] rs[i]) && rs[i].len()
            < 0x10000000000000000
}

/// Appending one entry extends the encoding by its block.
proof fn lemma_ser_entries_snoc(row: Seq<(Felt, usize)>, e: (Felt, usize))
    ensures
        ser_entries(row.push(e)) == ser_entries(row) + ser_entry(e),
    decreases row.len(),
{
    reveal_with_fuel(ser_entries, 3);
    if row.len() == 0 {
        assert(row.push(e).drop_first() =~= Seq::<(Felt, usize)>::empty());
        assert(row.push(e)[0] == e);
        assert(ser_entries(row.push(e)) =~= ser_entry(e));
        assert(ser_entries(row) + ser_entry(e) =~= ser_entry(e));
    } else {
        assert(row.push(e).drop_first() =~= row.drop_first().push(e));
        assert(row.push(e)[0] == row[0]);
        lemma_ser_entries_snoc(row.drop_first(), e);
        assert(ser_entry(row[0]) + (ser_entries(row.drop_first()) + ser_entry(e)) =~= (ser_entry(
            row[0],
        ) + ser_entries(row.drop_first())) + ser_entry(e));
    }
}

/// The encoding of a row's entries is 40 bytes per entry.
proof fn lemma_ser_entries_len(row: Seq<(Felt, usize)>)
    ensures
        ser_entries(row).len() == 40 * row.len(),
    decreases row.len(),
{
    if row.len() > 0 {
        lemma_ser_entries_len(row.drop_first());
    }
}

/// The block of entry `i` inside the encoding of a row.
proof fn lemma_ser_entries_chunk(row: Seq<(Felt, usize)>, i: int)
    requires
        0 <= i < row.len(),
    ensures
        ser_entries(row).len() == 40 * row.len(),
        ser_entries(row).subrange(40 * i, 40 * i + 40) == ser_entry(row[i]),
    decreases i,
{
    lemma_ser_entries_len(row);
    lemma_ser_entries_len(row.drop_first());
    if i == 0 {
        assert(ser_entries(row).subrange(0, 40) =~= ser_entry(row[0]));
    } else {
        lemma_ser_entries_chunk(row.drop_first(), i - 1);
        assert(ser_entries(row).subrange(40 * i, 40 * i + 40) =~= ser_entries(
            row.drop_first(),
        ).subrange(40 * (i - 1), 40 * (i - 1) + 40));
        assert(row.drop_first()[i - 1] == row[i]);
    }
}

/// Rows with one encoding are one row.
proof fn lemma_ser_entries_injective(v: Seq<(Felt, usize)>, w: Seq<(Felt, usize)>)
    requires
        v.len() == w.len(),
        ser_entries(v) == ser_entries(w),
    ensures
        v == w,
{
    assert forall|i: int| 0 <= i < v.len() implies v[i] == w[i] by {
        lemma_ser_entries_chunk(v, i);
        lemma_ser_entries_chunk(w, i);
        assert(ser_entry(v[i]) == ser_entry(w[i]));
        assert(ser_entry(v[i]).subrange(0, 32) =~= felt_le32(v[i].0));
        assert(ser_entry(w[i]).subrange(0, 32) =~= felt_le32(w[i].0));
        assert(ser_entry(v[i]).subrange(32, 40) =~= u64_le8(v[i].1 as u64));
        assert(ser_entry(w[i]).subrange(32, 40) =~= u64_le8(w[i].1 as u64));
        lemma_felt_le32_roundtrip(v[i].0);
        lemma_felt_le32_roundtrip(w[i].0);
        lemma_le_int_of_le8(v[i].1 as u64);
        lemma_le_int_of_le8(w[i].1 as u64);
    }
    assert(v =~= w);
}

/// A row whose canonical encoding sits at `pos` in `bytes`.
pub open spec fn row_matches(bytes: Seq<u8>, pos: int, v: Seq<(Felt, usize)>) -> bool {
    &&& row_coeffs_wf(v)
    &&& v.len() < 0x10000000000000000
    &&& pos + ser_sparse_row(v).len() <= bytes.len()
    &&& bytes.subrange(pos, pos + ser_sparse_row(v).len()) == ser_sparse_row(v)
}

/// Reads one sparse row.
fn de_row(bytes: &Vec<u8>, pos: usize) -> (r: Option<(SparseRow, usize)>)
    requires
        pos <= bytes@.len(),
    ensures
        r is Some ==> pos <= r->Some_0.1 <= bytes@.len() && bytes@.subrange(
            pos as int,
            r->Some_0.1 as int,
        ) == ser_sparse_row(r->Some_0.0@) && row_coeffs_wf(r->Some_0.0@),
        forall|v: Seq<(Felt, usize)>|
            #[trigger] row_matches(bytes@, pos as int, v) ==> (r is Some && r->Some_0.0@ == v
                && r->Some_0.1 == pos + ser_sparse_row(v).len()),
{
    proof {
        assert forall|v: Seq<(Felt, usize)>| ser_sparse_row(v).len() == 8 + 40 * v.len() by {
            lemma_ser_entries_len(v);
        }
    }
    let ru0 = de_u64(bytes, pos);
    proof {
        assert forall|v: Seq<(Felt, usize)>|
            #[trigger] row_matches(bytes@, pos as int, v) implies ru0 is Some by {}
    }
    let lu = match ru0 {
        Some(x) => x.0,
        None => {
            return None;
        },
    };
    let p1 = pos + 8;
    let blen = bytes.len();
    let ghost pre = bytes@.subrange(pos as int, pos as int + 8);
    if ((blen - p1) as u64) / 40 < lu {
        proof {
            assert forall|v: Seq<(Felt, usize)>| !#[trigger] row_matches(bytes@, pos as int, v) by {
                if row_matches(bytes@, pos as int, v) {
                    assert(ser_sparse_row(v).subrange(0, 8) =~= u64_le8(v.len() as u64));
                    assert(bytes@.subrange(pos as int, pos as int + 8) =~= bytes@.subrange(
                        pos as int,
                        pos + ser_sparse_row(v).len(),
                    ).subrange(0, 8));
                    lemma_le_int_of_le8(lu);
                    lemma_le_int_of_le8(v.len() as u64);
                    assert(v.len() == lu);
                    assert(40 * (lu as int) <= blen - p1);
                    vstd::arithmetic::div_mod::lemma_div_multiples_vanish(lu as int, 40);
                    vstd::arithmetic::div_mod::lemma_div_is_ordered(
                        40 * (lu as int),
                        blen - p1,
                        40,
                    );
                }
            }
        }
        return None;
    }
    let count = lu as usize;
    proof {
        assert(lu <= (blen - p1) as u64 / 40);
        assert((blen - p1) as u64 / 40 <= usize::MAX as u64);
    }
    let mut out: SparseRow = Vec::new();
    let mut cur = p1;
    let mut i: usize = 0;
    proof {
        assert(ser_entries(out@) =~= Seq::<u8>::empty());
        assert(bytes@.subrange(p1 as int, p1 as int) =~= ser_entries(out@));
    }
    #[verifier::loop_isolation(false)]
    while i < count
        invariant
            out@.len() == i,
            i <= count,
            cur == p1 + 40 * i,
            cur <= bytes@.len(),
            row_coeffs_wf(out@),
            bytes@.subrange(p1 as int, cur as int) == ser_entries(out@),
        decreases count - i,
    {
        proof {
            assert forall|v: Seq<(Felt, usize)>|
                #[trigger] row_matches(bytes@, pos as int, v) implies (i < v.len() && cur + 40
                <= bytes@.len() && bytes@.subrange(cur as int, cur as int + 32) == felt_le32(
                v[i as int].0,
            ) && bytes@.subrange(cur as int + 32, cur as int + 40) == u64_le8(
                v[i as int].1 as u64,
            )) by {
                let sv = ser_sparse_row(v);
                assert(sv.subrange(0, 8) =~= u64_le8(v.len() as u64));
                assert(bytes@.subrange(pos as int, pos as int + 8) =~= bytes@.subrange(
                    pos as int,
                    pos + sv.len(),
                ).subrange(0, 8));
                lemma_le_int_of_le8(lu);
                lemma_le_int_of_le8(v.len() as u64);
                assert(v.len() == lu);
                lemma_ser_entries_chunk(v, i as int);
                assert(bytes@.subrange(cur as int, cur as int + 40) =~= sv.subrange(
                    8 + 40 * (i as int),
                    8 + 40 * (i as int) + 40,
                ));
                assert(sv.subrange(8 + 40 * (i as int), 8 + 40 * (i as int) + 40) =~= ser_entries(
                    v,
                ).subrange(40 * (i as int), 40 * (i as int) + 40));
                assert(bytes@.subrange(cur as int, cur as int + 40) == ser_entry(v[i as int]));
                assert(bytes@.subrange(cur as int, cur as int + 32) =~= ser_entry(
                    v[i as int],
                ).subrange(0, 32));
                assert(bytes@.subrange(cur as int + 32, cur as int + 40) =~= ser_entry(
                    v[i as int],
                ).subrange(32, 40));
                assert(ser_entry(v[i as int]).subrange(0, 32) =~= felt_le32(v[i as int].0));
                assert(ser_entry(v[i as int]).subrange(32, 40) =~= u64_le8(v[i as int].1 as u64));
            }
        }
        let coeff = match de_felt(bytes, cur) {
            Some(x) => x.0,
            None => {
                proof {
                    assert forall|v: Seq<(Felt, usize)>|
                        !#[trigger] row_matches(bytes@, pos as int, v) by {
                        if row_matches(bytes@, pos as int, v) {
                            assert(row_coeffs_wf(v));
                            assert(i < v.len());
                            assert(v[i as int].0.wf());
                            assert(bytes@.subrange(cur as int, cur as int + 32) == felt_le32(
                                v[i as int].0,
                            ));
                            lemma_felt_le32_roundtrip(v[i as int].0);
                            assert(felt_of_le32(
                                bytes@.subrange(cur as int, cur as int + 32),
                            ).wf());
                        }
                    }
                }
                return None;
            },
        };
        let cu = match de_u64(bytes, cur + 32) {
            Some(x) => x.0,
            None => {
                proof {
                    assert forall|v: Seq<(Felt, usize)>|
                        !#[trigger] row_matches(bytes@, pos as int, v) by {}
                }
                return None;
            },
        };
        if cu > usize::MAX as u64 {
            proof {
                assert forall|v: Seq<(Felt, usize)>|
                    !#[trigger] row_matches(bytes@, pos as int, v) by {
                    if row_matches(bytes@, pos as int, v) {
                        lemma_le_int_of_le8(cu);
                        lemma_le_int_of_le8(v[i as int].1 as u64);
                    }
                }
            }
            return None;
        }
        let e = (coeff, cu as usize);
        proof {
            lemma_ser_entries_snoc(out@, e);
            assert(bytes@.subrange(p1 as int, cur as int + 40) =~= bytes@.subrange(
                p1 as int,
                cur as int,
            ) + bytes@.subrange(cur as int, cur as int + 40));
            assert(bytes@.subrange(cur as int, cur as int + 40) =~= bytes@.subrange(
                cur as int,
                cur as int + 32,
            ) + bytes@.subrange(cur as int + 32, cur as int + 40));
            assert(ser_entry(e) =~= felt_le32(coeff) + u64_le8(cu));
        }
        out.push(e);
        cur = cur + 40;
        i = i + 1;
    }
    proof {
        assert(bytes@.subrange(pos as int, cur as int) =~= pre + bytes@.subrange(
            p1 as int,
            cur as int,
        ));
        assert(u64_le8(out@.len() as u64) == pre) by {
            lemma_le8_of_le_bytes_as_int(pre);
            lemma_le_int_of_le8(lu);
        }
        assert(bytes@.subrange(pos as int, cur as int) == ser_sparse_row(out@));
        assert forall|v: Seq<(Felt, usize)>|
            #[trigger] row_matches(bytes@, pos as int, v) implies (out@ == v && cur == pos
            + ser_sparse_row(v).len()) by {
            let sv = ser_sparse_row(v);
            assert(sv.subrange(0, 8) =~= u64_le8(v.len() as u64));
            assert(bytes@.subrange(pos as int, pos as int + 8) =~= bytes@.subrange(
                pos as int,
                pos + sv.len(),
            ).subrange(0, 8));
            lemma_le_int_of_le8(lu);
            lemma_le_int_of_le8(v.len() as u64);
            assert(v.len() == lu);
            assert(cur == pos + sv.len());
            assert(ser_entries(v) =~= sv.subrange(8, sv.len() as int));
            assert(bytes@.subrange(p1 as int, cur as int) =~= bytes@.subrange(
                pos as int,
                pos + sv.len(),
            ).subrange(8, sv.len() as int));
            lemma_ser_entries_injective(v, out@);
        }
    }
    Some((out, cur))
}


/// Appending one row extends the encoding by that row's encoding.
proof fn lemma_ser_rows_snoc(rs: Seq<Seq<(Felt, usize)>>, row: Seq<(Felt, usize)>)
    ensures
        ser_rows(rs.push(row)) == ser_rows(rs) + ser_sparse_row(row),
    decreases rs.len(),
{
    reveal_with_fuel(ser_rows, 3);
    if rs.len() == 0 {
        assert(rs.push(row).drop_first() =~= Seq::<Seq<(Felt, usize)>>::empty());
        assert(rs.push(row)[0] == row);
        assert(ser_rows(rs.push(row)) =~= ser_sparse_row(row));
        assert(ser_rows(rs) + ser_sparse_row(row) =~= ser_sparse_row(row));
    } else {
        assert(rs.push(row).drop_first() =~= rs.drop_first().push(row));
        assert(rs.push(row)[0] == rs[0]);
        lemma_ser_rows_snoc(rs.drop_first(), row);
        assert(ser_sparse_row(rs[0]) + (ser_rows(rs.drop_first()) + ser_sparse_row(row)) =~= (
        ser_sparse_row(rs[0]) + ser_rows(rs.drop_first())) + ser_sparse_row(row));
    }
}

/// The encoding of the rows splits after the first `i` of them.
proof fn lemma_ser_rows_split(rs: Seq<Seq<(Felt, usize)>>, i: int)
    requires
        0 <= i <= rs.len(),
    ensures
        ser_rows(rs) == ser_rows(rs.subrange(0, i)) + ser_rows(rs.subrange(i, rs.len() as int)),
    decreases i,
{
    if i == 0 {
        assert(rs.subrange(0, 0) =~= Seq::<Seq<(Felt, usize)>>::empty());
        assert(rs.subrange(0, rs.len() as int) =~= rs);
        assert(ser_rows(rs.subrange(0, 0)) + ser_rows(rs) =~= ser_rows(rs));
    } else {
        assert(rs.subrange(0, i).drop_first() =~= rs.drop_first().subrange(0, i - 1));
        assert(rs.subrange(i, rs.len() as int) =~= rs.drop_first().subrange(
            i - 1,
            rs.drop_first().len() as int,
        ));
        lemma_ser_rows_split(rs.drop_first(), i - 1);
        assert(rs.subrange(0, i)[0] == rs[0]);
        assert(ser_rows(rs.subrange(0, i)) == ser_sparse_row(rs[0]) + ser_rows(
            rs.drop_first().subrange(0, i - 1),
        ));
        assert((ser_sparse_row(rs[0]) + ser_rows(rs.drop_first().subrange(0, i - 1))) + ser_rows(
            rs.drop_first().subrange(i - 1, rs.drop_first().len() as int),
        ) =~= ser_sparse_row(rs[0]) + (ser_rows(rs.drop_first().subrange(0, i - 1)) + ser_rows(
            rs.drop_first().subrange(i - 1, rs.drop_first().len() as int),
        )));
    }
}

/// Appends the encoding of one sparse row.
fn push_row(out: &mut Vec<u8>, row: &SparseRow)
    ensures
        final(out)@ == old(out)@ + ser_sparse_row(row@),
{
    let ghost base = out@;
    crate::fiat_shamir::push_le8(out, row.len() as u64);
    let n = row.len();
    let mut i: usize = 0;
    proof {
        assert(ser_entries(row@.subrange(0, 0)) =~= Seq::<u8>::empty());
        assert(out@ =~= base + u64_le8(n as u64) + ser_entries(row@.subrange(0, 0)));
    }
    while i < n
        invariant
            n == row@.len(),
            i <= n,
            out@ == base + u64_le8(n as u64) + ser_entries(row@.subrange(0, i as int)),
        decreases n - i,
    {
        let (coeff, col) = row[i];
        push_felt(out, &coeff);
        crate::fiat_shamir::push_le8(out, col as u64);
        proof {
            assert(row@.subrange(0, i as int).push(row@[i as int]) =~= row@.subrange(0, i + 1));
            lemma_ser_entries_snoc(row@.subrange(0, i as int), row@[i as int]);
            assert(ser_entry(row@[i as int]) =~= felt_le32(coeff) + u64_le8(col as u64));
            assert(out@ =~= base + u64_le8(n as u64) + ser_entries(row@.subrange(0, i + 1)));
        }
        i = i + 1;
    }
    assert(row@.subrange(0, n as int) =~= row@);
    assert(out@ =~= base + ser_sparse_row(row@));
}

/// Appends the encoding of one sparse matrix.
fn push_matrix(out: &mut Vec<u8>, m: &SparseMatrix)
    ensures
        final(out)@ == old(out)@ + ser_matrix(rows_of(*m)),
{
    let ghost base = out@;
    crate::fiat_shamir::push_le8(out, m.len() as u64);
    let n = m.len();
    let mut i: usize = 0;
    proof {
        assert(rows_of(*m).subrange(0, 0) =~= Seq::<Seq<(Felt, usize)>>::empty());
        assert(ser_rows(rows_of(*m).subrange(0, 0)) =~= Seq::<u8>::empty());
        assert(out@ =~= base + u64_le8(n as u64) + ser_rows(rows_of(*m).subrange(0, 0)));
    }
    while i < n
        invariant
            n == m@.len(),
            i <= n,
            out@ == base + u64_le8(n as u64) + ser_rows(rows_of(*m).subrange(0, i as int)),
        decreases n - i,
    {
        push_row(out, &m[i]);
        proof {
            assert(rows_of(*m).subrange(0, i as int).push(rows_of(*m)[i as int]) =~= rows_of(
                *m,
            ).subrange(0, i + 1));
            lemma_ser_rows_snoc(rows_of(*m).subrange(0, i as int), rows_of(*m)[i as int]);
            assert(rows_of(*m)[i as int] == m@[i as int]@);
            assert(out@ =~= base + u64_le8(n as u64) + ser_rows(rows_of(*m).subrange(0, i + 1)));
        }
        i = i + 1;
    }
    assert(rows_of(*m).subrange(0, n as int) =~= rows_of(*m));
    assert(out@ =~= base + ser_matrix(rows_of(*m)));
}

/// Encodes a prover or verifier key.
pub fn serialize_index_prover_key(k: &IndexProverKey) -> (r: Vec<u8>)
    ensures
        r@ == ser_key(*k),
{
    let mut out: Vec<u8> = Vec::new();
    crate::fiat_shamir::push_le8(&mut out, k.index_info.num_constraints as u64);
    crate::fiat_shamir::push_le8(&mut out, k.index_info.num_variables as u64);
    push_matrix(&mut out, &k.a);
    push_matrix(&mut out, &k.b);
    push_matrix(&mut out, &k.c);
    assert(out@ =~= ser_key(*k));
    out
}

/// A matrix whose canonical encoding sits at `pos` in `bytes`.
pub open spec fn matrix_matches(bytes: Seq<u8>, pos: int, rs: Seq<Seq<(Felt, usize)>>) -> bool {
    &&& rows_ok(rs)
    &&& pos + ser_matrix(rs).len() <= bytes.len()
    &&& bytes.subrange(pos, pos + ser_matrix(rs).len()) == ser_matrix(rs)
}

/// Reads one sparse matrix.
#[verifier::rlimit(100)]
fn de_matrix(bytes: &Vec<u8>, pos: usize) -> (r: Option<(SparseMatrix, usize)>)
    requires
        pos <= bytes@.len(),
    ensures
        r is Some ==> pos <= r->Some_0.1 <= bytes@.len() && bytes@.subrange(
            pos as int,
            r->Some_0.1 as int,
        ) == ser_matrix(rows_of(r->Some_0.0)) && rows_ok(rows_of(r->Some_0.0)),
        forall|rs: Seq<Seq<(Felt, usize)>>|
            #[trigger] matrix_matches(bytes@, pos as int, rs) ==> (r is Some && rows_of(
                r->Some_0.0,
            ) == rs && r->Some_0.1 == pos + ser_matrix(rs).len()),
{
    let ru0 = de_u64(bytes, pos);
    proof {
        assert forall|rs: Seq<Seq<(Felt, usize)>>|
            #[trigger] matrix_matches(bytes@, pos as int, rs) implies ru0 is Some by {}
    }
    let lu = match ru0 {
        Some(x) => x.0,
        None => {
            return None;
        },
    };
    let p1 = pos + 8;
    let blen = bytes.len();
    let ghost pre = bytes@.subrange(pos as int, pos as int + 8);
    proof {
        assert forall|rs: Seq<Seq<(Felt, usize)>>|
            #[trigger] matrix_matches(bytes@, pos as int, rs) implies rs.len() == lu by {
            assert(ser_matrix(rs).subrange(0, 8) =~= u64_le8(rs.len() as u64));
            assert(bytes@.subrange(pos as int, pos as int + 8) =~= bytes@.subrange(
                pos as int,
                pos + ser_matrix(rs).len(),
            ).subrange(0, 8));
            lemma_le_int_of_le8(lu);
            lemma_le_int_of_le8(rs.len() as u64);
        }
    }
    if lu > usize::MAX as u64 {
        proof {
            assert forall|rs: Seq<Seq<(Felt, usize)>>|
                !#[trigger] matrix_matches(bytes@, pos as int, rs) by {
                if matrix_matches(bytes@, pos as int, rs) {
                    assert(rs.len() == lu);
                    assert(ser_matrix(rs).len() >= rs.len()) by {
                        lemma_ser_rows_ge_len(rs);
                    }
                }
            }
        }
        return None;
    }
    let count = lu as usize;
    let mut out: SparseMatrix = Vec::new();
    let mut cur = p1;
    let mut i: usize = 0;
    proof {
        assert(rows_of(out) =~= Seq::<Seq<(Felt, usize)>>::empty());
        assert(ser_rows(rows_of(out)) =~= Seq::<u8>::empty());
        assert(bytes@.subrange(p1 as int, p1 as int) =~= ser_rows(rows_of(out)));
    }
    #[verifier::loop_isolation(false)]
    while i < count
        invariant
            out@.len() == i,
            i <= count,
            p1 <= cur <= bytes@.len(),
            rows_ok(rows_of(out)),
            bytes@.subrange(p1 as int, cur as int) == ser_rows(rows_of(out)),
            forall|rs: Seq<Seq<(Felt, usize)>>|
                #[trigger] matrix_matches(bytes@, pos as int, rs) ==> rows_of(out) == rs.subrange(
                    0,
                    i as int,
                ),
        decreases count - i,
    {
        proof {
            assert forall|rs: Seq<Seq<(Felt, usize)>>|
                #[trigger] matrix_matches(bytes@, pos as int, rs) implies row_matches(
                bytes@,
                cur as int,
                rs[i as int],
            ) by {
                assert(rs.len() == lu);
                assert(rows_of(out) == rs.subrange(0, i as int));
                lemma_ser_rows_split(rs, i as int);
                assert(ser_rows(rs.subrange(0, i as int)) == bytes@.subrange(
                    p1 as int,
                    cur as int,
                ));
                let tail = rs.subrange(i as int, rs.len() as int);
                assert(tail[0] == rs[i as int]);
                assert(tail.drop_first() =~= rs.subrange(i + 1, rs.len() as int));
                assert(ser_rows(tail) == ser_sparse_row(rs[i as int]) + ser_rows(
                    rs.subrange(i + 1, rs.len() as int),
                ));
                let sm = ser_matrix(rs);
                assert(bytes@.subrange(pos as int, pos + sm.len()) == sm);
                assert(sm =~= pre + ser_rows(rs.subrange(0, i as int)) + ser_rows(tail));
                let off = 8 + ser_rows(rs.subrange(0, i as int)).len();
                assert(cur == pos + off);
                assert(bytes@.subrange(cur as int, pos + sm.len()) =~= sm.subrange(
                    off as int,
                    sm.len() as int,
                ));
                assert(sm.subrange(off as int, sm.len() as int) =~= ser_rows(tail));
                let rl = ser_sparse_row(rs[i as int]).len();
                assert(bytes@.subrange(cur as int, cur + rl) =~= ser_rows(tail).subrange(
                    0,
                    rl as int,
                ));
                assert(ser_rows(tail).subrange(0, rl as int) =~= ser_sparse_row(rs[i as int]));
                assert(rows_ok(rs));
                assert(row_coeffs_wf(rs[i as int]) && rs[i as int].len() < 0x10000000000000000);
            }
        }
        let rr = de_row(bytes, cur);
        proof {
            assert forall|rs: Seq<Seq<(Felt, usize)>>|
                #[trigger] matrix_matches(bytes@, pos as int, rs) implies (rr is Some
                && rr->Some_0.0@ == rs[i as int] && rr->Some_0.1 == cur + ser_sparse_row(
                rs[i as int],
            ).len()) by {
                assert(row_matches(bytes@, cur as int, rs[i as int]));
            }
        }
        let (row, nxt) = match rr {
            Some(x) => x,
            None => {
                return None;
            },
        };
        let rlen = row.len();
        proof {
            assert(row@.len() == rlen);
        }
        let ghost prev = rows_of(out);
        out.push(row);
        cur = nxt;
        i = i + 1;
        proof {
            assert(rows_of(out) =~= prev.push(row@));
            assert(rows_ok(rows_of(out))) by {
                assert forall|k: int|
                    0 <= k < rows_of(out).len() implies row_coeffs_wf(#[trigger] rows_of(out)[k])
                    && rows_of(out)[k].len() < 0x10000000000000000 by {
                    if k < prev.len() {
                        assert(rows_of(out)[k] == prev[k]);
                        assert(row_coeffs_wf(prev[k]) && prev[k].len() < 0x10000000000000000);
                    } else {
                        assert(rows_of(out)[k] == row@);
                        assert(row@.len() == rlen && rlen <= usize::MAX);
                    }
                }
            }
            lemma_ser_rows_snoc(prev, row@);
            assert(bytes@.subrange(p1 as int, cur as int) =~= bytes@.subrange(
                p1 as int,
                (cur - ser_sparse_row(row@).len()) as int,
            ) + bytes@.subrange((cur - ser_sparse_row(row@).len()) as int, cur as int));
            assert forall|rs: Seq<Seq<(Felt, usize)>>|
                #[trigger] matrix_matches(bytes@, pos as int, rs) implies rows_of(out)
                == rs.subrange(0, i as int) by {
                assert(prev == rs.subrange(0, i - 1));
                assert(row@ == rs[i - 1]);
                assert(rs.subrange(0, i - 1).push(rs[i - 1]) =~= rs.subrange(0, i as int));
            }
        }
    }
    proof {
        assert(bytes@.subrange(pos as int, cur as int) =~= pre + bytes@.subrange(
            p1 as int,
            cur as int,
        ));
        assert(u64_le8(out@.len() as u64) == pre) by {
            lemma_le8_of_le_bytes_as_int(pre);
            lemma_le_int_of_le8(lu);
        }
        assert(rows_of(out).len() == out@.len());
        assert(bytes@.subrange(pos as int, cur as int) == ser_matrix(rows_of(out)));
        assert forall|rs: Seq<Seq<(Felt, usize)>>|
            #[trigger] matrix_matches(bytes@, pos as int, rs) implies (rows_of(out) == rs && cur
            == pos + ser_matrix(rs).len()) by {
            assert(rs.len() == lu);
            assert(rs.subrange(0, rs.len() as int) =~= rs);
            assert(rows_of(out) == rs);
            assert(ser_matrix(rs) == bytes@.subrange(pos as int, cur as int));
        }
    }
    Some((out, cur))
}

/// A matrix encoding is at least as long as its row count.
proof fn lemma_ser_rows_ge_len(rs: Seq<Seq<(Felt, usize)>>)
    ensures
        ser_matrix(rs).len() >= rs.len(),
    decreases rs.len(),
{
    if rs.len() > 0 {
        lemma_ser_rows_ge_len(rs.drop_first());
        assert(ser_rows(rs) == ser_sparse_row(rs[0]) + ser_rows(rs.drop_first()));
        assert(ser_sparse_row(rs[0]).len() >= 8);
        assert(ser_matrix(rs.drop_first()).len() == 8 + ser_rows(rs.drop_first()).len());
    }
}


/// A key fit for serialisation: canonical coefficients everywhere.
pub open spec fn key_ser_ok(k: IndexProverKey) -> bool {
    rows_ok(rows_of(k.a)) && rows_ok(rows_of(k.b)) && rows_ok(rows_of(k.c))
}

/// The encoding of a key splits at the right places.
spec fn key_pieces_at(bytes: Seq<u8>, x: IndexProverKey) -> bool {
    let sa = ser_matrix(rows_of(x.a));
    let sb = ser_matrix(rows_of(x.b));
    let sc = ser_matrix(rows_of(x.c));
    &&& bytes.len() == 16 + sa.len() + sb.len() + sc.len()
    &&& bytes.subrange(0, 8) == u64_le8(x.index_info.num_constraints as u64)
    &&& bytes.subrange(8, 16) == u64_le8(x.index_info.num_variables as u64)
    &&& bytes.subrange(16, 16 + sa.len() as int) == sa
    &&& bytes.subrange(16 + sa.len() as int, 16 + sa.len() + sb.len() as int) == sb
    &&& bytes.subrange(
        16 + sa.len() + sb.len() as int,
        16 + sa.len() + sb.len() + sc.len() as int,
    ) == sc
}

/// Decodes a prover or verifier key.  Exactly the encodings of keys
/// with canonical coefficients are accepted, and decoding an encoding
/// gives the encoded data back.
#[verifier::rlimit(100)]
pub fn deserialize_index_prover_key(bytes: &Vec<u8>) -> (r: Option<IndexProverKey>)
    ensures
        r is Some ==> ser_key(r->Some_0) == bytes@ && key_ser_ok(r->Some_0),
        forall|x: IndexProverKey|
            (key_ser_ok(x) && bytes@ == ser_key(x)) ==> r is Some && crate::r1cs_nark::key_eq(
                r->Some_0,
                x,
            ),
{
    let blen = bytes.len();
    proof {
        assert forall|x: IndexProverKey|
            (key_ser_ok(x) && bytes@ == ser_key(x)) implies key_pieces_at(bytes@, x) by {
            let sa = ser_matrix(rows_of(x.a));
            let sb = ser_matrix(rows_of(x.b));
            let sc = ser_matrix(rows_of(x.c));
            assert(bytes@.subrange(0, 8) =~= u64_le8(x.index_info.num_constraints as u64));
            assert(bytes@.subrange(8, 16) =~= u64_le8(x.index_info.num_variables as u64));
            assert(bytes@.subrange(16, 16 + sa.len() as int) =~= sa);
            assert(bytes@.subrange(16 + sa.len() as int, 16 + sa.len() + sb.len() as int) =~= sb);
            assert(bytes@.subrange(
                16 + sa.len() + sb.len() as int,
                16 + sa.len() + sb.len() + sc.len() as int,
            ) =~= sc);
        }
    }
    let rn = de_u64(bytes, 0);
    let nc_u = match rn {
        Some(x) => x.0,
        None => {
            return None;
        },
    };
    let rv = de_u64(bytes, 8);
    let nv_u = match rv {
        Some(x) => x.0,
        None => {
            return None;
        },
    };
    if nc_u > usize::MAX as u64 || nv_u > usize::MAX as u64 {
        proof {
            assert forall|x: IndexProverKey|
                !(key_ser_ok(x) && bytes@ == ser_key(x)) by {
                if key_ser_ok(x) && bytes@ == ser_key(x) {
                    lemma_le_int_of_le8(nc_u);
                    lemma_le_int_of_le8(x.index_info.num_constraints as u64);
                    lemma_le_int_of_le8(nv_u);
                    lemma_le_int_of_le8(x.index_info.num_variables as u64);
                }
            }
        }
        return None;
    }
    let ra = de_matrix(bytes, 16);
    proof {
        assert forall|x: IndexProverKey|
            (key_ser_ok(x) && bytes@ == ser_key(x)) implies (ra is Some && rows_of(
            ra->Some_0.0,
        ) == rows_of(x.a) && ra->Some_0.1 == 16 + ser_matrix(rows_of(x.a)).len()) by {
            assert(key_pieces_at(bytes@, x));
            assert(matrix_matches(bytes@, 16, rows_of(x.a)));
        }
    }
    let (a, p1) = match ra {
        Some(x) => x,
        None => {
            return None;
        },
    };
    let rb = de_matrix(bytes, p1);
    proof {
        assert forall|x: IndexProverKey|
            (key_ser_ok(x) && bytes@ == ser_key(x)) implies (rb is Some && rows_of(
            rb->Some_0.0,
        ) == rows_of(x.b) && rb->Some_0.1 == p1 + ser_matrix(rows_of(x.b)).len()) by {
            assert(key_pieces_at(bytes@, x));
            assert(p1 == 16 + ser_matrix(rows_of(x.a)).len());
            assert(matrix_matches(bytes@, p1 as int, rows_of(x.b)));
        }
    }
    let (b, p2) = match rb {
        Some(x) => x,
        None => {
            return None;
        },
    };
    let rc = de_matrix(bytes, p2);
    proof {
        assert forall|x: IndexProverKey|
            (key_ser_ok(x) && bytes@ == ser_key(x)) implies (rc is Some && rows_of(
            rc->Some_0.0,
        ) == rows_of(x.c) && rc->Some_0.1 == p2 + ser_matrix(rows_of(x.c)).len()) by {
            assert(key_pieces_at(bytes@, x));
            assert(p2 == 16 + ser_matrix(rows_of(x.a)).len() + ser_matrix(rows_of(x.b)).len());
            assert(matrix_matches(bytes@, p2 as int, rows_of(x.c)));
        }
    }
    let (c, p3) = match rc {
        Some(x) => x,
        None => {
            return None;
        },
    };
    if p3 != blen {
        return None;
    }
    let key = IndexProverKey {
        index_info: IndexInfo {
            num_constraints: nc_u as usize,
            num_variables: nv_u as usize,
        },
        a,
        b,
        c,
    };
    proof {
        assert(ser_key(key) =~= bytes@);
        assert forall|x: IndexProverKey|
            (key_ser_ok(x) && bytes@ == ser_key(x)) implies crate::r1cs_nark::key_eq(key, x) by {
            assert(key_pieces_at(bytes@, x));
            lemma_le_int_of_le8(nc_u);
            lemma_le_int_of_le8(x.index_info.num_constraints as u64);
            lemma_le_int_of_le8(nv_u);
            lemma_le_int_of_le8(x.index_info.num_variables as u64);
        }
    }
    Some(key)
}

} // verus!
