//! Fiat-Shamir derivation of the folding scalar and the spot-check
//! indices.
//!
//! Both derivations are pure functions of two commitments, computed
//! through a byte-oriented pseudo-random function (Blake2s).  A field
//! element crosses into bytes as its 32-byte little-endian encoding;
//! bytes come back as a little-endian integer reduced modulo the prime.
//! Prover and verifier run the same two functions on the same roots
//! and therefore agree on every challenge.

use vstd::prelude::*;
use vstd::arithmetic::div_mod::{lemma_div_basics, lemma_div_denominator};
use crate::field::{
    be_bytes_as_int, felt_from_le_bytes_mod_order, felt_of_int, le_bytes_as_int,
    lemma_felt_canonical, p, Felt,
};
use crate::merkle::two_pow;
use ark_crypto_primitives::prf::{Blake2s, PRF};

verus! {

/// What the Blake2s pseudo-random function answers on a 32-byte seed
/// and a 32-byte input.
pub uninterp spec fn blake2s_of(seed: Seq<u8>, input: Seq<u8>) -> Seq<u8>;

/// Relies on `ark_crypto_primitives::prf::Blake2s::evaluate`: a plain
/// Blake2s-256 digest of seed and input, 32 bytes long, deterministic
/// in its two arguments, and never an error.
#[verifier::external_body]
fn blake2s_prf(seed: &Vec<u8>, input: &Vec<u8>) -> (r: Vec<u8>)
    requires
        seed@.len() == 32,
        input@.len() == 32,
    ensures
        r@ == blake2s_of(seed@, input@),
        r@.len() == 32,
{
    let s: [u8; 32] = seed.as_slice().try_into().unwrap();
    let i: [u8; 32] = input.as_slice().try_into().unwrap();
    Blake2s::evaluate(&s, &i).unwrap().to_vec()
}

/// The eight little-endian bytes of a 64-bit limb.
pub open spec fn u64_le8(x: u64) -> Seq<u8> {
    Seq::new(8, |i: int| ((x as int / two_pow((8 * i) as nat) as int) % 256) as u8)
}

/// The 32-byte little-endian encoding of a field element.
pub open spec fn felt_le32(a: Felt) -> Seq<u8> {
    u64_le8(a.l0) + u64_le8(a.l1) + u64_le8(a.l2) + u64_le8(a.l3)
}

/// `2^(k+8) = 256 * 2^k`.
proof fn lemma_two_pow_add8(k: nat)
    ensures
        two_pow(k + 8) == 256 * two_pow(k),
{
    reveal_with_fuel(two_pow, 9);
}

/// Powers of two are positive.
proof fn lemma_two_pow_pos(k: nat)
    ensures
        two_pow(k) >= 1,
    decreases k,
{
    if k > 0 {
        lemma_two_pow_pos((k - 1) as nat);
    }
}

/// Appends the eight little-endian bytes of one limb.
pub(crate) fn push_le8(out: &mut Vec<u8>, x: u64)
    ensures
        final(out)@ == old(out)@ + u64_le8(x),
{
    let ghost base = out@;
    let mut v = x;
    let mut j: usize = 0;
    proof {
        lemma_div_basics(x as int);
        assert(x as int / two_pow(0) as int == x as int);
    }
    while j < 8
        invariant
            j <= 8,
            v as int == x as int / two_pow((8 * j) as nat) as int,
            out@.len() == base.len() + j,
            forall|q: int| 0 <= q < base.len() ==> out@[q] == base[q],
            forall|q: int| 0 <= q < j ==> out@[base.len() + q] == u64_le8(x)[q],
        decreases 8 - j,
    {
        out.push((v % 256) as u8);
        proof {
            lemma_two_pow_pos((8 * j) as nat);
            lemma_div_denominator(x as int, two_pow((8 * j) as nat) as int, 256);
            lemma_two_pow_add8((8 * j) as nat);
            assert(two_pow((8 * j) as nat) * 256 == 256 * two_pow((8 * j) as nat));
            assert((v as int / 256) == x as int / two_pow((8 * j + 8) as nat) as int);
        }
        v = v / 256;
        j = j + 1;
    }
    assert(out@ =~= base + u64_le8(x));
}

/// The 32-byte little-endian encoding of a field element.
pub fn felt_to_le_bytes(a: &Felt) -> (r: Vec<u8>)
    ensures
        r@ == felt_le32(*a),
        r@.len() == 32,
{
    let mut out: Vec<u8> = Vec::new();
    push_le8(&mut out, a.l0);
    push_le8(&mut out, a.l1);
    push_le8(&mut out, a.l2);
    push_le8(&mut out, a.l3);
    assert(out@ =~= felt_le32(*a));
    out
}

/// A vector of field elements serialised into one fixed 32-byte block:
/// the little-endian bytes of the leading elements, truncated or
/// zero-padded to 32 bytes.  One element already fills the block.
pub fn field_vec_to_fixed_bytes(v: &Vec<Felt>) -> (r: Vec<u8>)
    ensures
        r@.len() == 32,
        v@.len() >= 1 ==> r@ == felt_le32(v@[0]),
        v@.len() == 0 ==> r@ == Seq::<u8>::new(32, |i: int| 0u8),
{
    if v.len() == 0 {
        let mut out: Vec<u8> = Vec::new();
        let mut j: usize = 0;
        while j < 32
            invariant
                j <= 32,
                out@.len() == j,
                forall|q: int| 0 <= q < j ==> out@[q] == 0u8,
            decreases 32 - j,
        {
            out.push(0u8);
            j = j + 1;
        }
        assert(out@ =~= Seq::<u8>::new(32, |i: int| 0u8));
        out
    } else {
        felt_to_le_bytes(&v[0])
    }
}

/// The 32-byte block read back as field elements: one element per
/// 32-byte chunk, each read as a little-endian integer and reduced
/// modulo the prime.
pub fn bytes_to_field_vec(bytes: &Vec<u8>) -> (r: Vec<Felt>)
    requires
        bytes@.len() == 32,
    ensures
        r@.len() == 1,
        r@[0].wf(),
        r@[0].value() == le_bytes_as_int(bytes@) % p(),
{
    let e = felt_from_le_bytes_mod_order(bytes);
    let mut r: Vec<Felt> = Vec::new();
    r.push(e);
    r
}

/// The folding scalar derived from the two roots: the pseudo-random
/// block read as a little-endian integer and reduced.
pub open spec fn fs_scalar(iw: Felt, aw: Felt) -> int {
    le_bytes_as_int(blake2s_of(felt_le32(iw), felt_le32(aw))) % p()
}

/// One step of the index chain: the previous element re-serialised,
/// run through the pseudo-random function, and reduced.
pub open spec fn fs_next(seed: Seq<u8>, cur: Felt) -> Felt {
    felt_of_int(le_bytes_as_int(blake2s_of(seed, felt_le32(cur))) % p())
}

/// The index chain after `n` steps from `start`.
pub open spec fn fs_chain(seed: Seq<u8>, start: Felt, n: nat) -> Felt
    decreases n,
{
    if n == 0 {
        start
    } else {
        fs_next(seed, fs_chain(seed, start, (n - 1) as nat))
    }
}

/// The `j`-th spot-check index derived from the two roots: the first
/// eight bytes of the chain element's encoding, read as a big-endian
/// machine word and reduced modulo the codeword length.
pub open spec fn fs_index(iw: Felt, aw: Felt, j: nat, max: int) -> int {
    be_bytes_as_int(
        felt_le32(fs_chain(felt_le32(iw), felt_of_int(fs_scalar(iw, aw)), (j + 1) as nat)).subrange(
            0,
            8,
        ),
    ) % max
}

/// Derives the folding scalar from the commitment of the input and
/// the commitment of the old accumulator.
pub fn get_randomness(input_witness: &Vec<Felt>, accumulator_witness: &Vec<Felt>) -> (r: Vec<Felt>)
    requires
        input_witness@.len() >= 1,
        accumulator_witness@.len() >= 1,
    ensures
        r@.len() == 1,
        r@[0].wf(),
        r@[0].value() == fs_scalar(input_witness@[0], accumulator_witness@[0]),
{
    let seed = field_vec_to_fixed_bytes(input_witness);
    let inp = field_vec_to_fixed_bytes(accumulator_witness);
    let h = blake2s_prf(&seed, &inp);
    bytes_to_field_vec(&h)
}

/// The big-endian value of the first eight bytes of `s`.
fn be_u64_prefix(s: &Vec<u8>) -> (r: u64)
    requires
        s@.len() >= 8,
    ensures
        r as int == be_bytes_as_int(s@.subrange(0, 8)),
{
    let mut v: u64 = 0;
    let mut j: usize = 0;
    proof {
        assert(s@.subrange(0, 0) =~= Seq::<u8>::empty());
        assert(two_pow(56) == 0x100000000000000) by {
            reveal_with_fuel(two_pow, 57);
        }
    }
    while j < 8
        invariant
            j <= 8,
            s@.len() >= 8,
            v as int == be_bytes_as_int(s@.subrange(0, j as int)),
            (v as int) < two_pow((8 * j) as nat),
            two_pow(56) == 0x100000000000000,
        decreases 8 - j,
    {
        proof {
            assert(s@.subrange(0, j + 1).drop_last() =~= s@.subrange(0, j as int));
            assert(s@.subrange(0, j + 1).last() == s@[j as int]);
            lemma_two_pow_add8((8 * j) as nat);
            let tp: int = two_pow((8 * j) as nat) as int;
            assert((v as int) < tp);
            assert(tp <= two_pow(56)) by {
                lemma_two_pow_le((8 * j) as nat, 56);
            }
            assert(v as int * 256 + 255 < 256 * tp) by (nonlinear_arith)
                requires
                    (v as int) < tp,
            ;
            assert(256 * tp <= 0x10000000000000000int);
            assert(two_pow((8 * (j + 1)) as nat) == 256 * two_pow((8 * j) as nat));
        }
        v = v * 256 + (s[j] as u64);
        j = j + 1;
    }
    assert(s@.subrange(0, 8) == s@.subrange(0, 8int));
    v
}

/// Powers of two grow with the exponent.
proof fn lemma_two_pow_le(a: nat, b: nat)
    requires
        a <= b,
    ensures
        two_pow(a) <= two_pow(b),
    decreases b,
{
    if a < b {
        lemma_two_pow_le(a, (b - 1) as nat);
        lemma_two_pow_pos(a);
    }
}

/// Derives `number_indices` spot-check indices below `max_index` from
/// the commitment of the input and the commitment of the old
/// accumulator, by iterating the pseudo-random function.
pub fn get_random_indices(
    number_indices: usize,
    input_witness: &Vec<Felt>,
    accumulator_witness: &Vec<Felt>,
    max_index: usize,
) -> (r: Vec<usize>)
    requires
        input_witness@.len() >= 1,
        accumulator_witness@.len() >= 1,
        max_index >= 1,
    ensures
        r@.len() == number_indices,
        forall|j: int|
            0 <= j < number_indices ==> r@[j] == fs_index(
                input_witness@[0],
                accumulator_witness@[0],
                j as nat,
                max_index as int,
            ),
        forall|j: int| 0 <= j < number_indices ==> (#[trigger] r@[j]) < max_index,
{
    let ghost iw0 = input_witness@[0];
    let ghost aw0 = accumulator_witness@[0];
    let seed = field_vec_to_fixed_bytes(input_witness);
    let inp0 = field_vec_to_fixed_bytes(accumulator_witness);
    let h0 = blake2s_prf(&seed, &inp0);
    let r0 = bytes_to_field_vec(&h0);
    let ghost start = r0@[0];
    proof {
        lemma_felt_canonical(r0@[0]);
        assert(start == felt_of_int(fs_scalar(iw0, aw0)));
        assert(fs_chain(seed@, start, 0) == start);
    }
    let mut cur: Felt = r0[0];
    let mut inp = felt_to_le_bytes(&cur);
    let mut indices: Vec<usize> = Vec::new();
    let mut i: usize = 0;
    while i < number_indices
        invariant
            i <= number_indices,
            max_index >= 1,
            seed@.len() == 32,
            seed@ == felt_le32(iw0),
            start == felt_of_int(fs_scalar(iw0, aw0)),
            cur.wf(),
            cur == fs_chain(seed@, start, i as nat),
            inp@ == felt_le32(cur),
            inp@.len() == 32,
            indices@.len() == i,
            forall|j: int|
                0 <= j < i ==> indices@[j] == fs_index(iw0, aw0, j as nat, max_index as int),
            forall|j: int| 0 <= j < i ==> (#[trigger] indices@[j]) < max_index,
        decreases number_indices - i,
    {
        let h = blake2s_prf(&seed, &inp);
        let rv = bytes_to_field_vec(&h);
        let next = rv[0];
        proof {
            lemma_felt_canonical(next);
            assert(next == fs_next(seed@, cur));
            assert(fs_chain(seed@, start, (i + 1) as nat) == fs_next(
                seed@,
                fs_chain(seed@, start, i as nat),
            ));
        }
        cur = next;
        inp = felt_to_le_bytes(&cur);
        let pre = be_u64_prefix(&inp);
        let idx = (pre % (max_index as u64)) as usize;
        proof {
            assert(pre as int % (max_index as int) == be_bytes_as_int(inp@.subrange(0, 8)) % (
            max_index as int));
        }
        indices.push(idx);
        i = i + 1;
    }
    indices
}

} // verus!
