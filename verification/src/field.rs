//! The scalar field of the ed-on-bls12-381 curve, as four 64-bit limbs.
//!
//! A `Felt` holds the canonical representative of a residue modulo the
//! prime `p` given by [`p`].  The arithmetic itself is done by the
//! `ark-ff` implementation of that field behind trusted wrappers whose
//! contracts state the result as plain modular arithmetic on the limb
//! values.

use vstd::prelude::*;
use vstd::arithmetic::div_mod::{
    lemma_fundamental_div_mod, lemma_fundamental_div_mod_converse, lemma_mod_bound,
};
use vstd::arithmetic::div_mod::lemma_multiply_divide_lt;
use ark_ed_on_bls12_381::Fr;
use ark_ff::{BigInt, PrimeField};

verus! {

/// The prime modulus of the scalar field of ed-on-bls12-381.
pub open spec fn p() -> int {
    0x0e7db4ea6533afa906673b0101343b00a6682093ccc81082d0970e5ed6f72cb7int
}

/// One limb's worth: 2^64.
pub open spec fn limb_base() -> int {
    0x10000000000000000
}

/// A field element, stored as the canonical integer below [`p`] in four
/// little-endian 64-bit limbs.
#[derive(Clone, Copy, Debug, PartialEq, Eq, Structural)]
pub struct Felt {
    pub l0: u64,
    pub l1: u64,
    pub l2: u64,
    pub l3: u64,
}

impl Felt {
    /// The integer this element stands for.
    pub open spec fn value(self) -> int {
        self.l0 + self.l1 * 0x10000000000000000
            + self.l2 * 0x100000000000000000000000000000000int
            + self.l3 * 0x1000000000000000000000000000000000000000000000000int
    }

    /// Canonical form: the integer lies below the modulus.
    pub open spec fn wf(self) -> bool {
        self.value() < p()
    }

    /// The zero element.
    pub fn zero() -> (r: Felt)
        ensures
            r.wf(),
            r.value() == 0,
    {
        Felt { l0: 0, l1: 0, l2: 0, l3: 0 }
    }

    /// The one element.
    pub fn one() -> (r: Felt)
        ensures
            r.wf(),
            r.value() == 1,
    {
        Felt { l0: 1, l1: 0, l2: 0, l3: 0 }
    }

    /// Embeds a machine integer.
    pub fn from_u64(x: u64) -> (r: Felt)
        ensures
            r.wf(),
            r.value() == x,
    {
        Felt { l0: x, l1: 0, l2: 0, l3: 0 }
    }

    /// The fixed multiplicative generator of the field, `6`.
    pub fn generator() -> (r: Felt)
        ensures
            r.wf(),
            r.value() == 6,
    {
        Felt { l0: 6, l1: 0, l2: 0, l3: 0 }
    }
}

/// The canonical limb decomposition of an integer.
pub open spec fn felt_of_int(v: int) -> Felt {
    Felt {
        l0: (v % 0x10000000000000000) as u64,
        l1: ((v / 0x10000000000000000) % 0x10000000000000000) as u64,
        l2: ((v / 0x10000000000000000 / 0x10000000000000000) % 0x10000000000000000) as u64,
        l3: ((v / 0x10000000000000000 / 0x10000000000000000 / 0x10000000000000000)
            % 0x10000000000000000) as u64,
    }
}

/// Decomposing an integer below the modulus gives a well-formed element
/// of that value.
pub proof fn lemma_felt_of_int(v: int)
    requires
        0 <= v < p(),
    ensures
        felt_of_int(v).wf(),
        felt_of_int(v).value() == v,
{
    let d = limb_base();
    lemma_fundamental_div_mod(v, d);
    lemma_fundamental_div_mod(v / d, d);
    lemma_fundamental_div_mod(v / d / d, d);
    lemma_fundamental_div_mod(v / d / d / d, d);
    lemma_mod_bound(v, d);
    lemma_mod_bound(v / d, d);
    lemma_mod_bound(v / d / d, d);
    lemma_mod_bound(v / d / d / d, d);
    assert(v < 0x10000000000000000 * 0x10000000000000000 * 0x10000000000000000
        * 0x10000000000000000);
    lemma_multiply_divide_lt(v, d * d * d, d);
    lemma_multiply_divide_lt(v / d, d * d, d);
    lemma_multiply_divide_lt(v / d / d, d, d);
    assert(v / d / d / d % d == v / d / d / d);
}

/// Every element is the canonical decomposition of its value: the
/// limbs are a function of the value.
pub proof fn lemma_felt_canonical(a: Felt)
    ensures
        felt_of_int(a.value()) == a,
{
    let d = limb_base();
    let v = a.value();
    lemma_fundamental_div_mod_converse(
        v,
        d,
        a.l1 + a.l2 * 0x10000000000000000
            + a.l3 * 0x100000000000000000000000000000000int,
        a.l0 as int,
    );
    lemma_fundamental_div_mod_converse(
        v / d,
        d,
        a.l2 + a.l3 * 0x10000000000000000,
        a.l1 as int,
    );
    lemma_fundamental_div_mod_converse(v / d / d, d, a.l3 as int, a.l2 as int);
    lemma_fundamental_div_mod_converse(v / d / d / d, d, 0, a.l3 as int);
}

/// Two elements of one value are one element: the limb decomposition
/// of an integer is unique.
pub proof fn lemma_felt_value_injective(a: Felt, b: Felt)
    requires
        a.value() == b.value(),
    ensures
        a == b,
{
    lemma_felt_canonical(a);
    lemma_felt_canonical(b);
}

/// Decides canonicity by comparing the limbs against the modulus,
/// from the most significant limb down.
pub fn felt_is_canonical(a: &Felt) -> (r: bool)
    ensures
        r == a.wf(),
{
    if a.l3 != 0x0e7db4ea6533afa9 {
        a.l3 < 0x0e7db4ea6533afa9
    } else if a.l2 != 0x06673b0101343b00 {
        a.l2 < 0x06673b0101343b00
    } else if a.l1 != 0xa6682093ccc81082 {
        a.l1 < 0xa6682093ccc81082
    } else {
        a.l0 < 0xd0970e5ed6f72cb7
    }
}

/// Compares two elements by value.
pub fn felts_equal(a: &Felt, b: &Felt) -> (r: bool)
    ensures
        r == (a.value() == b.value()),
{
    let r = a.l0 == b.l0 && a.l1 == b.l1 && a.l2 == b.l2 && a.l3 == b.l3;
    proof {
        if a.value() == b.value() {
            lemma_felt_value_injective(*a, *b);
        }
    }
    r
}

/// Relies on `ark_ff` addition in the scalar field of ed-on-bls12-381:
/// the sum of two canonical residues, reduced modulo the prime.
#[verifier::external_body]
pub fn fadd(a: &Felt, b: &Felt) -> (r: Felt)
    requires
        a.wf(),
        b.wf(),
    ensures
        r.wf(),
        r.value() == (a.value() + b.value()) % p(),
{
    let x = Fr::from_bigint(BigInt([a.l0, a.l1, a.l2, a.l3])).unwrap();
    let y = Fr::from_bigint(BigInt([b.l0, b.l1, b.l2, b.l3])).unwrap();
    let s = (x + y).into_bigint().0;
    Felt { l0: s[0], l1: s[1], l2: s[2], l3: s[3] }
}

/// Relies on `ark_ff` subtraction in the scalar field of ed-on-bls12-381:
/// the difference of two canonical residues, reduced modulo the prime.
#[verifier::external_body]
pub fn fsub(a: &Felt, b: &Felt) -> (r: Felt)
    requires
        a.wf(),
        b.wf(),
    ensures
        r.wf(),
        r.value() == (a.value() - b.value()) % p(),
{
    let x = Fr::from_bigint(BigInt([a.l0, a.l1, a.l2, a.l3])).unwrap();
    let y = Fr::from_bigint(BigInt([b.l0, b.l1, b.l2, b.l3])).unwrap();
    let s = (x - y).into_bigint().0;
    Felt { l0: s[0], l1: s[1], l2: s[2], l3: s[3] }
}

/// Relies on `ark_ff` multiplication in the scalar field of
/// ed-on-bls12-381: the product of two canonical residues, reduced
/// modulo the prime.
#[verifier::external_body]
pub fn fmul(a: &Felt, b: &Felt) -> (r: Felt)
    requires
        a.wf(),
        b.wf(),
    ensures
        r.wf(),
        r.value() == (a.value() * b.value()) % p(),
{
    let x = Fr::from_bigint(BigInt([a.l0, a.l1, a.l2, a.l3])).unwrap();
    let y = Fr::from_bigint(BigInt([b.l0, b.l1, b.l2, b.l3])).unwrap();
    let s = (x * y).into_bigint().0;
    Felt { l0: s[0], l1: s[1], l2: s[2], l3: s[3] }
}

/// The integer a byte string stands for when read big-endian.
pub open spec fn be_bytes_as_int(s: Seq<u8>) -> int
    decreases s.len(),
{
    if s.len() == 0 {
        0
    } else {
        be_bytes_as_int(s.drop_last()) * 256 + s.last()
    }
}

/// The integer a byte string stands for when read little-endian.
pub open spec fn le_bytes_as_int(s: Seq<u8>) -> int
    decreases s.len(),
{
    if s.len() == 0 {
        0
    } else {
        s[0] + 256 * le_bytes_as_int(s.drop_first())
    }
}

/// Relies on `ark_ff::PrimeField::from_le_bytes_mod_order`: the bytes
/// are read as a little-endian integer and reduced modulo the prime.
#[verifier::external_body]
pub(crate) fn felt_from_le_bytes_mod_order(bytes: &Vec<u8>) -> (r: Felt)
    ensures
        r.wf(),
        r.value() == le_bytes_as_int(bytes@) % p(),
{
    let s = Fr::from_le_bytes_mod_order(bytes.as_slice()).into_bigint().0;
    Felt { l0: s[0], l1: s[1], l2: s[2], l3: s[3] }
}

} // verus!
