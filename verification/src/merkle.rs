//! Merkle commitments over field-valued leaves.
//!
//! The tree is balanced and binary: every leaf is a single field
//! element, the leaf digest is the Poseidon hash of that one element,
//! and inner nodes combine their two children with the Poseidon
//! two-to-one hash.  The leaf count must be a power of two; callers pad
//! with zero elements first.  The root is a single field element, and
//! an opening is the leaf index, the leaf value, and the authentication
//! path from the leaf up.

use vstd::prelude::*;
use vstd::arithmetic::div_mod::lemma_div_denominator;
use crate::field::{lemma_felt_value_injective, Felt};
use crate::matrix::{vals, wf_vec};
use crate::poseidon::{hash_leaf, hash_leaf_of, hash_two, hash_two_of, MerkleHashConfig};

verus! {

/// The digest of every leaf.
pub open spec fn digests_of(leaves: Seq<int>) -> Seq<int> {
    leaves.map_values(|v: int| hash_leaf_of(v))
}

/// One level combined pairwise into the next.
pub open spec fn combine(s: Seq<int>) -> Seq<int> {
    Seq::new(s.len() / 2, |i: int| hash_two_of(s[2 * i], s[2 * i + 1]))
}

/// The root over a level of digests.
pub open spec fn root_of_digests(s: Seq<int>) -> int
    decreases s.len(),
{
    if s.len() <= 1 {
        s[0]
    } else {
        root_of_digests(combine(s))
    }
}

/// The root of the tree over a padded leaf vector.
pub open spec fn merkle_root_spec(leaves: Seq<int>) -> int {
    root_of_digests(digests_of(leaves))
}

/// Whether `n` is a power of two.
pub open spec fn is_pow2(n: nat) -> bool
    decreases n,
{
    if n == 0 {
        false
    } else if n == 1 {
        true
    } else {
        n % 2 == 0 && is_pow2(n / 2)
    }
}

/// The least power of two that is at least `n` (and at least one).
pub open spec fn next_pow2(n: nat) -> nat
    decreases n,
{
    if n <= 1 {
        1
    } else {
        2 * next_pow2((n + 1) / 2)
    }
}

/// `2^k`.
pub open spec fn two_pow(k: nat) -> nat
    decreases k,
{
    if k == 0 {
        1nat
    } else {
        2 * two_pow((k - 1) as nat)
    }
}

/// The digest level `k` steps above the bottom one.
pub open spec fn combine_iter(s: Seq<int>, k: nat) -> Seq<int>
    decreases k,
{
    if k == 0 {
        s
    } else {
        combine(combine_iter(s, (k - 1) as nat))
    }
}

/// The sibling digest that the opening of leaf `idx` carries at level
/// `k`.
pub open spec fn sibling_at(digests: Seq<int>, idx: int, k: nat) -> int {
    let c = idx / two_pow(k) as int;
    let s = if c % 2 == 0 {
        c + 1
    } else {
        c - 1
    };
    combine_iter(digests, k)[s]
}

/// What a claimed authentication path hashes up to, starting from a
/// leaf digest at position `idx` of the bottom level.
pub open spec fn path_root(digest: int, idx: nat, sibs: Seq<int>) -> int
    decreases sibs.len(),
{
    if sibs.len() == 0 {
        digest
    } else {
        let up = if idx % 2 == 0 {
            hash_two_of(digest, sibs[0])
        } else {
            hash_two_of(sibs[0], digest)
        };
        path_root(up, idx / 2, sibs.drop_first())
    }
}

/// An opening of one leaf: its index, its value, and the sibling
/// digests from the bottom level up.
#[derive(Clone, Debug, PartialEq, Eq)]
pub struct MerkleOpening {
    pub index: usize,
    pub leaf: Felt,
    pub siblings: Vec<Felt>,
}

impl MerkleOpening {
    /// Every element carried is in canonical form.
    pub open spec fn wf(self) -> bool {
        self.leaf.wf() && wf_vec(self.siblings@)
    }
}

/// A built tree: every level of digests, bottom first.
pub struct MerkleTree {
    levels: Vec<Vec<Felt>>,
}

/// The integer values of every level.
pub open spec fn levels_vals(levels: Seq<Vec<Felt>>) -> Seq<Seq<int>> {
    levels.map_values(|v: Vec<Felt>| vals(v@))
}

/// The levels stack up by pairwise combination and end in a root.
pub open spec fn levels_ok(ls: Seq<Seq<int>>) -> bool {
    &&& ls.len() >= 1
    &&& ls[ls.len() - 1].len() == 1
    &&& forall|k: int|
        0 <= k < ls.len() - 1 ==> (#[trigger] ls[k]).len() >= 2 && ls[k].len() % 2 == 0 && ls[k
            + 1] == combine(ls[k])
}

impl MerkleTree {
    /// The levels stack up and hold canonical elements only.
    pub closed spec fn wf(self) -> bool {
        &&& levels_ok(levels_vals(self.levels@))
        &&& forall|k: int| 0 <= k < self.levels@.len() ==> wf_vec(#[trigger] self.levels@[k]@)
    }

    /// The bottom level: the digests of the committed leaves.
    pub closed spec fn level0(self) -> Seq<int> {
        vals(self.levels@[0]@)
    }

    /// How many levels the tree has.
    pub closed spec fn height(self) -> int {
        self.levels@.len() as int
    }
}

/// The root over a stack of levels is the root computed from its
/// bottom level.
proof fn lemma_levels_root(ls: Seq<Seq<int>>)
    requires
        levels_ok(ls),
    ensures
        ls[ls.len() - 1][0] == root_of_digests(ls[0]),
    decreases ls.len(),
{
    if ls.len() == 1 {
    } else {
        assert(ls[1] == combine(ls[0]));
        let tail = ls.drop_first();
        assert(levels_ok(tail)) by {
            assert(forall|k: int|
                0 <= k < tail.len() - 1 ==> #[trigger] tail[k] == ls[k + 1] && tail[k + 1] == ls[k
                    + 2]);
        }
        lemma_levels_root(tail);
        assert(tail[0] == ls[1]);
        assert(tail[tail.len() - 1] == ls[ls.len() - 1]);
    }
}

/// Appending one sibling to a path hashes the previous path root with
/// it, on the side given by the node's parity at that level.
proof fn lemma_path_root_snoc(digest: int, idx: nat, sibs: Seq<int>, x: int)
    ensures
        path_root(digest, idx, sibs.push(x)) == {
            let cur = idx as int / two_pow(sibs.len()) as int;
            if cur % 2 == 0 {
                hash_two_of(path_root(digest, idx, sibs), x)
            } else {
                hash_two_of(x, path_root(digest, idx, sibs))
            }
        },
    decreases sibs.len(),
{
    reveal_with_fuel(path_root, 3);
    lemma_two_pow_pos(sibs.len());
    if sibs.len() == 0 {
        assert(sibs.push(x).drop_first() =~= Seq::<int>::empty());
        assert(sibs.push(x)[0] == x);
        vstd::arithmetic::div_mod::lemma_div_basics(idx as int);
        assert(idx as int / two_pow(0) as int == idx as int);
    } else {
        let up = if idx % 2 == 0 {
            hash_two_of(digest, sibs[0])
        } else {
            hash_two_of(sibs[0], digest)
        };
        assert(sibs.push(x)[0] == sibs[0]);
        assert(sibs.push(x).drop_first() =~= sibs.drop_first().push(x));
        assert(path_root(digest, idx, sibs.push(x)) == path_root(
            up,
            idx / 2,
            sibs.drop_first().push(x),
        ));
        assert(path_root(digest, idx, sibs) == path_root(up, idx / 2, sibs.drop_first()));
        lemma_path_root_snoc(up, idx / 2, sibs.drop_first(), x);
        lemma_two_pow_pos((sibs.len() - 1) as nat);
        lemma_div_denominator(idx as int, 2, two_pow((sibs.len() - 1) as nat) as int);
        assert(2 * two_pow((sibs.len() - 1) as nat) == two_pow(sibs.len()));
        assert((idx / 2) as int == idx as int / 2);
    }
}

/// Powers of two grow with the exponent.
pub proof fn lemma_two_pow_monotone(a: nat, b: nat)
    requires
        a <= b,
    ensures
        two_pow(a) <= two_pow(b),
    decreases b,
{
    if a < b {
        lemma_two_pow_monotone(a, (b - 1) as nat);
        lemma_two_pow_pos(a);
    }
}

/// Powers of two are positive.
pub proof fn lemma_two_pow_pos(k: nat)
    ensures
        two_pow(k) >= 1,
    decreases k,
{
    if k > 0 {
        lemma_two_pow_pos((k - 1) as nat);
    }
}

/// Builds the tree over a power-of-two number of leaves.
pub fn commit(cfg: &MerkleHashConfig, leaves: &Vec<Felt>) -> (t: MerkleTree)
    requires
        wf_vec(leaves@),
        is_pow2(leaves@.len()),
    ensures
        t.wf(),
        t.level0() == digests_of(vals(leaves@)),
        two_pow((t.height() - 1) as nat) == leaves@.len(),
        t.height() >= 1,
{
    let n = leaves.len();
    let mut d: Vec<Felt> = Vec::new();
    let mut i: usize = 0;
    while i < n
        invariant
            n == leaves@.len(),
            i <= n,
            wf_vec(leaves@),
            d@.len() == i,
            wf_vec(d@),
            forall|j: int|
                0 <= j < i ==> (#[trigger] d@[j]).value() == hash_leaf_of(leaves@[j].value()),
        decreases n - i,
    {
        d.push(hash_leaf(cfg, &leaves[i]));
        i = i + 1;
    }
    assert(vals(d@) =~= digests_of(vals(leaves@)));
    let ghost bottom = vals(d@);

    let mut levels: Vec<Vec<Felt>> = Vec::new();
    levels.push(d);
    proof {
        assert(two_pow(0) == 1);
        assert(1int * (leaves@.len() as int) == leaves@.len() as int);
    }
    while levels[levels.len() - 1].len() > 1
        invariant
            levels@.len() >= 1,
            forall|k: int| 0 <= k < levels@.len() ==> wf_vec(#[trigger] levels@[k]@),
            vals(levels@[0]@) == bottom,
            bottom.len() == leaves@.len(),
            is_pow2(levels@[levels@.len() - 1]@.len()),
            two_pow((levels@.len() - 1) as nat) * levels@[levels@.len() - 1]@.len()
                == leaves@.len(),
            forall|k: int|
                0 <= k < levels@.len() - 1 ==> (#[trigger] levels_vals(levels@)[k]).len() >= 2
                    && levels_vals(levels@)[k].len() % 2 == 0 && levels_vals(levels@)[k + 1]
                    == combine(levels_vals(levels@)[k]),
        decreases levels@[levels@.len() - 1]@.len(),
    {
        let li = levels.len() - 1;
        let m = levels[li].len();
        let half = m / 2;
        let mut next: Vec<Felt> = Vec::new();
        let mut j: usize = 0;
        while j < half
            invariant
                li == levels@.len() - 1,
                m == levels@[li as int]@.len(),
                half == m / 2,
                m >= 2,
                is_pow2(m as nat),
                j <= half,
                forall|k: int| 0 <= k < levels@.len() ==> wf_vec(#[trigger] levels@[k]@),
                next@.len() == j,
                wf_vec(next@),
                forall|q: int|
                    0 <= q < j ==> (#[trigger] next@[q]).value() == hash_two_of(
                        vals(levels@[li as int]@)[2 * q],
                        vals(levels@[li as int]@)[2 * q + 1],
                    ),
            decreases half - j,
        {
            let a = levels[li][2 * j];
            let b = levels[li][2 * j + 1];
            next.push(hash_two(cfg, &a, &b));
            j = j + 1;
        }
        assert(vals(next@) =~= combine(vals(levels@[li as int]@)));
        proof {
            assert(is_pow2(m as nat));
            assert(m % 2 == 0 && is_pow2((m / 2) as nat));
        }
        proof {
            lemma_two_pow_pos((levels@.len() - 1) as nat);
            assert(two_pow(levels@.len() as nat) == 2 * two_pow((levels@.len() - 1) as nat));
        }
        let ghost pre = levels@;
        levels.push(next);
        proof {
            assert(levels@ == pre.push(next));
            assert(two_pow((levels@.len() - 1) as nat) * (m / 2) as int == leaves@.len()) by {
                assert(two_pow((levels@.len() - 1) as nat) == 2 * two_pow((pre.len() - 1) as nat));
                assert(2 * two_pow((pre.len() - 1) as nat) * ((m / 2) as int) == two_pow(
                    (pre.len() - 1) as nat,
                ) * (m as int)) by (nonlinear_arith)
                    requires
                        m % 2 == 0,
                        m >= 2,
                ;
            }
            assert(forall|k: int| 0 <= k < pre.len() ==> levels@[k] == #[trigger] pre[k]);
            assert forall|k: int| 0 <= k < levels@.len() - 1 implies (#[trigger] levels_vals(
                levels@,
            )[k]).len() >= 2 && levels_vals(levels@)[k].len() % 2 == 0 && levels_vals(levels@)[k
                + 1] == combine(levels_vals(levels@)[k]) by {
                if k < pre.len() - 1 {
                    assert(levels_vals(pre)[k].len() >= 2 && levels_vals(pre)[k].len() % 2 == 0
                        && levels_vals(pre)[k + 1] == combine(levels_vals(pre)[k]));
                    assert(levels_vals(levels@)[k] == levels_vals(pre)[k]);
                    assert(levels_vals(levels@)[k + 1] == levels_vals(pre)[k + 1]);
                } else {
                    assert(k == li as int);
                    assert(levels_vals(levels@)[k] == vals(pre[li as int]@));
                    assert(levels_vals(levels@)[k + 1] == vals(next@));
                }
            }
        }
    }
    let t = MerkleTree { levels };
    assert(levels_ok(levels_vals(t.levels@)));
    proof {
        assert(t.levels@[t.levels@.len() - 1]@.len() == 1);
        assert(two_pow((t.height() - 1) as nat) * 1int == leaves@.len() as int);
    }
    t
}

impl MerkleTree {
    /// The root digest.
    pub fn root(&self) -> (r: Felt)
        requires
            self.wf(),
        ensures
            r.wf(),
            r.value() == root_of_digests(self.level0()),
    {
        proof {
            lemma_levels_root(levels_vals(self.levels@));
        }
        let li = self.levels.len() - 1;
        self.levels[li][0]
    }

    /// The authentication path of the leaf at `index`, bottom first.
    pub fn open(&self, index: usize) -> (sibs: Vec<Felt>)
        requires
            self.wf(),
            index < self.level0().len(),
        ensures
            wf_vec(sibs@),
            sibs@.len() == self.height() - 1,
            path_root(self.level0()[index as int], index as nat, vals(sibs@)) == root_of_digests(
                self.level0(),
            ),
            forall|k: int|
                0 <= k < sibs@.len() ==> vals(sibs@)[k] == sibling_at(
                    self.level0(),
                    index as int,
                    k as nat,
                ),
    {
        let height = self.levels.len();
        let mut sibs: Vec<Felt> = Vec::new();
        let mut cur = index;
        let mut k: usize = 0;
        proof {
            lemma_levels_root(levels_vals(self.levels@));
            vstd::arithmetic::div_mod::lemma_div_basics(index as int);
            assert(index as int / two_pow(0) as int == index as int);
        }
        while k < height - 1
            invariant
                self.wf(),
                height == self.levels@.len(),
                k < height,
                index < self.level0().len(),
                sibs@.len() == k,
                wf_vec(sibs@),
                cur == index as int / two_pow(k as nat) as int,
                cur < self.levels@[k as int]@.len(),
                path_root(self.level0()[index as int], index as nat, vals(sibs@)) == vals(
                    self.levels@[k as int]@,
                )[cur as int],
                forall|q: int|
                    0 <= q <= k ==> vals(self.levels@[q]@) == combine_iter(self.level0(), q as nat),
                forall|q: int|
                    0 <= q < k ==> vals(sibs@)[q] == sibling_at(
                        self.level0(),
                        index as int,
                        q as nat,
                    ),
            decreases height - k,
        {
            let li = if cur % 2 == 0 {
                cur + 1
            } else {
                cur - 1
            };
            proof {
                assert(levels_vals(self.levels@)[k as int] == vals(self.levels@[k as int]@));
                assert(levels_vals(self.levels@)[k + 1] == combine(
                    levels_vals(self.levels@)[k as int],
                ));
            }
            let s = self.levels[k][li];
            proof {
                lemma_path_root_snoc(
                    self.level0()[index as int],
                    index as nat,
                    vals(sibs@),
                    s.value(),
                );
                lemma_two_pow_pos(k as nat);
                lemma_div_denominator(index as int, two_pow(k as nat) as int, 2);
                assert(two_pow(k as nat) * 2 == two_pow((k + 1) as nat));
                vstd::arithmetic::div_mod::lemma_fundamental_div_mod(cur as int, 2);
                let lv = levels_vals(self.levels@)[k as int];
                assert(lv == vals(self.levels@[k as int]@));
                assert(lv.len() >= 2 && lv.len() % 2 == 0);
                assert(cur as int / 2 < lv.len() / 2);
                assert(combine(lv)[cur as int / 2] == hash_two_of(
                    lv[2 * (cur as int / 2)],
                    lv[2 * (cur as int / 2) + 1],
                ));
                if cur % 2 == 0 {
                    assert(2 * (cur as int / 2) == cur as int);
                    assert(lv[cur as int] == path_root(
                        self.level0()[index as int],
                        index as nat,
                        vals(sibs@),
                    ));
                    assert(lv[cur as int + 1] == s.value());
                } else {
                    assert(2 * (cur as int / 2) == cur as int - 1);
                    assert(lv[cur as int - 1] == s.value());
                }
                assert(vals(sibs@.push(s)) =~= vals(sibs@).push(s.value()));
                assert(combine_iter(self.level0(), (k + 1) as nat) == combine(
                    combine_iter(self.level0(), k as nat),
                ));
                assert(s.value() == vals(self.levels@[k as int]@)[li as int]);
                assert(sibling_at(self.level0(), index as int, k as nat) == s.value());
            }
            sibs.push(s);
            cur = cur / 2;
            k = k + 1;
        }
        proof {
            assert(levels_vals(self.levels@)[k as int] == vals(self.levels@[k as int]@));
            assert(vals(self.levels@[k as int]@).len() == 1);
        }
        sibs
    }
}

/// Checks an opening against a root: hashes the leaf and walks the
/// path up, and compares the outcome with the root.  A failed
/// comparison is the bad-path failure of the commitment scheme,
/// surfaced as `false`.
pub fn verify_opening(cfg: &MerkleHashConfig, root: &Felt, opening: &MerkleOpening) -> (r: bool)
    requires
        opening.wf(),
    ensures
        r == (path_root(
            hash_leaf_of(opening.leaf.value()),
            opening.index as nat,
            vals(opening.siblings@),
        ) == root.value()),
{
    let ghost full = vals(opening.siblings@);
    let ghost d0 = hash_leaf_of(opening.leaf.value());
    let mut cur = hash_leaf(cfg, &opening.leaf);
    let mut idx = opening.index;
    let n = opening.siblings.len();
    let mut k: usize = 0;
    proof {
        assert(full.subrange(0, n as int) =~= full);
    }
    while k < n
        invariant
            n == opening.siblings@.len(),
            k <= n,
            opening.wf(),
            full == vals(opening.siblings@),
            d0 == hash_leaf_of(opening.leaf.value()),
            cur.wf(),
            path_root(cur.value(), idx as nat, full.subrange(k as int, n as int)) == path_root(
                d0,
                opening.index as nat,
                full,
            ),
        decreases n - k,
    {
        let s = opening.siblings[k];
        proof {
            assert(full.subrange(k as int, n as int)[0] == full[k as int]);
            assert(full.subrange(k as int, n as int).drop_first() =~= full.subrange(
                k + 1,
                n as int,
            ));
        }
        cur = if idx % 2 == 0 {
            hash_two(cfg, &cur, &s)
        } else {
            hash_two(cfg, &s, &cur)
        };
        idx = idx / 2;
        k = k + 1;
    }
    assert(full.subrange(n as int, n as int) =~= Seq::<int>::empty());
    let ok = cur == *root;
    proof {
        if cur.value() == root.value() {
            lemma_felt_value_injective(cur, *root);
        }
    }
    ok
}

/// Whether `n` is a power of two.
pub fn is_pow2_exec(n: usize) -> (r: bool)
    ensures
        r == is_pow2(n as nat),
{
    if n == 0 {
        return false;
    }
    let mut m = n;
    while m > 1
        invariant
            m >= 1,
            is_pow2(n as nat) == is_pow2(m as nat),
        decreases m,
    {
        if m % 2 == 1 {
            return false;
        }
        m = m / 2;
    }
    true
}

} // verus!
