//! The Merkle accumulator: an arena of digest levels built over leaf
//! commitments with the leaf hash at the bottom and the two-to-one hash
//! above, plus authentication paths and their verification.
//!
//! The spec model is a chain of digest levels: `compress_level` pairs a
//! level's digests, `root_of_digests` folds a level to the root,
//! `siblings_of` collects one leaf's sibling digests, and `path_root`
//! recomputes a root from a leaf digest and its siblings. The executable
//! functions are proved equal to this model, and `lemma_path_recomputes_root`
//! ties the pieces together: a generated path always recomputes the root.

use vstd::prelude::*;
use vstd::arithmetic::div_mod::lemma_fundamental_div_mod;
use crate::field::{FieldElem, values_of, all_wf};
use crate::hash::{HashParams, leaf_hash, two_to_one_hash, leaf_hash_of, two_to_one_hash_of};

verus! {

/// One digest level compressed pairwise into the next.
pub open spec fn compress_level(level: Seq<nat>) -> Seq<nat> {
    Seq::new(level.len() / 2, |j: int| two_to_one_hash_of(level[2 * j], level[2 * j + 1]))
}

/// Whether `n` is a power of two (and in particular nonzero).
pub open spec fn is_pow2(n: nat) -> bool
    decreases n,
{
    if n == 0 {
        false
    } else if n == 1 {
        true
    } else {
        n % 2 == 0 && is_pow2(n / 2)
    }
}

/// The root obtained by folding a digest level pairwise to a single digest.
pub open spec fn root_of_digests(level: Seq<nat>) -> nat
    decreases level.len(),
{
    if level.len() == 0 {
        0
    } else if level.len() == 1 {
        level[0]
    } else {
        root_of_digests(compress_level(level))
    }
}

/// The digests of a sequence of leaves under the leaf hash.
pub open spec fn leaf_digests_of(leaves: Seq<Seq<nat>>) -> Seq<nat> {
    Seq::new(leaves.len(), |i: int| leaf_hash_of(leaves[i]))
}

/// The values of a sequence of leaves, each a vector of field elements.
pub open spec fn leaves_view(s: Seq<Vec<FieldElem>>) -> Seq<Seq<nat>> {
    Seq::new(s.len(), |i: int| values_of(s[i]@))
}

/// The sibling digests of the leaf at `index`, from the leaf level up.
pub open spec fn siblings_of(level: Seq<nat>, index: nat) -> Seq<nat>
    decreases level.len(),
{
    if level.len() <= 1 {
        Seq::empty()
    } else {
        let sib = if index % 2 == 0 {
            level[index as int + 1]
        } else {
            level[index as int - 1]
        };
        seq![sib] + siblings_of(compress_level(level), index / 2)
    }
}

/// The root recomputed from a leaf digest, its index, and the sibling
/// digests along its authentication path.
pub open spec fn path_root(digest: nat, index: nat, siblings: Seq<nat>) -> nat
    decreases siblings.len(),
{
    if siblings.len() == 0 {
        digest
    } else {
        let parent = if index % 2 == 0 {
            two_to_one_hash_of(digest, siblings[0])
        } else {
            two_to_one_hash_of(siblings[0], digest)
        };
        path_root(parent, index / 2, siblings.skip(1))
    }
}

/// Accumulator round trip: for a digest level of power-of-two size, the
/// sibling digests of any position recompute exactly the level's root.
pub proof fn lemma_path_recomputes_root(level: Seq<nat>, index: nat)
    requires
        is_pow2(level.len()),
        index < level.len(),
    ensures
        path_root(level[index as int], index, siblings_of(level, index)) == root_of_digests(level),
    decreases level.len(),
{
    if level.len() == 1 {
        assert(siblings_of(level, index) =~= Seq::<nat>::empty());
    } else {
        let next = compress_level(level);
        let half = index / 2;
        lemma_fundamental_div_mod(index as int, 2);
        assert(level.len() % 2 == 0);
        lemma_fundamental_div_mod(level.len() as int, 2);
        assert(half < next.len());
        let sibs = siblings_of(level, index);
        let parent = if index % 2 == 0 {
            two_to_one_hash_of(level[index as int], level[index as int + 1])
        } else {
            two_to_one_hash_of(level[index as int - 1], level[index as int])
        };
        let h = half as int;
        assert(next[h] == two_to_one_hash_of(level[2 * h], level[2 * h + 1]));
        assert(parent == next[half as int]);
        assert(sibs.skip(1) =~= siblings_of(next, half));
        assert(path_root(level[index as int], index, sibs) == path_root(parent, half, sibs.skip(
            1,
        )));
        lemma_path_recomputes_root(next, half);
    }
}

/// The errors the accumulator can surface: a malformed leaf list at build
/// time, or an out-of-range leaf index at path-generation time.
#[derive(Clone, Copy, Debug, PartialEq, Eq, Structural)]
pub enum AccumulatorError {
    ParameterError,
    IndexError,
}

/// An authentication path: the sibling digests from the leaf level up, and
/// the index of the leaf they belong to (whose bits give the directions).
pub struct AuthenticationPath {
    pub siblings: Vec<FieldElem>,
    pub index: usize,
}

impl AuthenticationPath {
    pub open spec fn wf(&self) -> bool {
        all_wf(self.siblings@)
    }
}

/// In a chain of digest levels, level `k+1` is the pairwise compression of
/// level `k`, which has an even number of at least two digests.
pub open spec fn levels_step_ok(ls: Seq<Vec<FieldElem>>, k: int) -> bool {
    &&& values_of(ls[k + 1]@) == compress_level(values_of(ls[k]@))
    &&& values_of(ls[k]@).len() >= 2
    &&& values_of(ls[k]@).len() % 2 == 0
}

/// The accumulator: level 0 holds the leaf digests, each further level the
/// pairwise compression of the one below, and the last level the root alone.
pub struct MerkleAccumulator {
    pub levels: Vec<Vec<FieldElem>>,
}

impl MerkleAccumulator {
    /// The digest values of level `k`.
    pub open spec fn level_vals(&self, k: int) -> Seq<nat> {
        values_of(self.levels@[k]@)
    }

    /// The digests of the leaves, in order.
    pub open spec fn leaf_digests(&self) -> Seq<nat> {
        self.level_vals(0)
    }

    pub open spec fn leaf_count(&self) -> nat {
        self.leaf_digests().len()
    }

    pub open spec fn height(&self) -> int {
        self.levels@.len() - 1
    }

    /// The root digest value.
    pub open spec fn root_val(&self) -> nat {
        self.level_vals(self.height())[0]
    }

    /// Level `k+1` is the pairwise compression of level `k`, which has an
    /// even number of at least two digests.
    pub open spec fn level_step_ok(&self, k: int) -> bool {
        levels_step_ok(self.levels@, k)
    }

    pub open spec fn wf(&self) -> bool {
        &&& self.levels@.len() >= 1
        &&& forall|k: int| 0 <= k < self.levels@.len() ==> all_wf(#[trigger] self.levels@[k]@)
        &&& forall|k: int| 0 <= k < self.levels@.len() - 1 ==> #[trigger] self.level_step_ok(k)
        &&& self.level_vals(self.height()).len() == 1
        &&& is_pow2(self.leaf_count())
    }

    /// The root of every level's fold is the stored root digest.
    proof fn lemma_root_from_level(&self, k: int)
        requires
            self.wf(),
            0 <= k < self.levels@.len(),
        ensures
            root_of_digests(self.level_vals(k)) == self.root_val(),
        decreases self.levels@.len() - k,
    {
        if k == self.height() {
        } else {
            assert(self.level_step_ok(k));
            self.lemma_root_from_level(k + 1);
        }
    }

    /// Builds the accumulator over the given leaves: each leaf is hashed
    /// with the leaf hash, then levels are compressed pairwise up to the
    /// root. The leaf list must have power-of-two size, at least two.
    pub fn build(params: &HashParams, leaves: &Vec<Vec<FieldElem>>) -> (r: Result<
        MerkleAccumulator,
        AccumulatorError,
    >)
        requires
            params.wf(),
            forall|i: int|
                0 <= i < leaves@.len() ==> (#[trigger] leaves@[i])@.len() >= 1 && all_wf(
                    leaves@[i]@,
                ),
        ensures
            match r {
                Ok(acc) => {
                    &&& acc.wf()
                    &&& acc.leaf_digests() == leaf_digests_of(leaves_view(leaves@))
                    &&& acc.leaf_count() == leaves@.len()
                    &&& acc.root_val() == root_of_digests(leaf_digests_of(leaves_view(leaves@)))
                    &&& leaves@.len() >= 2 && is_pow2(leaves@.len())
                },
                Err(e) => {
                    &&& e == AccumulatorError::ParameterError
                    &&& !(leaves@.len() >= 2 && is_pow2(leaves@.len()))
                },
            },
    {
        let n = leaves.len();
        if n < 2 {
            return Err(AccumulatorError::ParameterError);
        }
        let mut m: usize = n;
        while m > 1
            invariant
                m >= 1,
                n == leaves@.len(),
                n >= 2,
                is_pow2(n as nat) <==> is_pow2(m as nat),
            decreases m,
        {
            if m % 2 == 1 {
                proof {
                    assert(!is_pow2(m as nat));
                }
                return Err(AccumulatorError::ParameterError);
            }
            m = m / 2;
        }

        let mut cur: Vec<FieldElem> = Vec::new();
        let mut i: usize = 0;
        while i < n
            invariant
                0 <= i <= n,
                n == leaves@.len(),
                params.wf(),
                forall|j: int|
                    0 <= j < leaves@.len() ==> (#[trigger] leaves@[j])@.len() >= 1 && all_wf(
                        leaves@[j]@,
                    ),
                cur@.len() == i,
                all_wf(cur@),
                values_of(cur@) == leaf_digests_of(leaves_view(leaves@)).take(i as int),
            decreases n - i,
        {
            let d = leaf_hash(params, &leaves[i]);
            proof {
                assert(values_of(cur@.push(d)) =~= values_of(cur@) + seq![d@]);
                assert(values_of(cur@) + seq![d@] =~= leaf_digests_of(leaves_view(leaves@)).take(
                    i + 1,
                ));
            }
            cur.push(d);
            i += 1;
        }
        proof {
            assert(leaf_digests_of(leaves_view(leaves@)).take(n as int) =~= leaf_digests_of(
                leaves_view(leaves@),
            ));
        }

        let mut levels: Vec<Vec<FieldElem>> = Vec::new();
        levels.push(cur);
        let ghost digests0 = leaf_digests_of(leaves_view(leaves@));
        while levels[levels.len() - 1].len() > 1
            invariant
                params.wf(),
                levels@.len() >= 1,
                forall|k: int| 0 <= k < levels@.len() ==> all_wf(#[trigger] levels@[k]@),
                forall|k: int| 0 <= k < levels@.len() - 1 ==> #[trigger] levels_step_ok(levels@, k),
                values_of(levels@[0]@) == digests0,
                is_pow2(values_of(levels@[levels@.len() - 1]@).len()),
            decreases levels@[levels@.len() - 1]@.len(),
        {
            let top = levels.len() - 1;
            let len = levels[top].len();
            proof {
                assert(is_pow2(len as nat));
                assert(len % 2 == 0);
            }
            let half = len / 2;
            let mut next: Vec<FieldElem> = Vec::new();
            let mut j: usize = 0;
            while j < half
                invariant
                    params.wf(),
                    levels@.len() >= 1,
                    top == levels@.len() - 1,
                    len == levels@[top as int]@.len(),
                    half == len / 2,
                    len % 2 == 0,
                    len >= 2,
                    all_wf(levels@[top as int]@),
                    0 <= j <= half,
                    next@.len() == j,
                    all_wf(next@),
                    values_of(next@) == compress_level(values_of(levels@[top as int]@)).take(
                        j as int,
                    ),
                decreases half - j,
            {
                let left = &levels[top][2 * j];
                let right = &levels[top][2 * j + 1];
                let d = two_to_one_hash(params, left, right);
                proof {
                    assert(values_of(next@.push(d)) =~= values_of(next@) + seq![d@]);
                    assert(values_of(next@) + seq![d@] =~= compress_level(values_of(
                        levels@[top as int]@,
                    )).take(j + 1));
                }
                next.push(d);
                j += 1;
            }
            proof {
                assert(compress_level(values_of(levels@[top as int]@)).take(half as int)
                    =~= compress_level(values_of(levels@[top as int]@)));
            }
            let ghost old_levels = levels@;
            levels.push(next);
            proof {
                assert forall|k: int| 0 <= k < levels@.len() - 1 implies #[trigger] levels_step_ok(
                    levels@,
                    k,
                ) by {
                    if k < top as int {
                        assert(levels_step_ok(old_levels, k));
                        assert(levels@[k] == old_levels[k]);
                        assert(levels@[k + 1] == old_levels[k + 1]);
                    } else {
                        assert(k == top as int);
                        assert(values_of(levels@[k + 1]@) == compress_level(values_of(
                            levels@[k]@,
                        )));
                    }
                }
                assert(is_pow2(values_of(levels@[levels@.len() - 1]@).len()));
            }
        }
        let acc = MerkleAccumulator { levels };
        proof {
            assert(acc.wf());
            acc.lemma_root_from_level(0);
        }
        Ok(acc)
    }

    /// The number of leaves the accumulator was built over.
    pub fn num_leaves(&self) -> (r: usize)
        requires
            self.wf(),
        ensures
            r == self.leaf_count(),
    {
        self.levels[0].len()
    }

    /// The root digest.
    pub fn root(&self) -> (r: FieldElem)
        requires
            self.wf(),
        ensures
            r.wf(),
            r@ == self.root_val(),
            r@ == root_of_digests(self.leaf_digests()),
    {
        proof {
            self.lemma_root_from_level(0);
            assert(all_wf(self.levels@[self.height()]@));
        }
        let top = self.levels.len() - 1;
        self.levels[top][0].duplicate()
    }

    /// The authentication path of the leaf at `index`: its sibling digests
    /// from the leaf level up. Fails exactly when the index is out of range.
    pub fn path(&self, index: usize) -> (r: Result<AuthenticationPath, AccumulatorError>)
        requires
            self.wf(),
        ensures
            match r {
                Ok(p) => {
                    &&& index < self.leaf_count()
                    &&& p.index == index
                    &&& p.wf()
                    &&& values_of(p.siblings@) == siblings_of(self.leaf_digests(), index as nat)
                    &&& path_root(self.leaf_digests()[index as int], index as nat, values_of(
                        p.siblings@,
                    )) == self.root_val()
                },
                Err(e) => e == AccumulatorError::IndexError && index >= self.leaf_count(),
            },
    {
        if index >= self.levels[0].len() {
            return Err(AccumulatorError::IndexError);
        }
        let mut sibs: Vec<FieldElem> = Vec::new();
        let mut idx: usize = index;
        let mut k: usize = 0;
        let height = self.levels.len() - 1;
        while k < height
            invariant
                self.wf(),
                0 <= k <= height,
                height == self.levels@.len() - 1,
                idx < self.level_vals(k as int).len(),
                sibs@.len() == k,
                all_wf(sibs@),
                values_of(sibs@) + siblings_of(self.level_vals(k as int), idx as nat)
                    == siblings_of(self.leaf_digests(), index as nat),
            decreases height - k,
        {
            proof {
                assert(self.level_step_ok(k as int));
                lemma_fundamental_div_mod(idx as int, 2);
                lemma_fundamental_div_mod(self.level_vals(k as int).len() as int, 2);
            }
            let sib = if idx % 2 == 0 {
                self.levels[k][idx + 1].duplicate()
            } else {
                self.levels[k][idx - 1].duplicate()
            };
            proof {
                let lv = self.level_vals(k as int);
                assert(siblings_of(lv, idx as nat).skip(1) =~= siblings_of(compress_level(lv), (
                idx as nat) / 2));
                assert(values_of(sibs@.push(sib)) =~= values_of(sibs@) + seq![sib@]);
                assert((values_of(sibs@) + seq![sib@]) + siblings_of(self.level_vals(
                    k + 1,
                ), (idx as nat) / 2) =~= values_of(sibs@) + siblings_of(lv, idx as nat));
            }
            sibs.push(sib);
            idx = idx / 2;
            k += 1;
        }
        proof {
            assert(self.level_vals(height as int).len() == 1);
            assert(siblings_of(self.level_vals(height as int), idx as nat) =~= Seq::<nat>::empty());
            assert(values_of(sibs@) + Seq::<nat>::empty() =~= values_of(sibs@));
            lemma_path_recomputes_root(self.leaf_digests(), index as nat);
            self.lemma_root_from_level(0);
        }
        Ok(AuthenticationPath { siblings: sibs, index })
    }
}

/// Recomputes the digest chain from a leaf through an authentication path
/// and compares it with the claimed root. This is the native twin of the
/// circuit's membership check: the same fold, digest for digest.
pub fn verify_membership(
    params: &HashParams,
    root: &FieldElem,
    leaf: &Vec<FieldElem>,
    path: &AuthenticationPath,
) -> (b: bool)
    requires
        params.wf(),
        root.wf(),
        leaf@.len() >= 1,
        all_wf(leaf@),
        path.wf(),
    ensures
        b == (path_root(leaf_hash_of(values_of(leaf@)), path.index as nat, values_of(path.siblings@))
            == root@),
{
    let mut cur = leaf_hash(params, leaf);
    let mut idx: usize = path.index;
    let n = path.siblings.len();
    proof {
        assert(values_of(path.siblings@).skip(0) =~= values_of(path.siblings@));
    }
    let mut k: usize = 0;
    while k < n
        invariant
            params.wf(),
            path.wf(),
            cur.wf(),
            0 <= k <= n,
            n == path.siblings@.len(),
            path_root(cur@, idx as nat, values_of(path.siblings@).skip(k as int)) == path_root(
                leaf_hash_of(values_of(leaf@)),
                path.index as nat,
                values_of(path.siblings@),
            ),
        decreases n - k,
    {
        proof {
            lemma_fundamental_div_mod(idx as int, 2);
            assert(values_of(path.siblings@).skip(k as int)[0] == path.siblings@[k as int]@);
            assert(values_of(path.siblings@).skip(k as int).skip(1) =~= values_of(
                path.siblings@,
            ).skip(k + 1));
        }
        let sib = &path.siblings[k];
        cur = if idx % 2 == 0 {
            two_to_one_hash(params, &cur, sib)
        } else {
            two_to_one_hash(params, sib, &cur)
        };
        idx = idx / 2;
        k += 1;
    }
    proof {
        assert(values_of(path.siblings@).skip(n as int) =~= Seq::<nat>::empty());
    }
    cur.equals(root)
}

/// Two distinct input pairs of the two-to-one hash with the same digest.
pub open spec fn two_to_one_collision(l1: nat, r1: nat, l2: nat, r2: nat) -> bool {
    &&& (l1 != l2 || r1 != r2)
    &&& two_to_one_hash_of(l1, r1) == two_to_one_hash_of(l2, r2)
}

/// Some collision of the two-to-one hash exists.
pub open spec fn exists_two_to_one_collision() -> bool {
    exists|l1: nat, r1: nat, l2: nat, r2: nat| two_to_one_collision(l1, r1, l2, r2)
}

/// Two different digests at the same position can only recompute the same
/// root if the two-to-one hash has a collision.
pub proof fn lemma_distinct_digests_collide(d1: nat, d2: nat, index: nat, siblings: Seq<nat>)
    requires
        d1 != d2,
    ensures
        path_root(d1, index, siblings) == path_root(d2, index, siblings)
            ==> exists_two_to_one_collision(),
    decreases siblings.len(),
{
    if siblings.len() == 0 {
    } else {
        let s = siblings[0];
        if index % 2 == 0 {
            let p1 = two_to_one_hash_of(d1, s);
            let p2 = two_to_one_hash_of(d2, s);
            if p1 == p2 {
                assert(two_to_one_collision(d1, s, d2, s));
            } else {
                lemma_distinct_digests_collide(p1, p2, index / 2, siblings.skip(1));
            }
        } else {
            let p1 = two_to_one_hash_of(s, d1);
            let p2 = two_to_one_hash_of(s, d2);
            if p1 == p2 {
                assert(two_to_one_collision(s, d1, s, d2));
            } else {
                lemma_distinct_digests_collide(p1, p2, index / 2, siblings.skip(1));
            }
        }
    }
}

/// Tamper sensitivity of authentication paths: flipping any single sibling
/// digest changes the recomputed root, unless the two digest pairs hashed
/// at that level (or two pairs further up) collide under the two-to-one
/// hash. What remains outside the model is exactly the hash's collision
/// resistance.
pub proof fn lemma_tampered_sibling_detected(
    digest: nat,
    index: nat,
    siblings: Seq<nat>,
    k: int,
    forged: nat,
)
    requires
        0 <= k < siblings.len(),
        forged != siblings[k],
    ensures
        path_root(digest, index, siblings.update(k, forged)) == path_root(digest, index, siblings)
            ==> exists_two_to_one_collision(),
    decreases siblings.len(),
{
    let t = siblings.update(k, forged);
    if k == 0 {
        assert(t.skip(1) =~= siblings.skip(1));
        if index % 2 == 0 {
            let p1 = two_to_one_hash_of(digest, forged);
            let p2 = two_to_one_hash_of(digest, siblings[0]);
            if p1 == p2 {
                assert(two_to_one_collision(digest, forged, digest, siblings[0]));
            } else {
                lemma_distinct_digests_collide(p1, p2, index / 2, siblings.skip(1));
            }
        } else {
            let p1 = two_to_one_hash_of(forged, digest);
            let p2 = two_to_one_hash_of(siblings[0], digest);
            if p1 == p2 {
                assert(two_to_one_collision(forged, digest, siblings[0], digest));
            } else {
                lemma_distinct_digests_collide(p1, p2, index / 2, siblings.skip(1));
            }
        }
    } else {
        assert(t[0] == siblings[0]);
        assert(t.skip(1) =~= siblings.skip(1).update(k - 1, forged));
        let parent = if index % 2 == 0 {
            two_to_one_hash_of(digest, siblings[0])
        } else {
            two_to_one_hash_of(siblings[0], digest)
        };
        lemma_tampered_sibling_detected(parent, index / 2, siblings.skip(1), k - 1, forged);
    }
}

} // verus!
