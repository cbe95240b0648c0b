//! The spend relation: the constraints a spend proof must satisfy, checked
//! natively digest-for-digest as the circuit checks them, and the
//! conjugate-secret construction that satisfies the same relation twice.
//!
//! The relation binds a witnessed secret and authentication path to the
//! public root and nullifier: the secret is range-checked against the
//! key-derivation group's order, the nullifier must be the leaf hash of the
//! secret, and the leaf hash of the secret's public-key x-coordinate must
//! recompute the root along the path.
//!
//! Because the leaf depends on the public key only through its x-coordinate,
//! a secret `s` and its conjugate `scalar_modulus() - s` commit to the same
//! leaf yet hash to different nullifiers: one accumulated leaf is spendable
//! twice. `double_spend` constructs the second (secret, nullifier) pair in
//! verified code and `lemma_conjugate_spend` states why it satisfies the
//! relation.

use vstd::prelude::*;
use crate::field::{
    FieldElem, values_of, scalar_modulus, scalar_mod_limbs, scalar_modulus_limbs,
    lemma_moduli_facts,
};
use crate::limbs::limbs_lt;
use crate::hash::{HashParams, leaf_hash, leaf_hash_of};
use crate::commit::{pk_x_of, derive_leaf, conjugate_secret};
use crate::merkle::{
    path_root, verify_membership, AuthenticationPath, leaf_digests_of, siblings_of,
    root_of_digests, is_pow2, lemma_path_recomputes_root,
};

verus! {

/// The arithmetic relation of a spend: public `root` and `nullifier`,
/// witnessed `secret` and authentication path.
pub open spec fn spend_relation(
    root: nat,
    nullifier: nat,
    secret: nat,
    index: nat,
    siblings: Seq<nat>,
) -> bool {
    &&& secret < scalar_modulus()
    &&& nullifier == leaf_hash_of(seq![secret])
    &&& path_root(leaf_hash_of(seq![pk_x_of(secret)]), index, siblings) == root
}

/// One spend attempt: hash parameters, the public (root, nullifier) pair,
/// and the witnessed secret and authentication path.
pub struct SpendCircuit {
    pub leaf_params: HashParams,
    pub two_to_one_params: HashParams,
    pub root: FieldElem,
    pub auth_path: AuthenticationPath,
    pub secret: FieldElem,
    pub nullifier: FieldElem,
}

impl SpendCircuit {
    pub open spec fn wf(&self) -> bool {
        &&& self.leaf_params.wf()
        &&& self.two_to_one_params.wf()
        &&& self.root.wf()
        &&& self.auth_path.wf()
        &&& self.secret.wf()
        &&& self.nullifier.wf()
    }

    /// Whether this instance satisfies the spend relation.
    pub open spec fn relation_holds(&self) -> bool {
        spend_relation(
            self.root@,
            self.nullifier@,
            self.secret@,
            self.auth_path.index as nat,
            values_of(self.auth_path.siblings@),
        )
    }

    /// Evaluates the relation natively, constraint for constraint as the
    /// circuit enforces it: the range check on the secret, the nullifier
    /// equation, the public-key derivation and the membership check.
    pub fn is_satisfied(&self) -> (b: bool)
        requires
            self.wf(),
        ensures
            b == self.relation_holds(),
            0 < self.secret@ < scalar_modulus() ==> pk_x_of(
                (scalar_modulus() - self.secret@) as nat,
            ) == pk_x_of(self.secret@),
    {
        let m = scalar_modulus_limbs();
        proof {
            assert(scalar_mod_limbs().len() == 12);
        }
        let within_range = limbs_lt(&self.secret.limbs, &m);

        let mut input: Vec<FieldElem> = Vec::new();
        input.push(self.secret.duplicate());
        let n = leaf_hash(&self.leaf_params, &input);
        proof {
            assert(values_of(input@) =~= seq![self.secret@]);
        }
        let nullifier_ok = n.equals(&self.nullifier);

        let leaf_x = derive_leaf(&self.secret);
        let mut leaf: Vec<FieldElem> = Vec::new();
        leaf.push(leaf_x);
        proof {
            assert(values_of(leaf@) =~= seq![pk_x_of(self.secret@)]);
        }
        let member = verify_membership(&self.two_to_one_params, &self.root, &leaf, &self.auth_path);

        within_range && nullifier_ok && member
    }
}

/// The nullifier of a secret: the leaf hash of the secret alone. Publishing
/// it marks the secret's commitment as spent without revealing the secret.
pub fn nullifier_of(params: &HashParams, secret: &FieldElem) -> (r: FieldElem)
    requires
        params.wf(),
        secret.wf(),
    ensures
        r.wf(),
        r@ == leaf_hash_of(seq![secret@]),
{
    let mut input: Vec<FieldElem> = Vec::new();
    input.push(secret.duplicate());
    let r = leaf_hash(params, &input);
    proof {
        assert(values_of(input@) =~= seq![secret@]);
    }
    r
}

/// A nullifier that is not the leaf hash of the witnessed secret makes the
/// relation unsatisfiable, whatever the rest of the instance holds.
pub proof fn lemma_wrong_nullifier_unsatisfiable(
    root: nat,
    nullifier: nat,
    secret: nat,
    index: nat,
    siblings: Seq<nat>,
)
    ensures
        nullifier != leaf_hash_of(seq![secret]) ==> !spend_relation(
            root,
            nullifier,
            secret,
            index,
            siblings,
        ),
{
}

/// An honest spend satisfies the relation: if the leaf at `i` is exactly
/// the secret's public-key x-coordinate, then the accumulator's root, the
/// secret's nullifier, and the siblings of `i` satisfy the spend relation.
pub proof fn lemma_honest_spend_satisfied(leaves: Seq<Seq<nat>>, i: nat, secret: nat)
    requires
        is_pow2(leaves.len()),
        i < leaves.len(),
        secret < scalar_modulus(),
    ensures
        leaves[i as int] == seq![pk_x_of(secret)] ==> spend_relation(
            root_of_digests(leaf_digests_of(leaves)),
            leaf_hash_of(seq![secret]),
            secret,
            i,
            siblings_of(leaf_digests_of(leaves), i),
        ),
{
    if leaves[i as int] == seq![pk_x_of(secret)] {
        lemma_path_recomputes_root(leaf_digests_of(leaves), i);
        assert(leaf_digests_of(leaves)[i as int] == leaf_hash_of(leaves[i as int]));
    }
}

/// The double-nullifier property: a secret's conjugate is a different
/// scalar, and whenever the secret satisfies the relation, shares its
/// public-key x-coordinate and gets its own nullifier, the conjugate
/// satisfies the relation too — against the same root and the same path.
pub proof fn lemma_conjugate_spend(
    root: nat,
    nullifier: nat,
    secret: nat,
    conj: nat,
    conj_nullifier: nat,
    index: nat,
    siblings: Seq<nat>,
)
    requires
        0 < secret < scalar_modulus(),
        conj == scalar_modulus() - secret,
    ensures
        conj != secret,
        (spend_relation(root, nullifier, secret, index, siblings) && pk_x_of(conj) == pk_x_of(
            secret,
        ) && conj_nullifier == leaf_hash_of(seq![conj])) ==> spend_relation(
            root,
            conj_nullifier,
            conj,
            index,
            siblings,
        ),
{
    lemma_moduli_facts();
    if conj == secret {
        assert(scalar_modulus() % 2 == 0) by (nonlinear_arith)
            requires
                2 * secret == scalar_modulus(),
        ;
    }
    if pk_x_of(conj) == pk_x_of(secret) {
        assert(seq![pk_x_of(conj)] =~= seq![pk_x_of(secret)]);
    }
}

/// Given a satisfied spend instance with a secret strictly inside the
/// scalar range, produces the second (secret, nullifier) pair that spends
/// the same leaf: the conjugate secret and its nullifier. Returns `None`
/// exactly when the instance is unsatisfied or the secret is outside that
/// range.
pub fn double_spend(c: &SpendCircuit) -> (r: Option<(FieldElem, FieldElem)>)
    requires
        c.wf(),
    ensures
        match r {
            Some(pair) => {
                &&& c.relation_holds()
                &&& 0 < c.secret@ < scalar_modulus()
                &&& pair.0.wf() && pair.1.wf()
                &&& pair.0@ == scalar_modulus() - c.secret@
                &&& pair.0@ != c.secret@
                &&& pair.1@ == leaf_hash_of(seq![pair.0@])
                &&& spend_relation(
                    c.root@,
                    pair.1@,
                    pair.0@,
                    c.auth_path.index as nat,
                    values_of(c.auth_path.siblings@),
                )
            },
            None => !(c.relation_holds() && 0 < c.secret@ < scalar_modulus()),
        },
{
    if !c.is_satisfied() {
        return None;
    }
    if c.secret.is_zero() {
        return None;
    }
    let m = scalar_modulus_limbs();
    proof {
        assert(scalar_mod_limbs().len() == 12);
    }
    if !limbs_lt(&c.secret.limbs, &m) {
        return None;
    }
    let t = conjugate_secret(&c.secret);
    let mut input: Vec<FieldElem> = Vec::new();
    input.push(t.duplicate());
    let n2 = leaf_hash(&c.leaf_params, &input);
    proof {
        assert(values_of(input@) =~= seq![t@]);
        lemma_conjugate_spend(
            c.root@,
            c.nullifier@,
            c.secret@,
            t@,
            n2@,
            c.auth_path.index as nat,
            values_of(c.auth_path.siblings@),
        );
    }
    Some((t, n2))
}

} // verus!
