//! Commitment derivation: a secret scalar is mapped to a public-key point by
//! fixed-base scalar multiplication, and the point's x-coordinate becomes the
//! leaf committed into the accumulator.
//!
//! Because only the x-coordinate survives, a secret `s` and its conjugate
//! `scalar_modulus() - s` — whose points are negatives of one another and so
//! share an x-coordinate — commit to the same leaf. `conjugate_secret`
//! computes that second secret in verified code.

use vstd::prelude::*;
use crate::field::{FieldElem, scalar_modulus, scalar_modulus_limbs, lemma_moduli_facts};
use crate::limbs::limbs_sub;
use ark_ec::AffineRepr;
use ark_ec::CurveGroup;
use ark_ff::PrimeField;

verus! {

/// The x-coordinate of `secret · BasePoint` on the key-derivation group,
/// as a function of the secret's integer value.
pub uninterp spec fn pk_x_of(secret: nat) -> nat;

/// Relies on `ark_ec::AffineRepr::mul_bigint` and `into_affine` on the
/// key-derivation group's generator: the product is a deterministic function
/// of the scalar's limbs alone, and the affine x-coordinate is a canonical
/// field element.
///
/// The second clause relies on the group having prime order
/// `scalar_modulus()` (its cofactor is 1), so `(scalar_modulus() - s)·G` is
/// the negative of `s·G`, and on affine negation on a short-Weierstrass curve
/// flipping only the y-coordinate: the two points share their x-coordinate.
#[verifier::external_body]
pub(crate) fn derive_leaf(secret: &FieldElem) -> (r: FieldElem)
    requires
        secret.wf(),
    ensures
        r.wf(),
        r@ == pk_x_of(secret@),
        0 < secret@ < scalar_modulus() ==> r@ == pk_x_of((scalar_modulus() - secret@) as nat),
{
    let pt = ark_mnt6_753::G1Affine::generator()
        .mul_bigint(secret.limbs.as_slice())
        .into_affine();
    FieldElem { limbs: pt.x.into_bigint().0.to_vec() }
}

/// Derives the leaf commitment of a secret: the x-coordinate of the
/// public-key point `secret · BasePoint`.
pub fn commitment_leaf(secret: &FieldElem) -> (r: FieldElem)
    requires
        secret.wf(),
    ensures
        r.wf(),
        r@ == pk_x_of(secret@),
        0 < secret@ < scalar_modulus() ==> pk_x_of((scalar_modulus() - secret@) as nat) == r@,
{
    derive_leaf(secret)
}

/// The conjugate of a secret: the other scalar whose public-key point has
/// the same x-coordinate, namely `scalar_modulus() - secret`. It is always
/// distinct from the secret itself, because the group order is odd.
pub fn conjugate_secret(secret: &FieldElem) -> (r: FieldElem)
    requires
        secret.wf(),
        0 < secret@ < scalar_modulus(),
    ensures
        r.wf(),
        r@ == scalar_modulus() - secret@,
        r@ != secret@,
        0 < r@ < scalar_modulus(),
{
    let m = scalar_modulus_limbs();
    proof {
        lemma_moduli_facts();
    }
    let limbs = limbs_sub(&m, &secret.limbs);
    proof {
        let v = (scalar_modulus() - secret@) as nat;
        if v == secret@ {
            assert(2 * secret@ == scalar_modulus());
            assert(scalar_modulus() % 2 == 0) by (nonlinear_arith)
                requires
                    2 * secret@ == scalar_modulus(),
            ;
        }
    }
    FieldElem { limbs }
}

} // verus!
