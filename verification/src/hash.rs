//! The two algebraic hash functions of the accumulator and the circuit: a
//! leaf hash over sequences of field elements and a two-to-one compression
//! hash over digest pairs.
//!
//! Both are Poseidon permutations over the circuit field, evaluated by an
//! outside crate. Their outputs have no short description, so the library
//! names them (`leaf_hash_of`, `two_to_one_hash_of`) and states everything
//! else — the accumulator, the spend relation, the double-spend construction —
//! in terms of those names.

use vstd::prelude::*;
use crate::field::FieldElem;
use ark_crypto_primitives::crh::CRHScheme;
use ark_crypto_primitives::crh::TwoToOneCRHScheme;
use ark_crypto_primitives::sponge::poseidon::{find_poseidon_ark_and_mds, PoseidonConfig};
use ark_ff::PrimeField;

verus! {

/// The Poseidon instance used throughout: a sponge over the 753-bit circuit
/// field with rate 2 and capacity 1, 8 full and 31 partial rounds, S-box
/// x^17, and round constants and matrix generated deterministically from
/// those numbers. Every `HashParams` produced by `generate` holds exactly
/// this configuration, so hash outputs depend on the input alone.
pub struct HashParams {
    prime_bits: u64,
    rate: u64,
    capacity: u64,
    full_rounds: u64,
    partial_rounds: u64,
    alpha: u64,
}

impl HashParams {
    /// The canonical configuration, and the only one `generate` yields.
    pub closed spec fn wf(&self) -> bool {
        &&& self.prime_bits == 753
        &&& self.rate == 2
        &&& self.capacity == 1
        &&& self.full_rounds == 8
        &&& self.partial_rounds == 31
        &&& self.alpha == 17
    }

    /// The system's fixed hash parameters.
    pub fn generate() -> (r: HashParams)
        ensures
            r.wf(),
    {
        HashParams {
            prime_bits: 753,
            rate: 2,
            capacity: 1,
            full_rounds: 8,
            partial_rounds: 31,
            alpha: 17,
        }
    }
}

/// The digest of the leaf hash on a sequence of field values.
pub uninterp spec fn leaf_hash_of(input: Seq<nat>) -> nat;

/// The digest of the two-to-one compression hash on a pair of field values.
pub uninterp spec fn two_to_one_hash_of(left: nat, right: nat) -> nat;

/// Relies on `ark_crypto_primitives::crh::poseidon::CRH::evaluate` with the
/// configuration built by `find_poseidon_ark_and_mds` from the fixed numbers
/// in `HashParams`: both are deterministic functions of their arguments, so
/// the digest is a function of the input values alone; the sponge squeezes
/// one canonical field element.
#[verifier::external_body]
pub(crate) fn leaf_hash(params: &HashParams, input: &Vec<FieldElem>) -> (r: FieldElem)
    requires
        params.wf(),
        input@.len() >= 1,
        crate::field::all_wf(input@),
    ensures
        r.wf(),
        r@ == leaf_hash_of(crate::field::values_of(input@)),
{
    let (ark, mds) = find_poseidon_ark_and_mds::<ark_mnt4_753::Fr>(
        params.prime_bits, params.rate as usize, params.full_rounds, params.partial_rounds, 0);
    let cfg = PoseidonConfig::new(
        params.full_rounds as usize, params.partial_rounds as usize, params.alpha,
        mds, ark, params.rate as usize, params.capacity as usize);
    let elems: Vec<ark_mnt4_753::Fr> = input.iter()
        .map(|f| ark_mnt4_753::Fr::from_bigint(
            ark_ff::BigInt::new(f.limbs.as_slice().try_into().unwrap())).unwrap())
        .collect();
    let out = ark_crypto_primitives::crh::poseidon::CRH::<ark_mnt4_753::Fr>::evaluate(&cfg, elems)
        .unwrap();
    FieldElem { limbs: out.into_bigint().0.to_vec() }
}

/// Relies on `ark_crypto_primitives::crh::poseidon::TwoToOneCRH::evaluate`
/// with the same deterministically generated configuration: the digest is a
/// function of the two input values alone, squeezed as one canonical field
/// element.
#[verifier::external_body]
pub(crate) fn two_to_one_hash(params: &HashParams, left: &FieldElem, right: &FieldElem) -> (r: FieldElem)
    requires
        params.wf(),
        left.wf(),
        right.wf(),
    ensures
        r.wf(),
        r@ == two_to_one_hash_of(left@, right@),
{
    let (ark, mds) = find_poseidon_ark_and_mds::<ark_mnt4_753::Fr>(
        params.prime_bits, params.rate as usize, params.full_rounds, params.partial_rounds, 0);
    let cfg = PoseidonConfig::new(
        params.full_rounds as usize, params.partial_rounds as usize, params.alpha,
        mds, ark, params.rate as usize, params.capacity as usize);
    let l = ark_mnt4_753::Fr::from_bigint(
        ark_ff::BigInt::new(left.limbs.as_slice().try_into().unwrap())).unwrap();
    let r = ark_mnt4_753::Fr::from_bigint(
        ark_ff::BigInt::new(right.limbs.as_slice().try_into().unwrap())).unwrap();
    let out = ark_crypto_primitives::crh::poseidon::TwoToOneCRH::<ark_mnt4_753::Fr>::evaluate(
        &cfg, l, r).unwrap();
    FieldElem { limbs: out.into_bigint().0.to_vec() }
}

} // verus!
