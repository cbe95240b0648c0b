//! The spend relation end to end: honest spends, rejected nullifiers, and
//! the double-nullifier construction; plus cross-checks of the commitment,
//! conjugate and nullifier derivations against the outside crates evaluated
//! directly.

use ark_crypto_primitives::crh::CRHScheme;
use ark_crypto_primitives::sponge::poseidon::{find_poseidon_ark_and_mds, PoseidonConfig};
use ark_ec::AffineRepr;
use ark_ec::CurveGroup;
use ark_ff::PrimeField;

use shielded_spend::commit::{commitment_leaf, conjugate_secret};
use shielded_spend::field::FieldElem;
use shielded_spend::hash::HashParams;
use shielded_spend::merkle::MerkleAccumulator;
use shielded_spend::spend::{SpendCircuit, double_spend, nullifier_of};

fn leaves_for_secrets(secrets: &[u64]) -> Vec<Vec<FieldElem>> {
    secrets
        .iter()
        .map(|s| vec![commitment_leaf(&FieldElem::from_u64(*s))])
        .collect()
}

fn circuit_for(secret: u64, index: usize, secrets: &[u64]) -> (SpendCircuit, MerkleAccumulator) {
    let params = HashParams::generate();
    let leaves = leaves_for_secrets(secrets);
    let acc = MerkleAccumulator::build(&params, &leaves).unwrap();
    let root = acc.root();
    let path = acc.path(index).unwrap();
    let secret = FieldElem::from_u64(secret);
    let nullifier = nullifier_of(&params, &secret);
    let circuit = SpendCircuit {
        leaf_params: params,
        two_to_one_params: HashParams::generate(),
        root,
        auth_path: path,
        secret,
        nullifier,
    };
    (circuit, acc)
}

#[test]
fn honest_spend_relation_satisfied() {
    let secrets = [101u64, 202, 303, 404];
    let (circuit, _) = circuit_for(303, 2, &secrets);
    assert!(circuit.is_satisfied());
}

#[test]
fn wrong_nullifier_makes_relation_unsatisfiable() {
    let secrets = [101u64, 202, 303, 404];
    let (mut circuit, _) = circuit_for(303, 2, &secrets);
    let forged = FieldElem::from_u64(0);
    assert!(!circuit.nullifier.equals(&forged));
    circuit.nullifier = forged;
    assert!(!circuit.is_satisfied());
}

#[test]
fn wrong_secret_makes_relation_unsatisfiable() {
    let secrets = [101u64, 202, 303, 404];
    let (mut circuit, _) = circuit_for(303, 2, &secrets);
    let params = HashParams::generate();
    let other = FieldElem::from_u64(404);
    circuit.nullifier = nullifier_of(&params, &other);
    circuit.secret = other;
    assert!(!circuit.is_satisfied());
}

#[test]
fn double_spend_two_nullifiers_same_root() {
    let secrets = [101u64, 202, 303, 404];
    let (circuit, _) = circuit_for(303, 2, &secrets);
    assert!(circuit.is_satisfied());

    let (conj, conj_nullifier) = double_spend(&circuit).unwrap();

    // A different secret with a different nullifier...
    assert!(!conj.equals(&circuit.secret));
    assert!(!conj_nullifier.equals(&circuit.nullifier));

    // ...that commits to the very same leaf...
    assert!(commitment_leaf(&conj).equals(&commitment_leaf(&circuit.secret)));

    // ...and satisfies the spend relation against the same root and path.
    let second = SpendCircuit {
        leaf_params: HashParams::generate(),
        two_to_one_params: HashParams::generate(),
        root: circuit.root.duplicate(),
        auth_path: shielded_spend::merkle::AuthenticationPath {
            siblings: circuit.auth_path.siblings.iter().map(|s| s.duplicate()).collect(),
            index: circuit.auth_path.index,
        },
        secret: conj,
        nullifier: conj_nullifier,
    };
    assert!(second.is_satisfied());
}

#[test]
fn double_spend_rejects_unsatisfied_instance() {
    let secrets = [101u64, 202, 303, 404];
    let (mut circuit, _) = circuit_for(303, 2, &secrets);
    circuit.root = FieldElem::from_u64(5);
    assert!(!circuit.is_satisfied());
    assert!(double_spend(&circuit).is_none());
}

#[test]
fn double_spend_rejects_zero_secret() {
    let params = HashParams::generate();
    let zero = FieldElem::from_u64(0);
    let leaves = vec![
        vec![commitment_leaf(&zero)],
        vec![commitment_leaf(&FieldElem::from_u64(9))],
    ];
    let acc = MerkleAccumulator::build(&params, &leaves).unwrap();
    let circuit = SpendCircuit {
        leaf_params: HashParams::generate(),
        two_to_one_params: HashParams::generate(),
        root: acc.root(),
        auth_path: acc.path(0).unwrap(),
        secret: zero,
        nullifier: nullifier_of(&params, &FieldElem::from_u64(0)),
    };
    assert!(circuit.is_satisfied());
    assert!(double_spend(&circuit).is_none());
}

#[test]
fn conjugate_secret_matches_group_order_negation() {
    let s = FieldElem::from_u64(12345);
    let conj = conjugate_secret(&s);
    let expected = -ark_mnt6_753::Fr::from(12345u64);
    assert_eq!(conj.limbs, expected.into_bigint().0.to_vec());
    let back = conjugate_secret(&conj);
    assert_eq!(back.limbs, s.limbs);
}

#[test]
fn commitment_leaf_matches_group_scalar_mul() {
    let s = FieldElem::from_u64(98765);
    let leaf = commitment_leaf(&s);
    let point = ark_mnt6_753::G1Affine::generator()
        .mul_bigint(&[98765u64])
        .into_affine();
    assert_eq!(leaf.limbs, point.x.into_bigint().0.to_vec());

    let conj_leaf = commitment_leaf(&conjugate_secret(&s));
    assert_eq!(conj_leaf.limbs, leaf.limbs);
}

#[test]
fn nullifier_matches_outside_poseidon() {
    let params = HashParams::generate();
    let n = nullifier_of(&params, &FieldElem::from_u64(7));
    let (ark, mds) = find_poseidon_ark_and_mds::<ark_mnt4_753::Fr>(753, 2, 8, 31, 0);
    let cfg = PoseidonConfig::new(8, 31, 17, mds, ark, 2, 1);
    let out = ark_crypto_primitives::crh::poseidon::CRH::<ark_mnt4_753::Fr>::evaluate(
        &cfg,
        vec![ark_mnt4_753::Fr::from(7u64)],
    )
    .unwrap();
    assert_eq!(n.limbs, out.into_bigint().0.to_vec());
}

#[test]
fn nullifier_differs_from_secret_and_per_secret() {
    let params = HashParams::generate();
    let a = FieldElem::from_u64(7);
    let b = FieldElem::from_u64(8);
    let na = nullifier_of(&params, &a);
    let nb = nullifier_of(&params, &b);
    assert!(!na.equals(&a));
    assert!(!na.equals(&nb));
    assert!(nullifier_of(&params, &a).equals(&na));
}
