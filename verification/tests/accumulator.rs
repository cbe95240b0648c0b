//! Accumulator behaviour: round trips, tamper sensitivity, and the error
//! cases of building and path generation.

use shielded_spend::field::FieldElem;
use shielded_spend::field::field_elem_from_limbs;
use shielded_spend::field::field_modulus_limbs;
use shielded_spend::hash::HashParams;
use shielded_spend::merkle::{AccumulatorError, MerkleAccumulator, verify_membership};

fn single_element_leaves(values: &[u64]) -> Vec<Vec<FieldElem>> {
    values.iter().map(|v| vec![FieldElem::from_u64(*v)]).collect()
}

#[test]
fn round_trip_all_indices() {
    let params = HashParams::generate();
    let leaves = single_element_leaves(&[10, 20, 30, 40]);
    let acc = MerkleAccumulator::build(&params, &leaves).unwrap();
    let root = acc.root();
    assert_eq!(acc.num_leaves(), 4);
    for i in 0..4usize {
        let path = acc.path(i).unwrap();
        assert!(verify_membership(&params, &root, &leaves[i], &path));
    }
}

#[test]
fn wrong_leaf_fails_membership() {
    let params = HashParams::generate();
    let leaves = single_element_leaves(&[10, 20, 30, 40]);
    let acc = MerkleAccumulator::build(&params, &leaves).unwrap();
    let root = acc.root();
    let path = acc.path(1).unwrap();
    let other = vec![FieldElem::from_u64(21)];
    assert!(!verify_membership(&params, &root, &other, &path));
}

#[test]
fn tampered_sibling_rejected() {
    let params = HashParams::generate();
    let leaves = single_element_leaves(&[10, 20, 30, 40]);
    let acc = MerkleAccumulator::build(&params, &leaves).unwrap();
    let root = acc.root();
    for i in 0..4usize {
        let good = acc.path(i).unwrap();
        assert!(verify_membership(&params, &root, &leaves[i], &good));
        for k in 0..good.siblings.len() {
            let mut forged = acc.path(i).unwrap();
            let mut limbs = forged.siblings[k].limbs.clone();
            limbs[0] ^= 1;
            let bad_sibling = field_elem_from_limbs(limbs).unwrap();
            forged.siblings[k] = bad_sibling;
            assert!(!verify_membership(&params, &root, &leaves[i], &forged));
        }
    }
}

#[test]
fn build_rejects_non_power_of_two() {
    let params = HashParams::generate();
    let leaves = single_element_leaves(&[10, 20, 30]);
    assert!(matches!(
        MerkleAccumulator::build(&params, &leaves),
        Err(AccumulatorError::ParameterError)
    ));
    let six = single_element_leaves(&[1, 2, 3, 4, 5, 6]);
    assert!(matches!(
        MerkleAccumulator::build(&params, &six),
        Err(AccumulatorError::ParameterError)
    ));
}

#[test]
fn build_rejects_short_lists() {
    let params = HashParams::generate();
    let empty: Vec<Vec<FieldElem>> = Vec::new();
    assert!(matches!(
        MerkleAccumulator::build(&params, &empty),
        Err(AccumulatorError::ParameterError)
    ));
    let one = single_element_leaves(&[10]);
    assert!(matches!(
        MerkleAccumulator::build(&params, &one),
        Err(AccumulatorError::ParameterError)
    ));
}

#[test]
fn path_rejects_out_of_range_index() {
    let params = HashParams::generate();
    let leaves = single_element_leaves(&[10, 20, 30, 40]);
    let acc = MerkleAccumulator::build(&params, &leaves).unwrap();
    assert!(matches!(acc.path(4), Err(AccumulatorError::IndexError)));
    assert!(matches!(acc.path(1000), Err(AccumulatorError::IndexError)));
}

#[test]
fn root_is_deterministic() {
    let params = HashParams::generate();
    let leaves = single_element_leaves(&[7, 8, 9, 11]);
    let a = MerkleAccumulator::build(&params, &leaves).unwrap();
    let b = MerkleAccumulator::build(&params, &leaves).unwrap();
    assert!(a.root().equals(&b.root()));
}

#[test]
fn from_limbs_enforces_canonical_form() {
    let modulus = field_modulus_limbs();
    assert!(field_elem_from_limbs(modulus).is_none());
    assert!(field_elem_from_limbs(vec![0u64; 11]).is_none());
    assert!(field_elem_from_limbs(vec![0u64; 13]).is_none());
    let zero = field_elem_from_limbs(vec![0u64; 12]).unwrap();
    assert!(zero.is_zero());
    let mut below = field_modulus_limbs();
    below[0] -= 1;
    assert!(field_elem_from_limbs(below).is_some());
}
