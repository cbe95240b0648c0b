//! Field elements of the circuit field, held as 12 little-endian 64-bit
//! limbs in canonical (fully reduced) form.
//!
//! Two moduli matter here. `field_modulus` is the prime of the field that
//! leaves, digests and nullifiers live in. `scalar_modulus` is the (smaller)
//! prime order of the key-derivation group: secrets act on the group through
//! their integer value, so two integers that agree modulo `scalar_modulus`
//! drive the same public key.

use vstd::prelude::*;
use vstd::arithmetic::div_mod::lemma_mod_multiples_vanish;
use crate::limbs::{
    limbs_val, limbs_eq, limbs_lt, lemma_limbs_val_zero, lemma_limbs_val_singleton,
    lemma_limbs_val_split, lemma_limbs_val_lt,
};

verus! {

/// The limbs of the circuit-field prime.
pub open spec fn field_mod_limbs() -> Seq<u64> {
    seq![
        0xd90776e240000001u64, 0x4ea099170fa13a4fu64, 0xd6c381bc3f005797u64,
        0xb9dff97634993aa4u64, 0x3eebca9429212636u64, 0xb26c5c28c859a99bu64,
        0x99d124d9a15af79du64, 0x07fdb925e8a0ed8du64, 0x5eb7e8f96c97d873u64,
        0xb7f997505b8fafedu64, 0x10229022eee2cdadu64, 0x0001c4c62d92c411u64,
    ]
}

/// The limbs of the key-derivation group's prime order.
pub open spec fn scalar_mod_limbs() -> Seq<u64> {
    seq![
        0x5e9063de245e8001u64, 0xe39d54522cdd119fu64, 0x638810719ac425f0u64,
        0x685acce9767254a4u64, 0xb80f0da5cb537e38u64, 0xb117e776f218059du64,
        0x99d124d9a15af79du64, 0x07fdb925e8a0ed8du64, 0x5eb7e8f96c97d873u64,
        0xb7f997505b8fafedu64, 0x10229022eee2cdadu64, 0x0001c4c62d92c411u64,
    ]
}

/// The prime modulus of the circuit field.
pub open spec fn field_modulus() -> nat {
    limbs_val(field_mod_limbs())
}

/// The prime order of the key-derivation group.
pub open spec fn scalar_modulus() -> nat {
    limbs_val(scalar_mod_limbs())
}

/// An element of the circuit field in canonical form.
pub struct FieldElem {
    pub limbs: Vec<u64>,
}

impl View for FieldElem {
    type V = nat;

    open spec fn view(&self) -> nat {
        limbs_val(self.limbs@)
    }
}

impl FieldElem {
    /// Canonical form: exactly 12 limbs, value below the field modulus.
    pub open spec fn wf(&self) -> bool {
        self.limbs@.len() == 12 && self@ < field_modulus()
    }

    /// The field element with a given small value.
    pub fn from_u64(x: u64) -> (r: FieldElem)
        ensures
            r.wf(),
            r@ == x,
    {
        let mut v: Vec<u64> = Vec::new();
        v.push(x);
        let mut i: usize = 1;
        while i < 12
            invariant
                1 <= i <= 12,
                v@.len() == i,
                v@[0] == x,
                forall|j: int| 1 <= j < i ==> v@[j] == 0,
            decreases 12 - i,
        {
            v.push(0);
            i += 1;
        }
        proof {
            lemma_limbs_val_split(v@, 1);
            assert(v@.take(1) =~= seq![x]);
            lemma_limbs_val_singleton(x);
            lemma_limbs_val_zero(v@.skip(1));
            lemma_moduli_facts();
        }
        FieldElem { limbs: v }
    }

    /// An exact copy.
    pub fn duplicate(&self) -> (r: FieldElem)
        ensures
            r.limbs@ == self.limbs@,
            r@ == self@,
            r.wf() == self.wf(),
    {
        let n = self.limbs.len();
        let mut v: Vec<u64> = Vec::new();
        let mut i: usize = 0;
        while i < n
            invariant
                0 <= i <= n,
                n == self.limbs@.len(),
                v@.len() == i,
                forall|j: int| 0 <= j < i ==> v@[j] == self.limbs@[j],
            decreases n - i,
        {
            v.push(self.limbs[i]);
            i += 1;
        }
        proof {
            assert(v@ =~= self.limbs@);
        }
        FieldElem { limbs: v }
    }

    /// Value equality, decided limb by limb.
    pub fn equals(&self, other: &FieldElem) -> (r: bool)
        requires
            self.limbs@.len() == other.limbs@.len(),
        ensures
            r == (self@ == other@),
    {
        limbs_eq(&self.limbs, &other.limbs)
    }

    /// Whether the element is zero.
    pub fn is_zero(&self) -> (r: bool)
        requires
            self.wf(),
        ensures
            r == (self@ == 0),
    {
        let z = FieldElem::from_u64(0);
        self.equals(&z)
    }
}

/// The sequence of values denoted by a sequence of field elements.
pub open spec fn values_of(s: Seq<FieldElem>) -> Seq<nat> {
    Seq::new(s.len(), |i: int| s[i]@)
}

/// All elements of a sequence are well formed.
pub open spec fn all_wf(s: Seq<FieldElem>) -> bool {
    forall|i: int| 0 <= i < s.len() ==> s[i].wf()
}

/// The limbs of the circuit-field prime, as a vector.
pub fn field_modulus_limbs() -> (r: Vec<u64>)
    ensures
        r@ == field_mod_limbs(),
{
    let mut v: Vec<u64> = Vec::new();
    v.push(0xd90776e240000001u64);
    v.push(0x4ea099170fa13a4fu64);
    v.push(0xd6c381bc3f005797u64);
    v.push(0xb9dff97634993aa4u64);
    v.push(0x3eebca9429212636u64);
    v.push(0xb26c5c28c859a99bu64);
    v.push(0x99d124d9a15af79du64);
    v.push(0x07fdb925e8a0ed8du64);
    v.push(0x5eb7e8f96c97d873u64);
    v.push(0xb7f997505b8fafedu64);
    v.push(0x10229022eee2cdadu64);
    v.push(0x0001c4c62d92c411u64);
    proof {
        assert(v@ =~= field_mod_limbs());
    }
    v
}

/// The limbs of the key-derivation group's prime order, as a vector.
pub fn scalar_modulus_limbs() -> (r: Vec<u64>)
    ensures
        r@ == scalar_mod_limbs(),
{
    let mut v: Vec<u64> = Vec::new();
    v.push(0x5e9063de245e8001u64);
    v.push(0xe39d54522cdd119fu64);
    v.push(0x638810719ac425f0u64);
    v.push(0x685acce9767254a4u64);
    v.push(0xb80f0da5cb537e38u64);
    v.push(0xb117e776f218059du64);
    v.push(0x99d124d9a15af79du64);
    v.push(0x07fdb925e8a0ed8du64);
    v.push(0x5eb7e8f96c97d873u64);
    v.push(0xb7f997505b8fafedu64);
    v.push(0x10229022eee2cdadu64);
    v.push(0x0001c4c62d92c411u64);
    proof {
        assert(v@ =~= scalar_mod_limbs());
    }
    v
}

/// Facts relating the two moduli that the rest of the library leans on:
/// the group order is below the field modulus (so every reduced scalar is
/// also a canonical field value), it exceeds 2^64, and it is odd.
pub proof fn lemma_moduli_facts()
    ensures
        scalar_modulus() < field_modulus(),
        0xffff_ffff_ffff_ffffu64 < scalar_modulus(),
        scalar_modulus() % 2 == 1,
{
    let q = scalar_mod_limbs();
    let f = field_mod_limbs();
    assert forall|j: int| 5 < j < 12 implies q[j] == f[j] by {
        assert(q[6] == f[6]);
        assert(q[7] == f[7]);
        assert(q[8] == f[8]);
        assert(q[9] == f[9]);
        assert(q[10] == f[10]);
        assert(q[11] == f[11]);
    }
    lemma_limbs_val_lt(q, f, 5);

    let m = seq![0xffff_ffff_ffff_ffffu64, 0u64, 0u64, 0u64, 0u64, 0u64, 0u64, 0u64, 0u64, 0u64, 0u64, 0u64];
    lemma_limbs_val_split(m, 1);
    assert(m.take(1) =~= seq![0xffff_ffff_ffff_ffffu64]);
    lemma_limbs_val_singleton(0xffff_ffff_ffff_ffffu64);
    lemma_limbs_val_zero(m.skip(1));
    assert(limbs_val(m) == 0xffff_ffff_ffff_ffffu64);
    lemma_limbs_val_lt(m, q, 11);

    let b: int = 0x1_0000_0000_0000_0000;
    let h: int = 0x8000_0000_0000_0000;
    let rest = limbs_val(q.subrange(1, 12)) as int;
    assert(scalar_modulus() == (q[0] + b * rest) as nat);
    assert(b * rest == 2 * (h * rest)) by (nonlinear_arith)
        requires
            b == 0x1_0000_0000_0000_0000,
            h == 0x8000_0000_0000_0000,
    ;
    lemma_mod_multiples_vanish(h * rest, q[0] as int, 2);
    assert((2 * (h * rest) + q[0]) % 2 == q[0] % 2);
    assert(q[0] % 2 == 1);
}

/// Builds a canonical field element from raw limbs, rejecting vectors of the
/// wrong shape or out-of-range value.
pub fn field_elem_from_limbs(v: Vec<u64>) -> (r: Option<FieldElem>)
    ensures
        match r {
            Some(f) => f.limbs@ == v@ && f.wf(),
            None => !(v@.len() == 12 && limbs_val(v@) < field_modulus()),
        },
{
    if v.len() != 12 {
        return None;
    }
    let m = field_modulus_limbs();
    if limbs_lt(&v, &m) {
        Some(FieldElem { limbs: v })
    } else {
        None
    }
}

} // verus!
