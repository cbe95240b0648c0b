//! Little-endian base-2^64 limb sequences: the value they denote, uniqueness
//! of that representation, ordering, and verified subtraction.

use vstd::prelude::*;
use vstd::arithmetic::power2::{pow2, lemma_pow2_adds, lemma2_to64};
use vstd::arithmetic::div_mod::{lemma_mod_multiples_vanish, lemma_small_mod};

verus! {

/// The value denoted by a little-endian sequence of 64-bit limbs.
pub open spec fn limbs_val(s: Seq<u64>) -> nat
    decreases s.len(),
{
    if s.len() == 0 {
        0
    } else {
        (s[0] + 0x1_0000_0000_0000_0000 * limbs_val(s.subrange(1, s.len() as int))) as nat
    }
}

/// The empty sequence denotes zero.
pub proof fn lemma_limbs_val_empty()
    ensures
        limbs_val(Seq::<u64>::empty()) == 0,
{
}

/// A single limb denotes its own value.
pub proof fn lemma_limbs_val_singleton(x: u64)
    ensures
        limbs_val(seq![x]) == x,
{
    let s = seq![x];
    assert(s.subrange(1, 1) =~= Seq::<u64>::empty());
    lemma_limbs_val_empty();
    assert(limbs_val(s) == (x + 0x1_0000_0000_0000_0000 * limbs_val(s.subrange(1, 1))) as nat);
}

/// A sequence of all-zero limbs denotes zero.
pub proof fn lemma_limbs_val_zero(s: Seq<u64>)
    requires
        forall|i: int| 0 <= i < s.len() ==> s[i] == 0,
    ensures
        limbs_val(s) == 0,
    decreases s.len(),
{
    if s.len() > 0 {
        lemma_limbs_val_zero(s.subrange(1, s.len() as int));
    }
}

/// Splitting a limb sequence at position `k` splits its value.
pub proof fn lemma_limbs_val_split(s: Seq<u64>, k: int)
    requires
        0 <= k <= s.len(),
    ensures
        limbs_val(s) == limbs_val(s.take(k)) + pow2((64 * k) as nat) * limbs_val(s.skip(k)),
    decreases k,
{
    lemma2_to64();
    if k == 0 {
        assert(s.take(0) =~= Seq::<u64>::empty());
        assert(s.skip(0) =~= s);
        lemma_limbs_val_empty();
        assert(pow2(0) == 1);
        assert(limbs_val(s.take(0)) == 0);
        assert(pow2((64 * k) as nat) == 1);
        assert(limbs_val(s) == limbs_val(s.take(k)) + pow2((64 * k) as nat) * limbs_val(s.skip(k)));
    } else {
        let b: int = 0x1_0000_0000_0000_0000;
        let t = s.subrange(1, s.len() as int);
        lemma_limbs_val_split(t, k - 1);
        let p1 = pow2((64 * (k - 1)) as nat);
        let p = pow2((64 * k) as nat);
        assert(s.take(k).subrange(1, k) =~= t.take(k - 1));
        assert(s.skip(k) =~= t.skip(k - 1));
        assert(s.len() > 0 && s.take(k).len() > 0);
        assert(limbs_val(s.take(k)) == (s[0] + b * limbs_val(t.take(k - 1))) as nat);
        assert(limbs_val(s) == (s[0] + b * limbs_val(t)) as nat);
        lemma_pow2_adds(64, (64 * (k - 1)) as nat);
        assert(p == b * p1);
        assert(limbs_val(s) == limbs_val(s.take(k)) + p * limbs_val(s.skip(k)))
            by (nonlinear_arith)
            requires
                limbs_val(s) == s[0] + b * limbs_val(t),
                limbs_val(t) == limbs_val(t.take(k - 1)) + p1 * limbs_val(t.skip(k - 1)),
                limbs_val(s.take(k)) == s[0] + b * limbs_val(t.take(k - 1)),
                limbs_val(s.skip(k)) == limbs_val(t.skip(k - 1)),
                p == b * p1,
        ;
    }
}

/// A sequence of `n` limbs denotes a value below 2^(64 n).
pub proof fn lemma_limbs_val_bound(s: Seq<u64>)
    ensures
        limbs_val(s) < pow2((64 * s.len()) as nat),
    decreases s.len(),
{
    lemma2_to64();
    if s.len() == 0 {
        assert(pow2(0) == 1);
    } else {
        let b: int = 0x1_0000_0000_0000_0000;
        let t = s.subrange(1, s.len() as int);
        lemma_limbs_val_bound(t);
        lemma_pow2_adds(64, (64 * (s.len() - 1)) as nat);
        let p1 = pow2((64 * (s.len() - 1)) as nat);
        assert(limbs_val(s) == (s[0] + b * limbs_val(t)) as nat);
        assert(s[0] + b * limbs_val(t) < b * p1) by (nonlinear_arith)
            requires
                s[0] < b,
                limbs_val(t) < p1,
                b > 0,
        ;
        assert(pow2((64 * s.len()) as nat) == b * p1);
    }
}

/// Two equally long limb sequences with the same value are equal:
/// the base-2^64 representation of a value is unique.
pub proof fn lemma_limbs_val_injective(a: Seq<u64>, b: Seq<u64>)
    requires
        a.len() == b.len(),
        limbs_val(a) == limbs_val(b),
    ensures
        a == b,
    decreases a.len(),
{
    if a.len() == 0 {
        assert(a =~= b);
    } else {
        let base: int = 0x1_0000_0000_0000_0000;
        let ta = a.subrange(1, a.len() as int);
        let tb = b.subrange(1, b.len() as int);
        let va = limbs_val(ta) as int;
        let vb = limbs_val(tb) as int;
        assert(limbs_val(a) == (a[0] + base * va) as nat);
        assert(limbs_val(b) == (b[0] + base * vb) as nat);
        lemma_mod_multiples_vanish(va, a[0] as int, base);
        lemma_mod_multiples_vanish(vb, b[0] as int, base);
        lemma_small_mod(a[0] as nat, base as nat);
        lemma_small_mod(b[0] as nat, base as nat);
        assert((base * va + a[0]) % base == a[0]);
        assert((base * vb + b[0]) % base == b[0]);
        assert(base * va + a[0] == base * vb + b[0]);
        assert(a[0] == b[0]);
        assert(va == vb) by (nonlinear_arith)
            requires
                base * va + a[0] == base * vb + b[0],
                a[0] == b[0],
                base > 0,
        ;
        lemma_limbs_val_injective(ta, tb);
        assert forall|i: int| 0 <= i < a.len() implies a[i] == b[i] by {
            if i > 0 {
                assert(a[i] == ta[i - 1]);
                assert(b[i] == tb[i - 1]);
            }
        }
        assert(a =~= b);
    }
}

/// If two equally long limb sequences agree above position `k` and differ in
/// `a`'s favour at `k`, then `a` denotes the smaller value.
pub proof fn lemma_limbs_val_lt(a: Seq<u64>, b: Seq<u64>, k: int)
    requires
        a.len() == b.len(),
        0 <= k < a.len(),
        a[k] < b[k],
        forall|j: int| k < j < a.len() ==> a[j] == b[j],
    ensures
        limbs_val(a) < limbs_val(b),
{
    let p = pow2((64 * k) as nat);
    let q = pow2((64 * (k + 1)) as nat);
    lemma_limbs_val_split(a, k + 1);
    lemma_limbs_val_split(b, k + 1);
    assert(a.skip(k + 1) =~= b.skip(k + 1));
    lemma_limbs_val_split(a.take(k + 1), k);
    lemma_limbs_val_split(b.take(k + 1), k);
    assert(a.take(k + 1).take(k) =~= a.take(k));
    assert(b.take(k + 1).take(k) =~= b.take(k));
    assert(a.take(k + 1).skip(k) =~= seq![a[k]]);
    assert(b.take(k + 1).skip(k) =~= seq![b[k]]);
    lemma_limbs_val_singleton(a[k]);
    lemma_limbs_val_singleton(b[k]);
    lemma_limbs_val_bound(a.take(k));
    assert(a.take(k).len() == k);
    assert(limbs_val(a.take(k + 1)) < limbs_val(b.take(k + 1))) by (nonlinear_arith)
        requires
            limbs_val(a.take(k + 1)) == limbs_val(a.take(k)) + p * (a[k] as nat),
            limbs_val(b.take(k + 1)) == limbs_val(b.take(k)) + p * (b[k] as nat),
            limbs_val(a.take(k)) < p,
            0 <= limbs_val(b.take(k)),
            a[k] < b[k],
            p >= 1,
    ;
    assert(limbs_val(a) == limbs_val(a.take(k + 1)) + q * limbs_val(a.skip(k + 1)));
    assert(limbs_val(b) == limbs_val(b.take(k + 1)) + q * limbs_val(b.skip(k + 1)));
    assert(limbs_val(a.skip(k + 1)) == limbs_val(b.skip(k + 1)));
}

/// Exact equality of two limb vectors, which by uniqueness of representation
/// decides equality of the values they denote.
pub fn limbs_eq(a: &Vec<u64>, b: &Vec<u64>) -> (r: bool)
    requires
        a@.len() == b@.len(),
    ensures
        r == (limbs_val(a@) == limbs_val(b@)),
{
    let n = a.len();
    let mut i: usize = 0;
    while i < n
        invariant
            0 <= i <= n,
            n == a@.len(),
            n == b@.len(),
            forall|j: int| 0 <= j < i ==> a@[j] == b@[j],
        decreases n - i,
    {
        if a[i] != b[i] {
            proof {
                if limbs_val(a@) == limbs_val(b@) {
                    lemma_limbs_val_injective(a@, b@);
                }
            }
            return false;
        }
        i += 1;
    }
    proof {
        assert(a@ =~= b@);
    }
    true
}

/// Strict comparison of the denoted values, by scanning from the most
/// significant limb down.
pub fn limbs_lt(a: &Vec<u64>, b: &Vec<u64>) -> (r: bool)
    requires
        a@.len() == b@.len(),
    ensures
        r == (limbs_val(a@) < limbs_val(b@)),
{
    let n = a.len();
    let mut i: usize = n;
    while i > 0
        invariant
            0 <= i <= n,
            n == a@.len(),
            n == b@.len(),
            forall|j: int| i <= j < n ==> a@[j] == b@[j],
        decreases i,
    {
        i -= 1;
        if a[i] < b[i] {
            proof {
                lemma_limbs_val_lt(a@, b@, i as int);
            }
            return true;
        }
        if a[i] > b[i] {
            proof {
                lemma_limbs_val_lt(b@, a@, i as int);
            }
            return false;
        }
    }
    proof {
        assert(a@ =~= b@);
    }
    false
}

/// Borrow-chain subtraction of limb vectors: computes the limbs of
/// `limbs_val(a) - limbs_val(b)`.
pub fn limbs_sub(a: &Vec<u64>, b: &Vec<u64>) -> (r: Vec<u64>)
    requires
        a@.len() == b@.len(),
        limbs_val(b@) <= limbs_val(a@),
    ensures
        r@.len() == a@.len(),
        limbs_val(r@) == limbs_val(a@) - limbs_val(b@),
{
    let n = a.len();
    let mut r: Vec<u64> = Vec::new();
    let mut borrow: u64 = 0;
    let mut i: usize = 0;
    while i < n
        invariant
            0 <= i <= n,
            n == a@.len(),
            n == b@.len(),
            r@.len() == i,
            borrow == 0 || borrow == 1,
            limbs_val(r@) == limbs_val(a@.take(i as int)) - limbs_val(b@.take(i as int))
                + borrow * pow2((64 * i) as nat),
        decreases n - i,
    {
        let ai: u64 = a[i];
        let bi: u64 = b[i];
        let t: i128 = ai as i128 - bi as i128 - borrow as i128;
        let (d, new_borrow): (u64, u64) = if t < 0 {
            ((t + 0x1_0000_0000_0000_0000i128) as u64, 1u64)
        } else {
            (t as u64, 0u64)
        };
        proof {
            let p = pow2((64 * i) as nat);
            let q = pow2((64 * (i + 1)) as nat);
            lemma_limbs_val_split(a@.take(i + 1), i as int);
            lemma_limbs_val_split(b@.take(i + 1), i as int);
            lemma_limbs_val_split(r@.push(d), i as int);
            assert(a@.take(i + 1).take(i as int) =~= a@.take(i as int));
            assert(b@.take(i + 1).take(i as int) =~= b@.take(i as int));
            assert(r@.push(d).take(i as int) =~= r@);
            assert(a@.take(i + 1).skip(i as int) =~= seq![ai]);
            assert(b@.take(i + 1).skip(i as int) =~= seq![bi]);
            assert(r@.push(d).skip(i as int) =~= seq![d]);
            lemma_limbs_val_singleton(ai);
            lemma_limbs_val_singleton(bi);
            lemma_limbs_val_singleton(d);
            lemma_pow2_adds((64 * i) as nat, 64);
            lemma2_to64();
            assert(q == p * 0x1_0000_0000_0000_0000);
            assert(d - new_borrow * 0x1_0000_0000_0000_0000 == ai - bi - borrow);
            assert(limbs_val(r@.push(d)) == limbs_val(a@.take(i + 1)) - limbs_val(b@.take(i + 1))
                + new_borrow * q) by (nonlinear_arith)
                requires
                    limbs_val(r@.push(d)) == limbs_val(r@) + p * (d as nat),
                    limbs_val(a@.take(i + 1)) == limbs_val(a@.take(i as int)) + p * (ai as nat),
                    limbs_val(b@.take(i + 1)) == limbs_val(b@.take(i as int)) + p * (bi as nat),
                    limbs_val(r@) == limbs_val(a@.take(i as int)) - limbs_val(b@.take(i as int))
                        + borrow * p,
                    d - new_borrow * 0x1_0000_0000_0000_0000 == ai - bi - borrow,
                    q == p * 0x1_0000_0000_0000_0000,
            ;
        }
        r.push(d);
        borrow = new_borrow;
        i += 1;
    }
    proof {
        assert(a@.take(n as int) =~= a@);
        assert(b@.take(n as int) =~= b@);
        if borrow == 1 {
            lemma_limbs_val_bound(r@);
        }
    }
    r
}

} // verus!
