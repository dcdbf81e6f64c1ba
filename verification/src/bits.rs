//! Sets of small state numbers packed into one machine word: bit `x` of the
//! word is set where `x` belongs to the set.

use std::collections::HashSet;
use vstd::prelude::*;

use crate::utils::{ints, set_items};

verus! {

/// Bit `x` of `k` is set.
pub open spec fn bit(k: u128, x: int) -> bool {
    0 <= x < 128 && (k >> (x as u128)) & 1 == 1
}

/// The set that `k` stands for.
pub open spec fn members(k: u128) -> Set<int> {
    Set::new(|x: int| bit(k, x))
}

proof fn lemma_or_bit(k: u128, x: u128, y: u128)
    by (bit_vector)
    requires
        x < 128,
        y < 128,
    ensures
        ((k | (1u128 << x)) >> y) & 1 == 1 <==> ((k >> y) & 1 == 1 || x == y),
{
}

proof fn lemma_zero_bit(y: u128)
    by (bit_vector)
    requires
        y < 128,
    ensures
        (0u128 >> y) & 1 == 0,
{
}

proof fn lemma_low_zero(a: u128, b: u128)
    by (bit_vector)
    ensures
        a & !(0xffff_ffff_ffff_ffff_ffff_ffff_ffff_ffffu128 << 0u128) == b & !(
        0xffff_ffff_ffff_ffff_ffff_ffff_ffff_ffffu128 << 0u128),
{
}

proof fn lemma_low_step(a: u128, b: u128, n: u128, n1: u128)
    by (bit_vector)
    requires
        n < 127,
        n1 == n + 1,
        a & !(0xffff_ffff_ffff_ffff_ffff_ffff_ffff_ffffu128 << n) == b & !(
        0xffff_ffff_ffff_ffff_ffff_ffff_ffff_ffffu128 << n),
        ((a >> n) & 1 == 1) == ((b >> n) & 1 == 1),
    ensures
        a & !(0xffff_ffff_ffff_ffff_ffff_ffff_ffff_ffffu128 << n1) == b & !(
        0xffff_ffff_ffff_ffff_ffff_ffff_ffff_ffffu128 << n1),
{
}

proof fn lemma_low_last(a: u128, b: u128)
    by (bit_vector)
    requires
        a & !(0xffff_ffff_ffff_ffff_ffff_ffff_ffff_ffffu128 << 127u128) == b & !(
        0xffff_ffff_ffff_ffff_ffff_ffff_ffff_ffffu128 << 127u128),
        ((a >> 127u128) & 1 == 1) == ((b >> 127u128) & 1 == 1),
    ensures
        a == b,
{
}

/// Two words that agree on every bit agree below every position.
proof fn lemma_low_equal(a: u128, b: u128, n: nat)
    requires
        n <= 127,
        forall|x: int| 0 <= x < 128 ==> bit(a, x) == bit(b, x),
    ensures
        a & !(0xffff_ffff_ffff_ffff_ffff_ffff_ffff_ffffu128 << (n as u128)) == b & !(
        0xffff_ffff_ffff_ffff_ffff_ffff_ffff_ffffu128 << (n as u128)),
    decreases n,
{
    if n == 0 {
        lemma_low_zero(a, b);
    } else {
        lemma_low_equal(a, b, (n - 1) as nat);
        assert(bit(a, n - 1) == bit(b, n - 1));
        lemma_low_step(a, b, (n - 1) as u128, n as u128);
    }
}

/// Two words that stand for the same set are equal.
pub proof fn lemma_members_injective(a: u128, b: u128)
    requires
        members(a) == members(b),
    ensures
        a == b,
{
    assert forall|x: int| 0 <= x < 128 implies bit(a, x) == bit(b, x) by {
        assert(members(a).contains(x) == bit(a, x));
        assert(members(b).contains(x) == bit(b, x));
    }
    lemma_low_equal(a, b, 127);
    assert(bit(a, 127) == bit(b, 127));
    lemma_low_last(a, b);
}

/// The word zero stands for the empty set, and no other word does.
pub proof fn lemma_members_zero(k: u128)
    ensures
        k == 0 <==> members(k) == Set::<int>::empty(),
{
    assert forall|x: int| !bit(0u128, x) by {
        if 0 <= x < 128 {
            lemma_zero_bit(x as u128);
        }
    }
    assert(members(0u128) =~= Set::<int>::empty());
    if members(k) == Set::<int>::empty() {
        lemma_members_injective(k, 0u128);
    }
}

/// A word other than zero has a bit set.
pub proof fn lemma_nonzero_has_bit(k: u128)
    requires
        k != 0,
    ensures
        exists|q: int| bit(k, q),
{
    if !(exists|q: int| bit(k, q)) {
        assert(members(k) =~= Set::<int>::empty());
        lemma_members_zero(k);
    }
}

/// Whether `x` belongs to the set that `k` stands for.
pub fn has_bit(k: u128, x: usize) -> (r: bool)
    requires
        x < 128,
    ensures
        r == bit(k, x as int),
{
    (k >> (x as u128)) & 1 == 1
}

/// The word for the set of `k` with `x` added.
pub fn with_bit(k: u128, x: usize) -> (r: u128)
    requires
        x < 128,
    ensures
        forall|y: int| bit(r, y) <==> bit(k, y) || y == x,
        members(r) == members(k).insert(x as int),
{
    let r = k | (1u128 << (x as u128));
    proof {
        assert forall|y: int| bit(r, y) <==> bit(k, y) || y == x by {
            if 0 <= y < 128 {
                lemma_or_bit(k, x as u128, y as u128);
            }
        }
        assert(members(r) =~= members(k).insert(x as int));
    }
    r
}

/// The word for a set of state numbers below 128.
pub fn key_of_set(s: &HashSet<usize>) -> (r: u128)
    requires
        forall|x: usize| s@.contains(x) ==> x < 128,
    ensures
        members(r) == ints(s@),
{
    let items = set_items(s);
    let mut r: u128 = 0;
    let mut i: usize = 0;
    proof {
        lemma_members_zero(0u128);
        assert forall|y: int| !bit(0u128, y) by {
            assert(members(0u128).contains(y) == bit(0u128, y));
        }
    }
    while i < items.len()
        invariant
            i <= items@.len(),
            items@.to_set() == s@,
            forall|x: usize| s@.contains(x) ==> x < 128,
            forall|y: int| bit(r, y) <==> exists|j: int| 0 <= j < i && items@[j] as int == y,
        decreases items@.len() - i,
    {
        proof {
            assert(items@.contains(items@[i as int]));
            assert(s@.contains(items@[i as int]));
        }
        r = with_bit(r, items[i]);
        i += 1;
    }
    proof {
        assert forall|y: int| members(r).contains(y) <==> ints(s@).contains(y) by {
            if bit(r, y) {
                let j = choose|j: int| 0 <= j < i && items@[j] as int == y;
                assert(items@.contains(items@[j]));
            }
            if ints(s@).contains(y) {
                assert(items@.to_set().contains(y as usize));
                assert(items@.contains(y as usize));
                let j = choose|j: int| 0 <= j < items@.len() && items@[j] == y as usize;
                assert(items@[j] as int == y);
            }
        }
        assert(members(r) =~= ints(s@));
    }
    r
}

/// Whether the set that `k` stands for shares a state with `s`.
pub fn key_meets(k: u128, s: &HashSet<usize>) -> (r: bool)
    ensures
        r <==> exists|q: int| bit(k, q) && ints(s@).contains(q),
{
    let mut x: usize = 0;
    while x < 128
        invariant
            x <= 128,
            forall|q: int| 0 <= q < x ==> !(bit(k, q) && ints(s@).contains(q)),
        decreases 128 - x,
    {
        if has_bit(k, x) && s.contains(&x) {
            proof {
                assert(bit(k, x as int) && ints(s@).contains(x as int));
            }
            return true;
        }
        x += 1;
    }
    false
}

} // verus!
