//! Helpers on the hash collections that hold the parts of an automaton.

use std::collections::{HashMap, HashSet};
use std::hash::Hash;
use vstd::prelude::*;
use vstd::std_specs::hash::obeys_key_model;
use vstd::std_specs::iter::IteratorSpec;

use crate::model::shift_set;

verus! {

broadcast use vstd::std_specs::hash::group_hash_axioms;

/// The state numbers of `s` as mathematical integers.
pub open spec fn ints(s: Set<usize>) -> Set<int> {
    Set::new(|q: int| 0 <= q <= usize::MAX && s.contains(q as usize))
}

/// `q` occurs in `s`.
pub open spec fn seq_has(s: Seq<usize>, q: int) -> bool {
    exists|j: int| 0 <= j < s.len() && #[trigger] s[j] as int == q
}

/// The members of `s`, each once, in the order in which the set hands them out.
pub fn set_items<K: Eq + Hash + Copy>(s: &HashSet<K>) -> (v: Vec<K>)
    requires
        obeys_key_model::<K>(),
    ensures
        v@.to_set() == s@,
        v@.no_duplicates(),
{
    let mut v: Vec<K> = Vec::new();
    let ghost items = s.iter().remaining();
    for x in it: s.iter()
        invariant
            it.seq() == items,
            v@.len() == it.index(),
            forall|j: int| 0 <= j < v@.len() ==> v@[j] == *items[j],
    {
        v.push(*x);
    }
    proof {
        assert(v@ =~= items.unref());
        assert forall|i: int, j: int| 0 <= i < v@.len() && 0 <= j < v@.len() && i != j implies v@[i]
            != v@[j] by {
            assert(items[i] != items[j]);
        }
    }
    v
}

/// The keys of `m`, each once, in the order in which the map hands them out.
pub fn map_keys<K: Eq + Hash + Copy, T>(m: &HashMap<K, T>) -> (v: Vec<K>)
    requires
        obeys_key_model::<K>(),
    ensures
        v@.to_set() == m@.dom(),
        v@.no_duplicates(),
{
    let mut v: Vec<K> = Vec::new();
    let ghost items = m.keys().remaining();
    for x in it: m.keys()
        invariant
            it.seq() == items,
            v@.len() == it.index(),
            forall|j: int| 0 <= j < v@.len() ==> v@[j] == *items[j],
    {
        v.push(*x);
    }
    proof {
        assert(v@ =~= items.unref());
        assert forall|i: int, j: int| 0 <= i < v@.len() && 0 <= j < v@.len() && i != j implies v@[i]
            != v@[j] by {
            assert(items[i] != items[j]);
        }
    }
    v
}

/// A set with the same members.
pub fn copy_set<K: Eq + Hash + Copy>(s: &HashSet<K>) -> (r: HashSet<K>)
    requires
        obeys_key_model::<K>(),
    ensures
        r@ == s@,
{
    let items = set_items(s);
    let mut r: HashSet<K> = HashSet::new();
    let mut i: usize = 0;
    while i < items.len()
        invariant
            obeys_key_model::<K>(),
            i <= items.len(),
            forall|k: K| r@.contains(k) <==> exists|j: int| 0 <= j < i && items@[j] == k,
        decreases items.len() - i,
    {
        r.insert(items[i]);
        i += 1;
    }
    proof {
        assert forall|k: K| r@.contains(k) <==> s@.contains(k) by {
            if s@.contains(k) {
                assert(items@.to_set().contains(k));
                assert(items@.contains(k));
            }
            if r@.contains(k) {
                let j = choose|j: int| 0 <= j < i && items@[j] == k;
                assert(items@.contains(items@[j]));
            }
        }
        assert(r@ =~= s@);
    }
    r
}

/// Adds the members of `b` to `a`.
pub fn append_hashset<K: Eq + Hash + Copy>(a: &mut HashSet<K>, b: HashSet<K>)
    requires
        obeys_key_model::<K>(),
    ensures
        final(a)@ == old(a)@ + b@,
{
    let items = set_items(&b);
    let mut i: usize = 0;
    while i < items.len()
        invariant
            obeys_key_model::<K>(),
            i <= items.len(),
            forall|k: K|
                a@.contains(k) <==> old(a)@.contains(k) || exists|j: int|
                    0 <= j < i && items@[j] == k,
        decreases items.len() - i,
    {
        a.insert(items[i]);
        i += 1;
    }
    proof {
        assert forall|k: K| a@.contains(k) <==> (old(a)@ + b@).contains(k) by {
            if b@.contains(k) {
                assert(items@.to_set().contains(k));
                assert(items@.contains(k));
            }
            if a@.contains(k) && !old(a)@.contains(k) {
                let j = choose|j: int| 0 <= j < i && items@[j] == k;
                assert(items@.contains(items@[j]));
            }
        }
        assert(a@ =~= old(a)@ + b@);
    }
}

/// Adds the members of `b`, each moved up by `shift`, to `a`.
pub fn append_shift_hashset(a: &mut HashSet<usize>, b: &HashSet<usize>, shift: usize)
    requires
        forall|x: usize| b@.contains(x) ==> x + shift <= usize::MAX,
    ensures
        ints(final(a)@) == ints(old(a)@) + shift_set(ints(b@), shift as int),
{
    let items = set_items(b);
    let mut i: usize = 0;
    while i < items.len()
        invariant
            i <= items.len(),
            items@.to_set() == b@,
            forall|x: usize| b@.contains(x) ==> x + shift <= usize::MAX,
            forall|k: usize|
                a@.contains(k) <==> old(a)@.contains(k) || exists|j: int|
                    0 <= j < i && items@[j] + shift == k,
        decreases items.len() - i,
    {
        assert(items@.contains(items@[i as int]));
        assert(b@.contains(items@[i as int]));
        a.insert(items[i] + shift);
        i += 1;
    }
    proof {
        let lhs = ints(a@);
        let rhs = ints(old(a)@) + shift_set(ints(b@), shift as int);
        assert forall|q: int| lhs.contains(q) <==> rhs.contains(q) by {
            if lhs.contains(q) && !old(a)@.contains(q as usize) {
                let j = choose|j: int| 0 <= j < i && items@[j] + shift == q as usize;
                assert(items@.contains(items@[j]));
                assert(ints(b@).contains(q - shift));
            }
            if shift_set(ints(b@), shift as int).contains(q) {
                let x = (q - shift) as usize;
                assert(b@.contains(x));
                assert(items@.to_set().contains(x));
                assert(items@.contains(x));
                let j = choose|j: int| 0 <= j < items@.len() && items@[j] == x;
                assert(items@[j] + shift == q as usize);
            }
        }
        assert(lhs =~= rhs);
    }
}

/// Whether the two sets share a member.
pub fn sets_meet(a: &HashSet<usize>, b: &HashSet<usize>) -> (r: bool)
    ensures
        r <==> exists|q: int| #[trigger] ints(a@).contains(q) && ints(b@).contains(q),
{
    let items = set_items(a);
    let mut i: usize = 0;
    while i < items.len()
        invariant
            i <= items.len(),
            items@.to_set() == a@,
            forall|j: int| 0 <= j < i ==> !b@.contains(#[trigger] items@[j]),
        decreases items.len() - i,
    {
        if b.contains(&items[i]) {
            proof {
                let q = items@[i as int];
                assert(items@.contains(q));
                assert(a@.contains(q));
                assert(ints(a@).contains(q as int) && ints(b@).contains(q as int));
            }
            return true;
        }
        i += 1;
    }
    proof {
        assert forall|q: int| !(#[trigger] ints(a@).contains(q) && ints(b@).contains(q)) by {
            if ints(a@).contains(q) && ints(b@).contains(q) {
                assert(items@.to_set().contains(q as usize));
                assert(items@.contains(q as usize));
            }
        }
    }
    false
}

/// A set that holds `q` alone.
pub fn singleton(q: usize) -> (r: HashSet<usize>)
    ensures
        ints(r@) == set![q as int],
{
    let mut r: HashSet<usize> = HashSet::new();
    r.insert(q);
    assert(ints(r@) =~= set![q as int]);
    r
}

/// Whether the set holds no state at all.
pub fn has_no_member(s: &HashSet<usize>) -> (r: bool)
    ensures
        r <==> ints(s@) == Set::<int>::empty(),
        r <==> forall|q: int| !ints(s@).contains(q),
{
    let r = s.is_empty();
    proof {
        if r {
            assert(ints(s@) =~= Set::<int>::empty());
        } else {
            if forall|x: usize| !s@.contains(x) {
                assert(s@ =~= Set::<usize>::empty());
            }
            let x = choose|x: usize| s@.contains(x);
            assert(ints(s@).contains(x as int));
        }
    }
    r
}

} // verus!
