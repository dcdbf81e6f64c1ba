//! Reachability in a non-deterministic automaton: which states a word
//! reaches, and the automaton without the others.

use std::collections::{HashMap, HashSet};
use std::hash::Hash;
use vstd::prelude::*;
use vstd::std_specs::hash::obeys_key_model;

use crate::lemmas::{
    lemma_closed_holds_reach, lemma_reachable_in_range, lemma_reachable_initial,
    lemma_reachable_step,
};
use crate::model::found_from_earlier;
use crate::nfa::NFA;
use crate::pruning::{
    law_coprunes_coreachable, law_coprunes_language, law_prunes_language, law_trims_language,
    law_trims_trimmed, lemma_renumber_wf,
};
use crate::table::{add_edge, edge_list, edge_of, empty_table, list_has, table_edges, table_has};
use crate::utils::{ints, map_keys, seq_has, set_items, sets_meet};

verus! {

broadcast use vstd::std_specs::hash::group_hash_axioms;

/// How many entries of `s` are false.
pub open spec fn count_false(s: Seq<bool>) -> nat
    decreases s.len(),
{
    if s.len() == 0 {
        0
    } else {
        count_false(s.drop_last()) + if s.last() {
            0nat
        } else {
            1nat
        }
    }
}

proof fn lemma_count_false_update(s: Seq<bool>, i: int)
    requires
        0 <= i < s.len(),
        !s[i],
    ensures
        count_false(s.update(i, true)) + 1 == count_false(s),
    decreases s.len(),
{
    let u = s.update(i, true);
    if i == s.len() - 1 {
        assert(u.drop_last() =~= s.drop_last());
    } else {
        assert(u.drop_last() =~= s.drop_last().update(i, true));
        lemma_count_false_update(s.drop_last(), i);
    }
}

/// Where no entry is true, every entry counts.
proof fn lemma_count_false_all(s: Seq<bool>)
    requires
        forall|q: int| 0 <= q < s.len() ==> !s[q],
    ensures
        count_false(s) == s.len(),
    decreases s.len(),
{
    if s.len() > 0 {
        lemma_count_false_all(s.drop_last());
    }
}

/// The states whose flag is set.
pub open spec fn flag_set(s: Seq<bool>) -> Set<int> {
    Set::new(|q: int| 0 <= q < s.len() && s[q])
}

/// A vector of `n` flags, none set.
fn no_flags(n: usize) -> (r: Vec<bool>)
    ensures
        r@.len() == n,
        forall|q: int| 0 <= q < n ==> !r@[q],
{
    let mut r: Vec<bool> = Vec::new();
    let mut i: usize = 0;
    while i < n
        invariant
            i <= n,
            r@.len() == i,
            forall|q: int| 0 <= q < i ==> !r@[q],
        decreases n - i,
    {
        r.push(false);
        i += 1;
    }
    r
}

/// A vector of `n` places, all zero.
fn no_places(n: usize) -> (r: Vec<usize>)
    ensures
        r@.len() == n,
{
    let mut r: Vec<usize> = Vec::new();
    let mut i: usize = 0;
    while i < n
        invariant
            i <= n,
            r@.len() == i,
        decreases n - i,
    {
        r.push(0);
        i += 1;
    }
    r
}

/// The kept members of `s`, each replaced by its entry in `index`.
fn remap_set(s: &HashSet<usize>, keep: &Vec<bool>, index: &Vec<usize>) -> (r: HashSet<usize>)
    requires
        keep@.len() == index@.len(),
        forall|x: usize| s@.contains(x) ==> x < keep@.len(),
    ensures
        forall|y: int|
            ints(r@).contains(y) <==> exists|q: int|
                #![trigger ints(s@).contains(q)]
                ints(s@).contains(q) && keep@[q] && y == index@[q],
{
    let items = set_items(s);
    let mut r: HashSet<usize> = HashSet::new();
    let mut i: usize = 0;
    while i < items.len()
        invariant
            i <= items@.len(),
            items@.to_set() == s@,
            keep@.len() == index@.len(),
            forall|x: usize| s@.contains(x) ==> x < keep@.len(),
            forall|y: usize|
                r@.contains(y) <==> exists|j: int|
                    0 <= j < i && keep@[(#[trigger] items@[j]) as int] && y == index@[items@[j] as int],
        decreases items@.len() - i,
    {
        let x = items[i];
        proof {
            assert(items@.contains(items@[i as int]));
            assert(s@.contains(x));
        }
        if keep[x] {
            r.insert(index[x]);
        }
        i += 1;
    }
    proof {
        assert forall|y: int|
            ints(r@).contains(y) <==> exists|q: int|
                #![trigger ints(s@).contains(q)]
                ints(s@).contains(q) && keep@[q] && y == index@[q] by {
            if ints(r@).contains(y) {
                let j = choose|j: int|
                    0 <= j < i && keep@[(#[trigger] items@[j]) as int] && y as usize
                        == index@[items@[j] as int];
                assert(items@.contains(items@[j]));
                assert(ints(s@).contains(items@[j] as int));
            }
            if exists|q: int|
                #![trigger ints(s@).contains(q)]
                ints(s@).contains(q) && keep@[q] && y == index@[q] {
                let q = choose|q: int|
                    #![trigger ints(s@).contains(q)]
                    ints(s@).contains(q) && keep@[q] && y == index@[q];
                assert(items@.to_set().contains(q as usize));
                assert(items@.contains(q as usize));
                let j = choose|j: int| 0 <= j < items@.len() && items@[j] == q as usize;
                assert(keep@[items@[j] as int] && y as usize == index@[items@[j] as int]);
            }
        }
    }
    r
}

proof fn lemma_seq_has_push(s: Seq<usize>, t: usize, x: int)
    ensures
        seq_has(s, x) || x == t ==> seq_has(s.push(t), x),
{
    if seq_has(s, x) {
        let j = choose|j: int| 0 <= j < s.len() && #[trigger] s[j] as int == x;
        assert(s.push(t)[j] as int == x);
    }
    if x == t {
        assert(s.push(t)[s.len() as int] as int == x);
    }
}

proof fn lemma_seq_has_pop(s: Seq<usize>, x: int)
    requires
        s.len() > 0,
        seq_has(s, x),
    ensures
        seq_has(s.drop_last(), x) || x == s.last(),
{
    let j = choose|j: int| 0 <= j < s.len() && #[trigger] s[j] as int == x;
    if j < s.len() - 1 {
        assert(s.drop_last()[j] as int == x);
    }
}

/// A list of state numbers as mathematical integers.
pub open spec fn as_ints(s: Seq<usize>) -> Seq<int> {
    Seq::new(s.len(), |k: int| s[k] as int)
}

/// `order` lists the states whose flag is set, each once, and `index` tells
/// where in the list a state stands.
pub open spec fn listing(seen: Seq<bool>, order: Seq<usize>, index: Seq<usize>) -> bool {
    &&& index.len() == seen.len()
    &&& forall|k: int|
        0 <= k < order.len() ==> (#[trigger] order[k]) < seen.len() && seen[order[k] as int]
            && index[order[k] as int] == k
    &&& forall|q: int|
        0 <= q < seen.len() && #[trigger] seen[q] ==> index[q] < order.len() && order[index[q] as int]
            == q
}

/// Finding a state that was not listed keeps the list a listing.
proof fn lemma_listing_push(seen: Seq<bool>, order: Seq<usize>, index: Seq<usize>, t: usize)
    requires
        listing(seen, order, index),
        t < seen.len(),
        !seen[t as int],
        order.len() < usize::MAX,
    ensures
        listing(seen.update(t as int, true), order.push(t), index.update(t as int, order.len() as usize)),
{
    let seen2 = seen.update(t as int, true);
    let order2 = order.push(t);
    let index2 = index.update(t as int, order.len() as usize);
    assert forall|k: int| 0 <= k < order2.len() implies (#[trigger] order2[k]) < seen2.len()
        && seen2[order2[k] as int] && index2[order2[k] as int] == k by {
        if k < order.len() {
            assert(order[k] < seen.len() && seen[order[k] as int]);
        }
    }
    assert forall|q: int| 0 <= q < seen2.len() && #[trigger] seen2[q] implies index2[q] < order2.len()
        && order2[index2[q] as int] == q by {
        if q != t {
            assert(seen[q]);
        }
    }
}

/// The edge `x` between listed states, in the numbers of the list, is `e`.
pub open spec fn moved_edge<V>(
    seen: Seq<bool>,
    index: Seq<usize>,
    x: (usize, V, usize),
    e: (int, V, int),
) -> bool {
    x.0 < seen.len() && x.2 < seen.len() && seen[x.0 as int] && seen[x.2 as int] && e == (
        index[x.0 as int] as int,
        x.1,
        index[x.2 as int] as int,
    )
}

impl<V: Eq + Hash + Copy> NFA<V> {
    /// Walks the automaton from its initial states. Returns, for every
    /// state, whether some word leads to it; the reachable states in the
    /// order in which the walk finds them; and for every reachable state its
    /// place in that order.
    fn explore(&self) -> (found: (Vec<bool>, Vec<usize>, Vec<usize>))
        ensures
            found.0@.len() == self@.size,
            forall|q: int| 0 <= q < found.0@.len() ==> (found.0@[q] <==> self@.reachable(q)),
            flag_set(found.0@) == self@.reachable_set(),
            listing(found.0@, found.1@, found.2@),
            self@.discovery_order(as_ints(found.1@)),
    {
        proof {
            use_type_invariant(self);
        }
        let ghost m = self@;
        let n = self.transitions.len();
        let mut seen = no_flags(n);
        proof {
            lemma_count_false_all(seen@);
        }
        let mut index: Vec<usize> = no_places(n);
        let mut order: Vec<usize> = Vec::new();
        let mut stack: Vec<usize> = Vec::new();
        let starts = set_items(&self.initials);
        let mut i: usize = 0;
        proof {
            assert forall|j: int| 0 <= j < starts@.len() implies #[trigger] starts@[j] < n by {
                assert(starts@.contains(starts@[j]));
                assert(self.initials@.contains(starts@[j]));
                assert(m.initials.contains(starts@[j] as int));
            }
        }
        while i < starts.len()
            invariant
                m == self@,
                m.wf(),
                n == self.transitions@.len(),
                seen@.len() == n,
                i <= starts@.len(),
                starts@.to_set() == self.initials@,
                listing(seen@, order@, index@),
                order@.len() + count_false(seen@) == n,
                forall|k: int| 0 <= k < order@.len() ==> m.initials.contains(#[trigger] order@[k] as int),
                forall|q: int| 0 <= q < n && seen@[q] ==> m.reachable(q),
                forall|q: int| 0 <= q < n && seen@[q] ==> seq_has(stack@, q),
                forall|k: int|
                    0 <= k < stack@.len() ==> #[trigger] stack@[k] < n && seen@[stack@[k] as int],
                forall|j: int| 0 <= j < starts@.len() ==> #[trigger] starts@[j] < n,
                forall|j: int| 0 <= j < i ==> seen@[(#[trigger] starts@[j]) as int],
            decreases starts@.len() - i,
        {
            let x = starts[i];
            proof {
                assert(starts@.contains(starts@[i as int]));
                assert(self.initials@.contains(x));
                assert(m.initials.contains(x as int));
                lemma_reachable_initial(m, x as int);
            }
            if !seen[x] {
                let ghost old_stack = stack@;
                let ghost old_seen = seen@;
                let ghost old_order = order@;
                let ghost old_index = index@;
                proof {
                    lemma_count_false_update(old_seen, x as int);
                    lemma_listing_push(old_seen, old_order, old_index, x);
                }
                index.set(x, order.len());
                seen.set(x, true);
                order.push(x);
                stack.push(x);
                proof {
                    assert forall|q: int| 0 <= q < n && seen@[q] implies seq_has(stack@, q) by {
                        lemma_seq_has_push(old_stack, x, q);
                    }
                    assert forall|k: int| 0 <= k < order@.len() implies m.initials.contains(
                        #[trigger] order@[k] as int,
                    ) by {
                        if k < old_order.len() {
                            assert(order@[k] == old_order[k]);
                        }
                    }
                }
            }
            i += 1;
        }
        let ghost done: Set<int> = Set::empty();
        let ghost first = order@.len();
        proof {
            assert forall|q: int| m.initials.contains(q) implies seen@[q] by {
                assert(starts@.to_set().contains(q as usize));
                assert(starts@.contains(q as usize));
                let j = choose|j: int| 0 <= j < starts@.len() && starts@[j] == q as usize;
                assert(seen@[starts@[j] as int]);
            }
        }
        while stack.len() > 0
            invariant
                obeys_key_model::<V>(),
                m == self@,
                m.wf(),
                n == self.transitions@.len(),
                seen@.len() == n,
                listing(seen@, order@, index@),
                order@.len() + count_false(seen@) == n,
                first <= order@.len(),
                forall|k: int|
                    0 <= k < order@.len() ==> (k < first <==> m.initials.contains(
                        #[trigger] order@[k] as int,
                    )),
                forall|k: int| first <= k < order@.len() ==> #[trigger] found_from_earlier(m, as_ints(order@), k),
                forall|q: int| m.initials.contains(q) ==> seen@[q],
                forall|q: int| 0 <= q < n && seen@[q] ==> m.reachable(q),
                forall|q: int| 0 <= q < n && seen@[q] ==> done.contains(q) || seq_has(stack@, q),
                forall|k: int| 0 <= k < stack@.len() ==> #[trigger] stack@[k] < n && seen@[stack@[k] as int],
                forall|p: int, v: V, q: int|
                    done.contains(p) && #[trigger] m.edges.contains((p, v, q)) ==> seen@[q],
            decreases 2 * count_false(seen@) + stack@.len(),
        {
            let ghost before = 2 * count_false(seen@) + stack@.len();
            let ghost old_stack = stack@;
            let p = stack.pop().unwrap();
            proof {
                assert(stack@ == old_stack.drop_last());
                assert(p == old_stack[old_stack.len() - 1]);
                assert forall|q: int| 0 <= q < n && seen@[q] implies done.contains(q) || seq_has(
                    stack@,
                    q,
                ) || q == p by {
                    if !done.contains(q) {
                        lemma_seq_has_pop(old_stack, q);
                    }
                }
            }
            let keys = map_keys(&self.transitions[p]);
            let mut ki: usize = 0;
            while ki < keys.len()
                invariant
                    obeys_key_model::<V>(),
                    m == self@,
                    m.wf(),
                    n == self.transitions@.len(),
                    seen@.len() == n,
                    p < n,
                    seen@[p as int],
                    ki <= keys@.len(),
                    keys@.to_set() == self.transitions@[p as int]@.dom(),
                    listing(seen@, order@, index@),
                    order@.len() + count_false(seen@) == n,
                    first <= order@.len(),
                    forall|k: int|
                        0 <= k < order@.len() ==> (k < first <==> m.initials.contains(
                            #[trigger] order@[k] as int,
                        )),
                    forall|k: int|
                        first <= k < order@.len() ==> #[trigger] found_from_earlier(
                            m,
                            as_ints(order@),
                            k,
                        ),
                    forall|q: int| m.initials.contains(q) ==> seen@[q],
                    forall|q: int| 0 <= q < n && seen@[q] ==> m.reachable(q),
                    forall|q: int|
                        0 <= q < n && seen@[q] ==> done.contains(q) || seq_has(stack@, q) || q == p,
                    forall|k: int|
                        0 <= k < stack@.len() ==> #[trigger] stack@[k] < n && seen@[stack@[k] as int],
                    forall|origin: int, v: V, q: int|
                        done.contains(origin) && #[trigger] m.edges.contains((origin, v, q)) ==> seen@[q],
                    forall|v: V, q: int|
                        (exists|kj: int| 0 <= kj < ki && keys@[kj] == v) && #[trigger] m.edges.contains(
                            (p as int, v, q),
                        ) ==> seen@[q],
                    2 * count_false(seen@) + stack@.len() < before,
                decreases keys@.len() - ki,
            {
                let k = keys[ki];
                proof {
                    assert(keys@.contains(keys@[ki as int]));
                    assert(keys@.to_set().contains(k));
                }
                match self.transitions[p].get(&k) {
                    None => {
                        assert(false);
                    },
                    Some(ts) => {
                        let mut j: usize = 0;
                        proof {
                            assert forall|jj: int| 0 <= jj < ts@.len() implies #[trigger] ts@[jj]
                                < n by {
                                assert(ts@[jj] as int == ts@[jj] as int);
                                assert(table_has(self.transitions@, p as int, k, ts@[jj] as int));
                                assert(m.edges.contains((p as int, k, ts@[jj] as int)));
                            }
                        }
                        while j < ts.len()
                            invariant
                                obeys_key_model::<V>(),
                                m == self@,
                                m.wf(),
                                n == self.transitions@.len(),
                                seen@.len() == n,
                                p < n,
                                seen@[p as int],
                                forall|jj: int| 0 <= jj < ts@.len() ==> #[trigger] ts@[jj] < n,
                                ki < keys@.len(),
                                k == keys@[ki as int],
                                j <= ts@.len(),
                                self.transitions@[p as int]@.contains_key(k),
                                self.transitions@[p as int]@[k] == *ts,
                                listing(seen@, order@, index@),
                                order@.len() + count_false(seen@) == n,
                                first <= order@.len(),
                                forall|k: int|
                                    0 <= k < order@.len() ==> (k < first <==> m.initials.contains(
                                        #[trigger] order@[k] as int,
                                    )),
                                forall|k: int|
                                    first <= k < order@.len() ==> #[trigger] found_from_earlier(
                                        m,
                                        as_ints(order@),
                                        k,
                                    ),
                                forall|q: int| m.initials.contains(q) ==> seen@[q],
                                forall|q: int| 0 <= q < n && seen@[q] ==> m.reachable(q),
                                forall|q: int|
                                    0 <= q < n && seen@[q] ==> done.contains(q) || seq_has(stack@, q)
                                        || q == p,
                                forall|k: int|
                                    0 <= k < stack@.len() ==> #[trigger] stack@[k] < n
                                        && seen@[stack@[k] as int],
                                forall|origin: int, v: V, q: int|
                                    done.contains(origin) && #[trigger] m.edges.contains((origin, v, q))
                                        ==> seen@[q],
                                forall|v: V, q: int|
                                    (exists|kj: int| 0 <= kj < ki && keys@[kj] == v)
                                        && #[trigger] m.edges.contains((p as int, v, q))
                                        ==> seen@[q],
                                forall|jj: int| 0 <= jj < j ==> seen@[(#[trigger] ts@[jj]) as int],
                                2 * count_false(seen@) + stack@.len() < before,
                            decreases ts@.len() - j,
                        {
                            let t = ts[j];
                            proof {
                                assert(ts@[j as int] as int == t as int);
                                assert(table_has(self.transitions@, p as int, k, t as int));
                                assert(m.edges.contains((p as int, k, t as int)));
                                lemma_reachable_step(m, p as int, k, t as int);
                            }
                            if !seen[t] {
                                let ghost old_seen = seen@;
                                let ghost stack_before = stack@;
                                let ghost old_order = order@;
                                let ghost old_index = index@;
                                proof {
                                    lemma_count_false_update(old_seen, t as int);
                                    lemma_listing_push(old_seen, old_order, old_index, t);
                                }
                                index.set(t, order.len());
                                seen.set(t, true);
                                order.push(t);
                                stack.push(t);
                                proof {
                                    lemma_count_false_update(old_seen, t as int);
                                    assert forall|q: int| 0 <= q < n && seen@[q] implies done.contains(
                                        q,
                                    ) || seq_has(stack@, q) || q == p by {
                                        lemma_seq_has_push(stack_before, t, q);
                                    }
                                    let ord = as_ints(order@);
                                    let old_ord = as_ints(old_order);
                                    let last = old_order.len() as int;
                                    assert forall|x: int| 0 <= x < old_order.len() implies ord[x]
                                        == old_ord[x] by {
                                        assert(order@[x] == old_order[x]);
                                    }
                                    assert forall|x: int|
                                        0 <= x < order@.len() implies (x < first <==> m.initials.contains(
                                        #[trigger] order@[x] as int,
                                    )) by {
                                        if x < old_order.len() {
                                            assert(order@[x] == old_order[x]);
                                        }
                                    }
                                    assert forall|x: int|
                                        first <= x < order@.len() implies #[trigger] found_from_earlier(
                                        m,
                                        ord,
                                        x,
                                    ) by {
                                        if x < last {
                                            assert(found_from_earlier(m, old_ord, x));
                                            let (a, b) = choose|a: int, b: V|
                                                0 <= a < x && #[trigger] m.edges.contains(
                                                    (old_ord[a], b, old_ord[x]),
                                                );
                                            assert(m.edges.contains((ord[a], b, ord[x])));
                                        } else {
                                            let a = old_index[p as int] as int;
                                            assert(old_order[a] == p);
                                            assert(m.edges.contains((ord[a], k, ord[x])));
                                        }
                                    }
                                }
                            }
                            j += 1;
                        }
                        proof {
                            assert forall|v: V, q: int|
                                (exists|kj: int| 0 <= kj < ki + 1 && keys@[kj] == v)
                                    && #[trigger] m.edges.contains((p as int, v, q)) implies seen@[q] by {
                                if v == k {
                                    let jj = choose|jj: int|
                                        0 <= jj < ts@.len() && #[trigger] ts@[jj] as int == q;
                                    assert(seen@[ts@[jj] as int]);
                                } else {
                                    let kj = choose|kj: int| 0 <= kj < ki + 1 && keys@[kj] == v;
                                    assert(0 <= kj < ki && keys@[kj] == v);
                                }
                            }
                        }
                    },
                }
                ki += 1;
            }
            proof {
                let ghost old_done = done;
                done = done.insert(p as int);
                assert forall|origin: int, v: V, q: int|
                    done.contains(origin) && #[trigger] m.edges.contains((origin, v, q)) implies seen@[q] by {
                    if origin == p {
                        assert(table_has(self.transitions@, p as int, v, q));
                        assert(keys@.to_set().contains(v));
                        assert(keys@.contains(v));
                        let kj = choose|kj: int| 0 <= kj < keys@.len() && keys@[kj] == v;
                        assert(0 <= kj < ki && keys@[kj] == v);
                    }
                }
            }
        }
        proof {
            let s = flag_set(seen@);
            assert forall|p: int, v: V, q: int|
                s.contains(p) && #[trigger] m.edges.contains((p, v, q)) implies s.contains(q) by {
                if !done.contains(p) {
                    assert(seq_has(stack@, p));
                }
            }
            assert forall|q: int| 0 <= q < seen@.len() implies (seen@[q] <==> m.reachable(q)) by {
                if m.reachable(q) {
                    let w = choose|w: Seq<V>| #[trigger] m.reach(m.initials, w).contains(q);
                    lemma_closed_holds_reach(m, s, w);
                }
            }
            assert forall|q: int| s.contains(q) <==> m.reachable_set().contains(q) by {
                if m.reachable(q) {
                    lemma_reachable_in_range(m, q);
                }
            }
            assert(s =~= m.reachable_set());
            let ord = as_ints(order@);
            assert forall|a: int, b: int| 0 <= a < ord.len() && 0 <= b < ord.len() && a != b implies ord[a]
                != ord[b] by {
                assert(index@[order@[a] as int] == a && index@[order@[b] as int] == b);
            }
            assert forall|q: int| ord.contains(q) <==> m.reachable(q) by {
                if ord.contains(q) {
                    let a = choose|a: int| 0 <= a < ord.len() && ord[a] == q;
                    assert(seen@[order@[a] as int]);
                }
                if m.reachable(q) {
                    lemma_reachable_in_range(m, q);
                    assert(seen@[q]);
                    assert(ord[index@[q] as int] == q);
                }
            }
            assert forall|a: int| 0 <= a < ord.len() implies m.initials.contains(#[trigger] ord[a])
                || found_from_earlier(m, ord, a) by {
                assert(a < first <==> m.initials.contains(order@[a] as int));
            }
            assert forall|a: int, b: int|
                0 <= a < b < ord.len() && m.initials.contains(#[trigger] ord[b]) implies m.initials.contains(
                #[trigger] ord[a],
            ) by {
                assert(b < first <==> m.initials.contains(order@[b] as int));
                assert(a < first <==> m.initials.contains(order@[a] as int));
            }
        }
        (seen, order, index)
    }

    /// For every state, whether some word leads to it from an initial state.
    fn reach_flags(&self) -> (seen: Vec<bool>)
        ensures
            seen@.len() == self@.size,
            forall|q: int| 0 <= q < seen@.len() ==> (seen@[q] <==> self@.reachable(q)),
            flag_set(seen@) == self@.reachable_set(),
    {
        let (seen, _, _) = self.explore();
        seen
    }

    /// Whether every state is reached from an initial state.
    pub fn is_reachable(&self) -> (r: bool)
        ensures
            r == self@.is_reachable(),
    {
        let seen = self.reach_flags();
        let mut q: usize = 0;
        while q < seen.len()
            invariant
                q <= seen@.len(),
                seen@.len() == self@.size,
                forall|x: int| 0 <= x < seen@.len() ==> (seen@[x] <==> self@.reachable(x)),
                forall|x: int| 0 <= x < q ==> self@.reachable(x),
            decreases seen@.len() - q,
        {
            if !seen[q] {
                return false;
            }
            q += 1;
        }
        true
    }

    /// Whether a final state is reached from every state.
    pub fn is_coreachable(&self) -> (r: bool)
        ensures
            r == self@.reverse().is_reachable(),
    {
        self.clone().reverse().is_reachable()
    }

    /// Whether every state lies on a path from an initial to a final state.
    pub fn is_trimmed(&self) -> (r: bool)
        ensures
            r == (self@.is_reachable() && self@.reverse().is_reachable()),
    {
        self.is_reachable() && self.is_coreachable()
    }

    /// Whether the automaton accepts no word at all.
    pub fn is_empty(&self) -> (r: bool)
        ensures
            r == self@.is_empty(),
    {
        proof {
            use_type_invariant(self);
        }
        let ghost m = self@;
        if sets_meet(&self.initials, &self.finals) {
            proof {
                let q = choose|q: int| #[trigger]
                    ints(self.initials@).contains(q) && ints(self.finals@).contains(q);
                assert(m.reach(m.initials, Seq::<V>::empty()).contains(q));
                assert(m.accepts(Seq::<V>::empty()));
            }
            return false;
        }
        let seen = self.reach_flags();
        let items = set_items(&self.finals);
        let mut i: usize = 0;
        while i < items.len()
            invariant
                m == self@,
                m.wf(),
                i <= items@.len(),
                items@.to_set() == self.finals@,
                seen@.len() == m.size,
                forall|x: int| 0 <= x < seen@.len() ==> (seen@[x] <==> m.reachable(x)),
                forall|j: int| 0 <= j < i ==> !m.reachable((#[trigger] items@[j]) as int),
            decreases items@.len() - i,
        {
            let f = items[i];
            proof {
                assert(items@.contains(items@[i as int]));
                assert(self.finals@.contains(f));
                assert(m.finals.contains(f as int));
            }
            if seen[f] {
                proof {
                    let w = choose|w: Seq<V>| #[trigger] m.reach(m.initials, w).contains(f as int);
                    assert(m.accepts(w));
                }
                return false;
            }
            i += 1;
        }
        proof {
            assert forall|w: Seq<V>| !m.accepts(w) by {
                if m.accepts(w) {
                    let q = choose|q: int| #[trigger]
                        m.reach(m.initials, w).contains(q) && m.finals.contains(q);
                    assert(m.reachable(q));
                    assert(items@.to_set().contains(q as usize));
                    assert(items@.contains(q as usize));
                    let j = choose|j: int| 0 <= j < items@.len() && items@[j] == q as usize;
                    assert(!m.reachable(items@[j] as int));
                }
            }
        }
        true
    }

    /// Whether some initial state is final and every reachable state is
    /// final.
    pub fn is_full(&self) -> (r: bool)
        ensures
            r == self@.is_full(),
    {
        proof {
            use_type_invariant(self);
        }
        let ghost m = self@;
        if !self.accepts_nothing_read() {
            return false;
        }
        let seen = self.reach_flags();
        let mut q: usize = 0;
        while q < seen.len()
            invariant
                m == self@,
                m.wf(),
                q <= seen@.len(),
                seen@.len() == m.size,
                forall|x: int| 0 <= x < seen@.len() ==> (seen@[x] <==> m.reachable(x)),
                forall|x: int| 0 <= x < q && m.reachable(x) ==> m.finals.contains(x),
            decreases seen@.len() - q,
        {
            if seen[q] && !self.finals.contains(&q) {
                proof {
                    assert(m.reachable(q as int) && !m.finals.contains(q as int));
                }
                return false;
            }
            q += 1;
        }
        proof {
            assert forall|x: int| #[trigger] m.reachable(x) implies m.finals.contains(x) by {
                lemma_reachable_in_range(m, x);
            }
        }
        true
    }

    /// The automaton with the listed states only, numbered as the list
    /// numbers them.
    fn renumber(self, seen: &Vec<bool>, order: &Vec<usize>, index: &Vec<usize>) -> (r: NFA<V>)
        requires
            seen@.len() == self@.size,
            listing(seen@, order@, index@),
        ensures
            r@ == self@.renumber(as_ints(order@)),
    {
        proof {
            use_type_invariant(&self);
        }
        let ghost m = self@;
        let ghost ord = as_ints(order@);
        let NFA { alphabet, initials, finals, transitions } = self;
        let list = edge_list(&transitions);
        let mut t: Vec<HashMap<V, Vec<usize>>> = empty_table(order.len());
        let mut i: usize = 0;
        while i < list.len()
            invariant
                obeys_key_model::<V>(),
                m.wf(),
                m.size == seen@.len(),
                listing(seen@, order@, index@),
                forall|e: (int, V, int)| #[trigger] m.edges.contains(e) <==> list_has(list@, e),
                i <= list@.len(),
                t@.len() == order@.len(),
                forall|e: (int, V, int)| #[trigger]
                    table_edges(t@).contains(e) <==> exists|j: int|
                        0 <= j < i && moved_edge(seen@, index@, #[trigger] list@[j], e),
            decreases list@.len() - i,
        {
            let (p, v, q) = list[i];
            let ghost before = t@;
            proof {
                assert(list_has(list@, edge_of(list@[i as int])));
                assert(m.edges.contains((p as int, v, q as int)));
            }
            if seen[p] && seen[q] {
                add_edge(&mut t, index[p], v, index[q]);
            }
            proof {
                assert forall|e: (int, V, int)| #[trigger]
                    table_edges(t@).contains(e) <==> exists|j: int|
                        0 <= j < i + 1 && moved_edge(seen@, index@, #[trigger] list@[j], e) by {
                    assert(table_edges(before).contains(e) <==> exists|j: int|
                        0 <= j < i && moved_edge(seen@, index@, #[trigger] list@[j], e));
                    assert(table_edges(t@).contains(e) <==> table_edges(before).contains(e)
                        || moved_edge(seen@, index@, list@[i as int], e));
                    if exists|j: int|
                        0 <= j < i + 1 && moved_edge(seen@, index@, #[trigger] list@[j], e) {
                        let j = choose|j: int|
                            0 <= j < i + 1 && moved_edge(seen@, index@, #[trigger] list@[j], e);
                        if j < i {
                            assert(exists|j: int|
                                0 <= j < i && moved_edge(seen@, index@, #[trigger] list@[j], e));
                        }
                    }
                }
            }
            i += 1;
        }
        proof {
            assert forall|x: usize| initials@.contains(x) implies x < seen@.len() by {
                assert(m.initials.contains(x as int));
            }
            assert forall|x: usize| finals@.contains(x) implies x < seen@.len() by {
                assert(m.finals.contains(x as int));
            }
        }
        let new_initials = remap_set(&initials, seen, index);
        let new_finals = remap_set(&finals, seen, index);
        proof {
            let c = m.renumber(ord);
            assert forall|e: (int, V, int)| #[trigger]
                table_edges(t@).contains(e) <==> c.edges.contains(e) by {
                if table_edges(t@).contains(e) {
                    let j = choose|j: int| 0 <= j < i && moved_edge(seen@, index@, #[trigger] list@[j], e);
                    assert(list_has(list@, edge_of(list@[j])));
                    let x = list@[j];
                    assert(ord[e.0] == x.0 && ord[e.2] == x.2);
                    assert(m.edges.contains((ord[e.0], e.1, ord[e.2])));
                }
                if c.edges.contains(e) {
                    let x = (ord[e.0], e.1, ord[e.2]);
                    assert(list_has(list@, x));
                    let j = choose|j: int| 0 <= j < list@.len() && edge_of(#[trigger] list@[j]) == x;
                    assert(order@[e.0] == list@[j].0 && order@[e.2] == list@[j].2);
                    assert(moved_edge(seen@, index@, list@[j], e));
                }
            }
            assert(table_edges(t@) =~= c.edges);
            assert forall|y: int| ints(new_initials@).contains(y) <==> c.initials.contains(y) by {
                if ints(new_initials@).contains(y) {
                    let q = choose|q: int|
                        #![trigger ints(initials@).contains(q)]
                        ints(initials@).contains(q) && seen@[q] && y == index@[q];
                    assert(ord[y] == q);
                }
                if c.initials.contains(y) {
                    let q = ord[y];
                    assert(order@[y] as int == q);
                    assert(ints(initials@).contains(q) && seen@[q] && y == index@[q]);
                }
            }
            assert(ints(new_initials@) =~= c.initials);
            assert forall|y: int| ints(new_finals@).contains(y) <==> c.finals.contains(y) by {
                if ints(new_finals@).contains(y) {
                    let q = choose|q: int|
                        #![trigger ints(finals@).contains(q)]
                        ints(finals@).contains(q) && seen@[q] && y == index@[q];
                    assert(ord[y] == q);
                }
                if c.finals.contains(y) {
                    let q = ord[y];
                    assert(order@[y] as int == q);
                    assert(ints(finals@).contains(q) && seen@[q] && y == index@[q]);
                }
            }
            assert(ints(new_finals@) =~= c.finals);
            lemma_renumber_wf(m, ord);
        }
        NFA::from_parts(alphabet, new_initials, new_finals, t)
    }

    /// The same language without the states that no word reaches. The
    /// states that stay are numbered in the order in which a walk from the
    /// initial states finds them.
    pub fn make_reachable(self) -> (r: NFA<V>)
        ensures
            self@.prunes(r@),
            self@.proper() ==> r@.proper(),
            r@.size <= self@.size,
            r@.is_reachable(),
            r@.alphabet == self@.alphabet,
            forall|w: Seq<V>| r@.accepts(w) == self@.accepts(w),
    {
        self.well_formed();
        let ghost m = self@;
        let (seen, order, index) = self.explore();
        let r = self.renumber(&seen, &order, &index);
        proof {
            assert(m.discovery_order(as_ints(order@)) && r@ == m.renumber(as_ints(order@)));
            assert(m.prunes(r@));
            law_prunes_language(m, r@);
            crate::pruning::law_prunes_size(m, r@);
        }
        r
    }

    /// The same language without the states from which no final state is
    /// reached.
    pub fn make_coreachable(self) -> (r: NFA<V>)
        ensures
            self@.coprunes(r@),
            self@.proper() ==> r@.proper(),
            r@.size <= self@.size,
            r@.reverse().is_reachable(),
            r@.alphabet == self@.alphabet,
            forall|w: Seq<V>| r@.accepts(w) == self@.accepts(w),
    {
        self.well_formed();
        let ghost m = self@;
        let x = self.reverse().make_reachable();
        let ghost mx = x@;
        let r = x.reverse();
        proof {
            assert(m.reverse().prunes(mx) && r@ == mx.reverse());
            assert(m.coprunes(r@));
            law_coprunes_language(m, r@);
            law_coprunes_coreachable(m, r@);
            crate::pruning::law_coprunes_size(m, r@);
        }
        r
    }

    /// The same language with only the states that lie on a path from an
    /// initial to a final state.
    pub fn trim(self) -> (r: NFA<V>)
        ensures
            self@.trims(r@),
            self@.proper() ==> r@.proper(),
            r@.size <= self@.size,
            r@.is_reachable(),
            r@.reverse().is_reachable(),
            r@.alphabet == self@.alphabet,
            forall|w: Seq<V>| r@.accepts(w) == self@.accepts(w),
    {
        self.well_formed();
        let ghost m = self@;
        let x = self.make_reachable();
        let ghost mx = x@;
        let r = x.make_coreachable();
        proof {
            assert(m.prunes(mx) && mx.coprunes(r@));
            assert(m.trims(r@));
            law_trims_language(m, r@);
            law_trims_trimmed(m, r@);
            crate::pruning::law_trims_size(m, r@);
        }
        r
    }
}

} // verus!
