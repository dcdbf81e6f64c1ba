//! The transition table of a non-deterministic automaton: for every state a
//! map from symbols to the list of target states.

use std::collections::HashMap;
use std::hash::Hash;
use vstd::prelude::*;
use vstd::std_specs::hash::obeys_key_model;

use crate::utils::{map_keys, seq_has};

verus! {

broadcast use vstd::std_specs::hash::group_hash_axioms;

/// The table holds an edge from `p` to `q` labelled `v`.
pub open spec fn table_has<V>(t: Seq<HashMap<V, Vec<usize>>>, p: int, v: V, q: int) -> bool {
    0 <= p < t.len() && t[p]@.contains_key(v) && seq_has(t[p]@[v]@, q)
}

/// The edges that the table holds.
pub open spec fn table_edges<V>(t: Seq<HashMap<V, Vec<usize>>>) -> Set<(int, V, int)> {
    Set::new(|e: (int, V, int)| table_has(t, e.0, e.1, e.2))
}

/// An edge with machine-sized state numbers, as a mathematical triple.
pub open spec fn edge_of<V>(e: (usize, V, usize)) -> (int, V, int) {
    (e.0 as int, e.1, e.2 as int)
}

/// `e` occurs in `list`.
pub open spec fn list_has<V>(list: Seq<(usize, V, usize)>, e: (int, V, int)) -> bool {
    exists|j: int| 0 <= j < list.len() && edge_of(#[trigger] list[j]) == e
}

/// A table of `n` states without edges.
pub fn empty_table<V: Eq + Hash + Copy>(n: usize) -> (t: Vec<HashMap<V, Vec<usize>>>)
    ensures
        t@.len() == n,
        table_edges(t@) == Set::<(int, V, int)>::empty(),
        forall|p: int| 0 <= p < n ==> (#[trigger] t@[p])@ == Map::<V, Vec<usize>>::empty(),
{
    let mut t: Vec<HashMap<V, Vec<usize>>> = Vec::new();
    let mut i: usize = 0;
    while i < n
        invariant
            i <= n,
            t@.len() == i,
            forall|p: int| 0 <= p < i ==> (#[trigger] t@[p])@ == Map::<V, Vec<usize>>::empty(),
        decreases n - i,
    {
        t.push(HashMap::new());
        i += 1;
    }
    assert(table_edges(t@) =~= Set::<(int, V, int)>::empty());
    t
}

/// Adds one state without edges at the end of the table.
pub fn push_state<V: Eq + Hash + Copy>(t: &mut Vec<HashMap<V, Vec<usize>>>)
    ensures
        final(t)@.len() == old(t)@.len() + 1,
        table_edges(final(t)@) == table_edges(old(t)@),
        forall|p: int| 0 <= p < old(t)@.len() ==> final(t)@[p] == old(t)@[p],
        final(t)@[old(t)@.len() as int]@ == Map::<V, Vec<usize>>::empty(),
{
    t.push(HashMap::new());
    assert(table_edges(t@) =~= table_edges(old(t)@));
}

/// Adds the edge from `p` to `q` labelled `v`.
pub fn add_edge<V: Eq + Hash + Copy>(t: &mut Vec<HashMap<V, Vec<usize>>>, p: usize, v: V, q: usize)
    requires
        obeys_key_model::<V>(),
        p < old(t)@.len(),
    ensures
        final(t)@.len() == old(t)@.len(),
        table_edges(final(t)@) == table_edges(old(t)@).insert((p as int, v, q as int)),
{
    let ghost before = t@;
    let mut targets = match t[p].remove(&v) {
        Some(ts) => ts,
        None => Vec::new(),
    };
    let ghost old_targets = targets@;
    targets.push(q);
    t[p].insert(v, targets);
    proof {
        assert(targets@[old_targets.len() as int] == q);
        assert forall|e: (int, V, int)| table_edges(t@).contains(e) <==> table_edges(before).insert(
            (p as int, v, q as int),
        ).contains(e) by {
            if e.0 == p && e.1 == v {
                if table_has(t@, e.0, e.1, e.2) {
                    let j = choose|j: int| 0 <= j < targets@.len() && #[trigger] targets@[j] as int == e.2;
                    if j < old_targets.len() {
                        assert(old_targets[j] as int == e.2);
                    }
                }
                if table_has(before, e.0, e.1, e.2) {
                    let j = choose|j: int|
                        0 <= j < old_targets.len() && #[trigger] old_targets[j] as int == e.2;
                    assert(targets@[j] as int == e.2);
                }
            } else if 0 <= e.0 < t@.len() {
                if e.0 != p {
                    assert(t@[e.0] == before[e.0]);
                } else {
                    assert(t@[e.0]@.contains_key(e.1) == before[e.0]@.contains_key(e.1));
                }
            }
        }
        assert(table_edges(t@) =~= table_edges(before).insert((p as int, v, q as int)));
    }
}

/// Whether state `p` has an edge labelled `v`.
pub fn has_target<V: Eq + Hash + Copy>(t: &Vec<HashMap<V, Vec<usize>>>, p: usize, v: &V) -> (r: bool)
    requires
        obeys_key_model::<V>(),
        p < t@.len(),
    ensures
        r <==> exists|q: int| #[trigger] table_edges(t@).contains((p as int, *v, q)),
{
    match t[p].get(v) {
        None => {
            false
        },
        Some(ts) => {
            if ts.len() > 0 {
                proof {
                    assert(ts@[0] as int == ts@[0] as int);
                    assert(table_has(t@, p as int, *v, ts@[0] as int));
                    assert(table_edges(t@).contains((p as int, *v, ts@[0] as int)));
                }
                true
            } else {
                false
            }
        },
    }
}

/// Every edge of the table, source by source.
pub fn edge_list<V: Eq + Hash + Copy>(t: &Vec<HashMap<V, Vec<usize>>>) -> (list: Vec<
    (usize, V, usize),
>)
    requires
        obeys_key_model::<V>(),
    ensures
        forall|e: (int, V, int)| table_edges(t@).contains(e) <==> list_has(list@, e),
{
    let mut list: Vec<(usize, V, usize)> = Vec::new();
    let mut p: usize = 0;
    while p < t.len()
        invariant
            obeys_key_model::<V>(),
            p <= t@.len(),
            forall|e: (int, V, int)| list_has(list@, e) ==> table_edges(t@).contains(e),
            forall|e: (int, V, int)|
                table_edges(t@).contains(e) && e.0 < p ==> list_has(list@, e),
        decreases t@.len() - p,
    {
        let keys = map_keys(&t[p]);
        let mut ki: usize = 0;
        while ki < keys.len()
            invariant
                obeys_key_model::<V>(),
                p < t@.len(),
                ki <= keys@.len(),
                keys@.to_set() == t@[p as int]@.dom(),
                forall|e: (int, V, int)| list_has(list@, e) ==> table_edges(t@).contains(e),
                forall|e: (int, V, int)|
                    table_edges(t@).contains(e) && (e.0 < p || (e.0 == p && exists|kj: int|
                        0 <= kj < ki && keys@[kj] == e.1)) ==> list_has(list@, e),
            decreases keys@.len() - ki,
        {
            let k = keys[ki];
            proof {
                assert(keys@.contains(keys@[ki as int]));
                assert(keys@.to_set().contains(k));
            }
            let found = t[p].get(&k);
            match found {
                None => {
                    assert(false);
                },
                Some(ts) => {
                    let mut j: usize = 0;
                    while j < ts.len()
                        invariant
                            p < t@.len(),
                            ki < keys@.len(),
                            k == keys@[ki as int],
                            j <= ts@.len(),
                            t@[p as int]@.contains_key(k),
                            t@[p as int]@[k] == *ts,
                            forall|e: (int, V, int)|
                                list_has(list@, e) ==> table_edges(t@).contains(e),
                            forall|e: (int, V, int)|
                                table_edges(t@).contains(e) && (e.0 < p || (e.0 == p && exists|
                                    kj: int,
                                | 0 <= kj < ki && keys@[kj] == e.1) || (e.0 == p && e.1 == k
                                    && exists|jj: int| 0 <= jj < j && ts@[jj] as int == e.2))
                                    ==> list_has(list@, e),
                        decreases ts@.len() - j,
                    {
                        let ghost before = list@;
                        let q = ts[j];
                        list.push((p, k, q));
                        proof {
                            let added = (p as int, k, q as int);
                            assert(edge_of(list@[before.len() as int]) == added);
                            assert(list_has(list@, added));
                            assert(ts@[j as int] as int == q as int);
                            assert(table_has(t@, p as int, k, q as int));
                            assert forall|e: (int, V, int)| list_has(before, e) implies list_has(
                                list@,
                                e,
                            ) by {
                                let i = choose|i: int|
                                    0 <= i < before.len() && edge_of(#[trigger] before[i]) == e;
                                assert(edge_of(list@[i]) == e);
                            }
                            assert forall|e: (int, V, int)|
                                table_edges(t@).contains(e) && (e.0 < p || (e.0 == p && exists|
                                    kj: int,
                                | 0 <= kj < ki && keys@[kj] == e.1) || (e.0 == p && e.1 == k
                                    && exists|jj: int|
                                    0 <= jj < j + 1 && ts@[jj] as int == e.2)) implies list_has(
                                list@,
                                e,
                            ) by {
                                if e.0 < p || (e.0 == p && exists|kj: int|
                                    0 <= kj < ki && keys@[kj] == e.1) {
                                    assert(list_has(before, e));
                                } else {
                                    let jj = choose|jj: int|
                                        0 <= jj < j + 1 && ts@[jj] as int == e.2;
                                    if jj < j {
                                        assert(list_has(before, e));
                                    } else {
                                        assert(e == added);
                                    }
                                }
                            }
                            assert forall|e: (int, V, int)| list_has(list@, e) implies table_edges(
                                t@,
                            ).contains(e) by {
                                let i = choose|i: int|
                                    0 <= i < list@.len() && edge_of(#[trigger] list@[i]) == e;
                                if i < before.len() {
                                    assert(edge_of(before[i]) == e);
                                    assert(list_has(before, e));
                                }
                            }
                        }
                        j += 1;
                    }
                    proof {
                        assert forall|e: (int, V, int)|
                            table_edges(t@).contains(e) && (e.0 < p || (e.0 == p && exists|kj: int|
                                0 <= kj < ki + 1 && keys@[kj] == e.1)) implies list_has(
                            list@,
                            e,
                        ) by {
                            if e.0 == p && e.1 == k {
                                let jj = choose|jj: int|
                                    0 <= jj < ts@.len() && #[trigger] ts@[jj] as int == e.2;
                                assert(ts@[jj] as int == e.2);
                            } else if e.0 == p {
                                let kj = choose|kj: int| 0 <= kj < ki + 1 && keys@[kj] == e.1;
                                assert(kj < ki);
                            }
                        }
                    }
                },
            }
            ki += 1;
        }
        proof {
            assert forall|e: (int, V, int)|
                table_edges(t@).contains(e) && e.0 < p + 1 implies list_has(list@, e) by {
                if e.0 == p {
                    assert(keys@.to_set().contains(e.1));
                    assert(keys@.contains(e.1));
                    let kj = choose|kj: int| 0 <= kj < keys@.len() && keys@[kj] == e.1;
                    assert(0 <= kj < ki && keys@[kj] == e.1);
                }
            }
        }
        p += 1;
    }
    list
}

/// A table with the same edges.
pub fn copy_table<V: Eq + Hash + Copy>(t: &Vec<HashMap<V, Vec<usize>>>) -> (r: Vec<
    HashMap<V, Vec<usize>>,
>)
    requires
        obeys_key_model::<V>(),
    ensures
        r@.len() == t@.len(),
        table_edges(r@) == table_edges(t@),
{
    let list = edge_list(t);
    let mut r: Vec<HashMap<V, Vec<usize>>> = empty_table(t.len());
    let mut i: usize = 0;
    while i < list.len()
        invariant
            obeys_key_model::<V>(),
            i <= list@.len(),
            r@.len() == t@.len(),
            forall|e: (int, V, int)| table_edges(t@).contains(e) <==> list_has(list@, e),
            forall|e: (int, V, int)|
                table_edges(r@).contains(e) <==> list_has(list@.take(i as int), e),
        decreases list@.len() - i,
    {
        let (p, v, q) = list[i];
        proof {
            assert(list_has(list@, edge_of(list@[i as int])));
            assert(table_has(t@, p as int, v, q as int));
            lemma_list_has_take_next(list@, i as int);
        }
        let ghost before = r@;
        add_edge(&mut r, p, v, q);
        proof {
            assert(edge_of(list@[i as int]) == (p as int, v, q as int));
            assert forall|e: (int, V, int)|
                table_edges(r@).contains(e) <==> list_has(list@.take(i + 1), e) by {
                assert(table_edges(r@).contains(e) <==> table_edges(before).contains(e) || e == (
                    p as int,
                    v,
                    q as int,
                ));
            }
        }
        i += 1;
    }
    proof {
        assert(list@.take(list@.len() as int) =~= list@);
        assert(table_edges(r@) =~= table_edges(t@));
    }
    r
}

/// The first `i + 1` entries of a list hold what the first `i` hold, and
/// entry `i`.
pub proof fn lemma_list_has_take_next<V>(list: Seq<(usize, V, usize)>, i: int)
    requires
        0 <= i < list.len(),
    ensures
        forall|e: (int, V, int)|
            list_has(list.take(i + 1), e) <==> list_has(list.take(i), e) || e == edge_of(list[i]),
{
    assert forall|e: (int, V, int)|
        list_has(list.take(i + 1), e) <==> list_has(list.take(i), e) || e == edge_of(
            list[i],
        ) by {
        if list_has(list.take(i + 1), e) {
            let j = choose|j: int|
                0 <= j < list.take(i + 1).len() && edge_of(#[trigger] list.take(i + 1)[j]) == e;
            if j < i {
                assert(edge_of(list.take(i)[j]) == e);
            }
        }
        if list_has(list.take(i), e) {
            let j = choose|j: int|
                0 <= j < list.take(i).len() && edge_of(#[trigger] list.take(i)[j]) == e;
            assert(edge_of(list.take(i + 1)[j]) == e);
        }
        if e == edge_of(list[i]) {
            assert(edge_of(list.take(i + 1)[i]) == e);
        }
    }
}

} // verus!
