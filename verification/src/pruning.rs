//! Completing and pruning an automaton keeps its language.

use vstd::prelude::*;

use crate::lemmas::lemma_reach_in_range;
use crate::mirror::{law_reverse_language, law_reverse_reverse, lemma_reverse_wf};
use crate::model::NfaModel;

verus! {

/// The renumbered automaton is well formed and has the same alphabet.
pub proof fn lemma_renumber_wf<V>(a: NfaModel<V>, order: Seq<int>)
    ensures
        a.renumber(order).wf(),
        a.renumber(order).alphabet == a.alphabet,
        a.proper() ==> a.renumber(order).proper(),
{
    let c = a.renumber(order);
    if a.proper() {
        assert forall|p: int, v: V, q: int| #[trigger]
            c.edges.contains((p, v, q)) implies c.alphabet.contains(v) by {
            assert(a.edges.contains((order[p], v, order[q])));
        }
    }
}

/// Where the list holds every reachable state, a word leads in the
/// renumbered automaton to the numbers of the states that it led to before.
pub proof fn lemma_renumber_reach<V>(a: NfaModel<V>, order: Seq<int>, w: Seq<V>)
    requires
        forall|q: int| a.reachable(q) ==> order.contains(q),
    ensures
        forall|k: int|
            a.renumber(order).reach(a.renumber(order).initials, w).contains(k) <==> 0 <= k
                < order.len() && a.reach(a.initials, w).contains(order[k]),
    decreases w.len(),
{
    let c = a.renumber(order);
    let here_c = c.reach(c.initials, w);
    let here = a.reach(a.initials, w);
    if w.len() > 0 {
        let w1 = w.drop_last();
        let v = w.last();
        lemma_renumber_reach(a, order, w1);
        let prev_c = c.reach(c.initials, w1);
        let prev = a.reach(a.initials, w1);
        assert forall|k: int| here_c.contains(k) <==> 0 <= k < order.len() && here.contains(
            order[k],
        ) by {
            if here_c.contains(k) {
                let j = choose|j: int| prev_c.contains(j) && #[trigger] c.edges.contains((j, v, k));
                assert(prev.contains(order[j]) && a.edges.contains((order[j], v, order[k])));
            }
            if 0 <= k < order.len() && here.contains(order[k]) {
                let p = choose|p: int| prev.contains(p) && #[trigger] a.edges.contains((p, v, order[k]));
                assert(a.reachable(p));
                assert(order.contains(p));
                let j = choose|j: int| 0 <= j < order.len() && order[j] == p;
                assert(prev_c.contains(j) && c.edges.contains((j, v, k)));
            }
        }
    }
}

/// Dropping the states that no word reaches does not change the words that
/// the automaton accepts; every state that stays is reachable.
pub proof fn law_prunes_language<V>(a: NfaModel<V>, r: NfaModel<V>)
    requires
        a.prunes(r),
    ensures
        forall|w: Seq<V>| r.accepts(w) == a.accepts(w),
        r.is_reachable(),
        r.wf(),
        r.alphabet == a.alphabet,
        a.proper() ==> r.proper(),
{
    let order = choose|order: Seq<int>| #[trigger] a.discovery_order(order) && r == a.renumber(order);
    lemma_renumber_wf(a, order);
    assert forall|w: Seq<V>| r.accepts(w) == a.accepts(w) by {
        lemma_renumber_reach(a, order, w);
        let here_c = r.reach(r.initials, w);
        let here = a.reach(a.initials, w);
        if r.accepts(w) {
            let k = choose|k: int| #[trigger] here_c.contains(k) && r.finals.contains(k);
            assert(here.contains(order[k]) && a.finals.contains(order[k]));
        }
        if a.accepts(w) {
            let q = choose|q: int| #[trigger] here.contains(q) && a.finals.contains(q);
            assert(a.reachable(q));
            assert(order.contains(q));
            let k = choose|k: int| 0 <= k < order.len() && order[k] == q;
            assert(here_c.contains(k) && r.finals.contains(k));
        }
    }
    assert forall|k: int| 0 <= k < r.size implies #[trigger] r.reachable(k) by {
        assert(order.contains(order[k]));
        assert(a.reachable(order[k]));
        let w = choose|w: Seq<V>| #[trigger] a.reach(a.initials, w).contains(order[k]);
        lemma_renumber_reach(a, order, w);
        assert(r.reach(r.initials, w).contains(k));
    }
}

/// Dropping the states from which no final state is reached does not change
/// the words that the automaton accepts.
pub proof fn law_coprunes_language<V>(a: NfaModel<V>, r: NfaModel<V>)
    requires
        a.wf(),
        a.coprunes(r),
    ensures
        forall|w: Seq<V>| r.accepts(w) == a.accepts(w),
        r.wf(),
        r.alphabet == a.alphabet,
        a.proper() ==> r.proper(),
{
    let x = choose|x: NfaModel<V>| #[trigger] a.reverse().prunes(x) && r == x.reverse();
    lemma_reverse_wf(a);
    law_prunes_language(a.reverse(), x);
    lemma_reverse_wf(x);
    assert forall|w: Seq<V>| r.accepts(w) == a.accepts(w) by {
        law_reverse_language(x, w);
        law_reverse_language(a, w.reverse());
        assert(w.reverse().reverse() =~= w);
    }
}

/// Trimming does not change the words that the automaton accepts.
pub proof fn law_trims_language<V>(a: NfaModel<V>, r: NfaModel<V>)
    requires
        a.wf(),
        a.trims(r),
    ensures
        forall|w: Seq<V>| r.accepts(w) == a.accepts(w),
        r.wf(),
        r.alphabet == a.alphabet,
        a.proper() ==> r.proper(),
{
    let x = choose|x: NfaModel<V>| #[trigger] a.prunes(x) && x.coprunes(r);
    law_prunes_language(a, x);
    law_coprunes_language(x, r);
}

/// Pruning the reversal by a list and reversing again is renumbering by the
/// list.
pub proof fn lemma_coprune_is_renumber<V>(a: NfaModel<V>, order: Seq<int>)
    ensures
        a.reverse().renumber(order).reverse() == a.renumber(order),
{
    let l = a.reverse().renumber(order).reverse();
    let r = a.renumber(order);
    assert(l.initials =~= r.initials);
    assert(l.finals =~= r.finals);
    assert(l.edges =~= r.edges);
}

/// Where the list holds the source of every edge whose target it holds, a
/// word that leads to a listed state leads to its number in the renumbered
/// automaton.
pub proof fn lemma_renumber_reach_back<V>(a: NfaModel<V>, order: Seq<int>, w: Seq<V>, k: int)
    requires
        forall|p: int, v: V, q: int|
            #[trigger] a.edges.contains((p, v, q)) && order.contains(q) ==> order.contains(p),
        0 <= k < order.len(),
        a.reach(a.initials, w).contains(order[k]),
    ensures
        a.renumber(order).reach(a.renumber(order).initials, w).contains(k),
    decreases w.len(),
{
    let c = a.renumber(order);
    if w.len() > 0 {
        let w1 = w.drop_last();
        let v = w.last();
        let p = choose|p: int|
            a.reach(a.initials, w1).contains(p) && #[trigger] a.edges.contains((p, v, order[k]));
        assert(order.contains(order[k]));
        assert(order.contains(p));
        let j = choose|j: int| 0 <= j < order.len() && order[j] == p;
        lemma_renumber_reach_back(a, order, w1, j);
        assert(c.reach(c.initials, w1).contains(j) && c.edges.contains((j, v, k)));
    }
}

/// After the states from which no final state is reached are dropped, a
/// final state is reached from every state.
pub proof fn law_coprunes_coreachable<V>(a: NfaModel<V>, r: NfaModel<V>)
    requires
        a.wf(),
        a.coprunes(r),
    ensures
        r.reverse().is_reachable(),
{
    let x = choose|x: NfaModel<V>| #[trigger] a.reverse().prunes(x) && r == x.reverse();
    law_prunes_language(a.reverse(), x);
    law_reverse_reverse(x);
}

/// After trimming, every state is reached from an initial state, and a
/// final state is reached from every state.
pub proof fn law_trims_trimmed<V>(a: NfaModel<V>, r: NfaModel<V>)
    requires
        a.wf(),
        a.trims(r),
    ensures
        r.is_reachable(),
        r.reverse().is_reachable(),
{
    let x = choose|x: NfaModel<V>| #[trigger] a.prunes(x) && x.coprunes(r);
    law_prunes_language(a, x);
    law_coprunes_coreachable(x, r);
    let back = x.reverse();
    lemma_reverse_wf(x);
    let y = choose|y: NfaModel<V>| #[trigger] back.prunes(y) && r == y.reverse();
    let order = choose|order: Seq<int>|
        #[trigger] back.discovery_order(order) && y == back.renumber(order);
    lemma_coprune_is_renumber(x, order);
    assert(r == x.renumber(order));
    assert forall|p: int, v: V, q: int|
        #[trigger] x.edges.contains((p, v, q)) && order.contains(q) implies order.contains(p) by {
        assert(back.reachable(q));
        assert(back.edges.contains((q, v, p)));
        crate::lemmas::lemma_reachable_step(back, q, v, p);
    }
    assert forall|k: int| 0 <= k < r.size implies #[trigger] r.reachable(k) by {
        assert(order.contains(order[k]));
        assert(back.reachable(order[k]));
        crate::lemmas::lemma_reachable_in_range(back, order[k]);
        assert(x.reachable(order[k]));
        let w = choose|w: Seq<V>| #[trigger] x.reach(x.initials, w).contains(order[k]);
        lemma_renumber_reach_back(x, order, w, k);
        assert(r.reach(r.initials, w).contains(k));
    }
}

/// Dropping the states that no word reaches leaves no more states than
/// there were.
pub proof fn law_prunes_size<V>(a: NfaModel<V>, r: NfaModel<V>)
    requires
        a.wf(),
        a.prunes(r),
    ensures
        r.size <= a.size,
{
    let order = choose|order: Seq<int>| #[trigger] a.discovery_order(order) && r == a.renumber(order);
    let f = |k: int| order[k];
    assert forall|k: int| 0 <= k < order.len() implies 0 <= #[trigger] f(k) < a.size by {
        assert(order.contains(order[k]));
        crate::lemmas::lemma_reachable_in_range(a, order[k]);
    }
    crate::mirror::lemma_pigeonhole(f, order.len(), a.size);
}

/// Dropping the states from which no final state is reached leaves no more
/// states than there were.
pub proof fn law_coprunes_size<V>(a: NfaModel<V>, r: NfaModel<V>)
    requires
        a.wf(),
        a.coprunes(r),
    ensures
        r.size <= a.size,
{
    let x = choose|x: NfaModel<V>| #[trigger] a.reverse().prunes(x) && r == x.reverse();
    lemma_reverse_wf(a);
    law_prunes_size(a.reverse(), x);
}

/// Trimming leaves no more states than there were.
pub proof fn law_trims_size<V>(a: NfaModel<V>, r: NfaModel<V>)
    requires
        a.wf(),
        a.trims(r),
    ensures
        r.size <= a.size,
{
    let x = choose|x: NfaModel<V>| #[trigger] a.prunes(x) && x.coprunes(r);
    law_prunes_language(a, x);
    law_prunes_size(a, x);
    law_coprunes_size(x, r);
}

/// The completed automaton is well formed and complete.
pub proof fn lemma_complete_wf<V>(a: NfaModel<V>)
    requires
        a.wf(),
    ensures
        a.complete().wf(),
        a.complete().is_complete(),
        a.complete().alphabet == a.alphabet,
        a.proper() ==> a.complete().proper(),
{
    let c = a.complete();
    let n = a.size as int;
    if !a.is_complete() {
        assert forall|p: int, v: V|
            0 <= p < c.size && c.alphabet.contains(v) implies #[trigger] c.has_successor(p, v) by {
            if a.has_successor(p, v) {
                let q = choose|q: int| #[trigger] a.edges.contains((p, v, q));
                assert(c.edges.contains((p, v, q)));
            } else {
                assert(c.edges.contains((p, v, n)));
            }
        }
        if a.initials =~= Set::<int>::empty() {
            assert(c.initials.contains(n));
        } else {
            if forall|q: int| !a.initials.contains(q) {
                assert(a.initials =~= Set::<int>::empty());
            }
            let q = choose|q: int| a.initials.contains(q);
            assert(c.initials.contains(q));
        }
    }
}

/// In the completed automaton a word leads to the old states that it led to
/// before.
pub proof fn lemma_complete_reach<V>(a: NfaModel<V>, w: Seq<V>)
    requires
        a.wf(),
    ensures
        forall|q: int|
            0 <= q < a.size ==> (a.complete().reach(a.complete().initials, w).contains(q)
                <==> a.reach(a.initials, w).contains(q)),
    decreases w.len(),
{
    let c = a.complete();
    let n = a.size as int;
    if a.is_complete() {
    } else if w.len() == 0 {
    } else {
        let w1 = w.drop_last();
        let v = w.last();
        lemma_complete_reach(a, w1);
        lemma_reach_in_range(a, a.initials, w1);
        let prev_c = c.reach(c.initials, w1);
        let prev = a.reach(a.initials, w1);
        assert forall|q: int| 0 <= q < a.size implies (c.reach(c.initials, w).contains(q)
            <==> a.reach(a.initials, w).contains(q)) by {
            if c.reach(c.initials, w).contains(q) {
                let p = choose|p: int| prev_c.contains(p) && #[trigger] c.edges.contains((p, v, q));
                assert(a.edges.contains((p, v, q)));
                assert(prev.contains(p));
            }
            if a.reach(a.initials, w).contains(q) {
                let p = choose|p: int| prev.contains(p) && #[trigger] a.edges.contains((p, v, q));
                assert(prev_c.contains(p) && c.edges.contains((p, v, q)));
            }
        }
    }
}

/// Completing an automaton does not change the words that it accepts.
pub proof fn law_complete_language<V>(a: NfaModel<V>, w: Seq<V>)
    requires
        a.wf(),
    ensures
        a.complete().accepts(w) == a.accepts(w),
{
    let c = a.complete();
    lemma_complete_reach(a, w);
    lemma_reach_in_range(a, a.initials, w);
    if c.accepts(w) {
        let q = choose|q: int| #[trigger] c.reach(c.initials, w).contains(q) && c.finals.contains(q);
        assert(a.reach(a.initials, w).contains(q) && a.finals.contains(q));
    }
    if a.accepts(w) {
        let q = choose|q: int| #[trigger] a.reach(a.initials, w).contains(q) && a.finals.contains(q);
        assert(c.reach(c.initials, w).contains(q) && c.finals.contains(q));
    }
}

} // verus!
