//! Basic facts about reading words in the automaton models.

use vstd::prelude::*;

use crate::model::{DfaModel, NfaModel};

verus! {

/// No state is reached from the empty set.
pub proof fn lemma_step_empty<V>(m: NfaModel<V>, v: V)
    ensures
        m.step(Set::empty(), v) == Set::<int>::empty(),
{
    assert(m.step(Set::empty(), v) =~= Set::<int>::empty());
}

/// Once a prefix of a word leads nowhere, so does the whole word.
pub proof fn lemma_reach_prefix_empty<V>(m: NfaModel<V>, s: Set<int>, w: Seq<V>, i: int)
    requires
        0 <= i <= w.len(),
        m.reach(s, w.take(i)) == Set::<int>::empty(),
    ensures
        m.reach(s, w) == Set::<int>::empty(),
        !m.accepts(w) || s != m.initials,
    decreases w.len() - i,
{
    if i == w.len() {
        assert(w.take(i) =~= w);
    } else {
        assert(w.drop_last().take(i) =~= w.take(i));
        lemma_reach_prefix_empty(m, s, w.drop_last(), i);
        lemma_step_empty(m, w.last());
    }
}

/// Reading a word in a well-formed automaton, from states of the automaton,
/// ends in states of the automaton.
pub proof fn lemma_reach_in_range<V>(m: NfaModel<V>, s: Set<int>, w: Seq<V>)
    requires
        m.wf(),
        forall|q: int| s.contains(q) ==> 0 <= q < m.size,
    ensures
        forall|q: int| #[trigger] m.reach(s, w).contains(q) ==> 0 <= q < m.size,
    decreases w.len(),
{
    if w.len() > 0 {
        lemma_reach_in_range(m, s, w.drop_last());
        assert forall|q: int| #[trigger] m.reach(s, w).contains(q) implies 0 <= q < m.size by {
            let p = choose|p: int|
                m.reach(s, w.drop_last()).contains(p) && #[trigger] m.edges.contains(
                    (p, w.last(), q),
                );
        }
    }
}

/// Every initial state is reachable.
pub proof fn lemma_reachable_initial<V>(m: NfaModel<V>, q: int)
    requires
        m.initials.contains(q),
    ensures
        m.reachable(q),
{
    assert(m.reach(m.initials, Seq::<V>::empty()).contains(q));
}

/// The target of an edge that leaves a reachable state is reachable.
pub proof fn lemma_reachable_step<V>(m: NfaModel<V>, p: int, v: V, q: int)
    requires
        m.reachable(p),
        m.edges.contains((p, v, q)),
    ensures
        m.reachable(q),
{
    let w = choose|w: Seq<V>| #[trigger] m.reach(m.initials, w).contains(p);
    let w2 = w.push(v);
    assert(w2.drop_last() =~= w);
    assert(w2.last() == v);
    assert(m.reach(m.initials, w2).contains(q));
}

/// A set that holds the initial states and the target of every edge that
/// leaves one of its members holds every reachable state.
pub proof fn lemma_closed_holds_reach<V>(m: NfaModel<V>, s: Set<int>, w: Seq<V>)
    requires
        forall|q: int| m.initials.contains(q) ==> s.contains(q),
        forall|p: int, v: V, q: int| s.contains(p) && #[trigger] m.edges.contains((p, v, q)) ==> s.contains(q),
    ensures
        forall|q: int| #[trigger] m.reach(m.initials, w).contains(q) ==> s.contains(q),
    decreases w.len(),
{
    if w.len() > 0 {
        lemma_closed_holds_reach(m, s, w.drop_last());
        assert forall|q: int| #[trigger] m.reach(m.initials, w).contains(q) implies s.contains(q) by {
            let p = choose|p: int|
                m.reach(m.initials, w.drop_last()).contains(p) && #[trigger] m.edges.contains(
                    (p, w.last(), q),
                );
        }
    }
}

/// In a well-formed automaton only states of the automaton are reachable.
pub proof fn lemma_reachable_in_range<V>(m: NfaModel<V>, q: int)
    requires
        m.wf(),
        m.reachable(q),
    ensures
        0 <= q < m.size,
{
    let w = choose|w: Seq<V>| #[trigger] m.reach(m.initials, w).contains(q);
    lemma_reach_in_range(m, m.initials, w);
}

/// Once a prefix of a word meets a missing transition, so does the word.
pub proof fn lemma_run_prefix_none<V>(d: DfaModel<V>, p: int, w: Seq<V>, i: int)
    requires
        0 <= i <= w.len(),
        d.run_from(p, w.take(i)) is None,
    ensures
        d.run_from(p, w) is None,
    decreases w.len() - i,
{
    if i == w.len() {
        assert(w.take(i) =~= w);
    } else {
        assert(w.drop_last().take(i) =~= w.take(i));
        lemma_run_prefix_none(d, p, w.drop_last(), i);
    }
}

/// Reading a word in a well-formed automaton ends in a state of the automaton.
pub proof fn lemma_run_in_range<V>(d: DfaModel<V>, p: int, w: Seq<V>)
    requires
        d.wf(),
        0 <= p < d.size,
    ensures
        d.run_from(p, w) matches Some(q) ==> 0 <= q < d.size,
    decreases w.len(),
{
    if w.len() > 0 {
        lemma_run_in_range(d, p, w.drop_last());
    }
}

} // verus!
