//! Reversal and what is built on it: the language of the reversed automaton,
//! and minimisation after Brzozowski.

use vstd::prelude::*;

use crate::laws::{
    law_determinize_language, law_to_nfa_language, lemma_determinizes_wf, lemma_proper_run,
    lemma_subset_run_from, lemma_to_nfa_wf, lemma_word_over_prefix,
};
use crate::model::{
    determinizes, entered_from_below, inhabited, meet, minimizes, subset_automaton, word_over,
    DfaModel, NfaModel,
};

verus! {

/// Reading `w` from a state of `s` can end in a state of `t`.
pub open spec fn links<V>(n: NfaModel<V>, s: Set<int>, w: Seq<V>, t: Set<int>) -> bool {
    exists|q: int| #[trigger] n.reach(s, w).contains(q) && t.contains(q)
}

/// Reading a word is reading its first symbol and then the rest.
pub proof fn lemma_reach_cons<V>(n: NfaModel<V>, s: Set<int>, v: V, u: Seq<V>)
    ensures
        n.reach(s, seq![v] + u) == n.reach(n.step(s, v), u),
    decreases u.len(),
{
    let w = seq![v] + u;
    if u.len() == 0 {
        assert(w.drop_last() =~= Seq::<V>::empty());
        assert(w.last() == v);
        assert(n.reach(s, w.drop_last()) == s);
    } else {
        lemma_reach_cons(n, s, v, u.drop_last());
        assert(w.drop_last() =~= seq![v] + u.drop_last());
        assert(w.last() == u.last());
    }
}

/// A word leads from `s` to `t` exactly where its mirror image leads from
/// `t` to `s` in the reversed automaton.
pub proof fn lemma_reverse_links<V>(n: NfaModel<V>, s: Set<int>, w: Seq<V>, t: Set<int>)
    ensures
        links(n, s, w, t) == links(n.reverse(), t, w.reverse(), s),
    decreases w.len(),
{
    let r = n.reverse();
    if w.len() == 0 {
        assert(w.reverse() =~= Seq::<V>::empty());
        if links(n, s, w, t) {
            let q = choose|q: int| #[trigger] n.reach(s, w).contains(q) && t.contains(q);
            assert(r.reach(t, w.reverse()).contains(q) && s.contains(q));
        }
        if links(r, t, w.reverse(), s) {
            let q = choose|q: int| #[trigger] r.reach(t, w.reverse()).contains(q) && s.contains(q);
            assert(n.reach(s, w).contains(q) && t.contains(q));
        }
    } else {
        let v = w.last();
        let w1 = w.drop_last();
        let t1 = r.step(t, v);
        lemma_reverse_links(n, s, w1, t1);
        assert(w.reverse() =~= seq![v] + w1.reverse());
        lemma_reach_cons(r, t, v, w1.reverse());
        if links(n, s, w, t) {
            let q = choose|q: int| #[trigger] n.reach(s, w).contains(q) && t.contains(q);
            let p = choose|p: int| n.reach(s, w1).contains(p) && #[trigger] n.edges.contains((p, v, q));
            assert(r.edges.contains((q, v, p)));
            assert(t1.contains(p));
            assert(n.reach(s, w1).contains(p) && t1.contains(p));
            assert(links(n, s, w1, t1));
        }
        if links(n, s, w1, t1) {
            let p = choose|p: int| #[trigger] n.reach(s, w1).contains(p) && t1.contains(p);
            let q = choose|q: int| t.contains(q) && #[trigger] r.edges.contains((q, v, p));
            assert(n.edges.contains((p, v, q)));
            assert(n.reach(s, w).contains(q) && t.contains(q));
        }
    }
}

/// The reversed automaton accepts the mirror images of the words that the
/// automaton accepts.
pub proof fn law_reverse_language<V>(n: NfaModel<V>, w: Seq<V>)
    ensures
        n.reverse().accepts(w) == n.accepts(w.reverse()),
{
    let r = n.reverse();
    let m = w.reverse();
    lemma_reverse_links(n, n.initials, m, n.finals);
    assert(m.reverse() =~= w);
    if n.accepts(m) {
        let q = choose|q: int| #[trigger] n.reach(n.initials, m).contains(q) && n.finals.contains(q);
        assert(links(n, n.initials, m, n.finals));
        let p = choose|p: int| #[trigger] r.reach(n.finals, w).contains(p) && n.initials.contains(p);
        assert(r.reach(r.initials, w).contains(p) && r.finals.contains(p));
    }
    if r.accepts(w) {
        let p = choose|p: int| #[trigger] r.reach(r.initials, w).contains(p) && r.finals.contains(p);
        assert(r.reach(n.finals, m.reverse()).contains(p) && n.initials.contains(p));
        assert(links(r, n.finals, m.reverse(), n.initials));
        let q = choose|q: int| #[trigger] n.reach(n.initials, m).contains(q) && n.finals.contains(q);
        assert(n.accepts(m));
    }
}

/// Reversing twice gives the automaton back.
pub proof fn law_reverse_reverse<V>(n: NfaModel<V>)
    ensures
        n.reverse().reverse() == n,
{
    assert(n.reverse().reverse().edges =~= n.edges);
}

/// The reversed automaton is well formed, and its edges carry symbols of the
/// alphabet where those of the automaton do.
pub proof fn lemma_reverse_wf<V>(n: NfaModel<V>)
    requires
        n.wf(),
    ensures
        n.reverse().wf(),
        n.reverse().alphabet == n.alphabet,
        n.proper() ==> n.reverse().proper(),
{
    let r = n.reverse();
    assert forall|p: int, v: V, q: int| #[trigger] r.edges.contains((p, v, q)) implies 0 <= p
        < r.size && 0 <= q < r.size by {
        assert(n.edges.contains((q, v, p)));
    }
    if n.proper() {
        assert forall|p: int, v: V, q: int| #[trigger]
            r.edges.contains((p, v, q)) implies r.alphabet.contains(v) by {
            assert(n.edges.contains((q, v, p)));
        }
    }
}

/// A word and its mirror image use the same symbols.
pub proof fn lemma_word_over_reverse<V>(w: Seq<V>, alphabet: Set<V>)
    ensures
        word_over(w.reverse(), alphabet) == word_over(w, alphabet),
{
    let m = w.reverse();
    if word_over(w, alphabet) {
        assert forall|i: int| 0 <= i < m.len() implies alphabet.contains(#[trigger] m[i]) by {
            assert(m[i] == w[w.len() - 1 - i]);
        }
    }
    if word_over(m, alphabet) {
        assert forall|i: int| 0 <= i < w.len() implies alphabet.contains(#[trigger] w[i]) by {
            assert(m[w.len() - 1 - i] == w[i]);
        }
    }
}

/// A determinised reversal of a deterministic automaton accepts the mirror
/// images of the words over the alphabet that the automaton accepts.
pub proof fn law_dfa_reverse_language<V>(a: DfaModel<V>, r: DfaModel<V>, w: Seq<V>)
    requires
        a.wf(),
        determinizes(a.to_nfa().reverse(), r),
    ensures
        r.accepts(w) == (word_over(w, a.alphabet) && a.accepts(w.reverse())),
        r.wf(),
        r.proper(),
        r.alphabet == a.alphabet,
{
    lemma_to_nfa_wf(a);
    lemma_reverse_wf(a.to_nfa());
    lemma_determinizes_wf(a.to_nfa().reverse(), r);
    law_determinize_language(a.to_nfa().reverse(), r, w);
    law_reverse_language(a.to_nfa(), w);
    law_to_nfa_language(a, w.reverse());
}

/// Reversing a deterministic automaton twice gives an automaton for the
/// words over the alphabet that the automaton accepts.
pub proof fn law_dfa_reverse_reverse<V>(a: DfaModel<V>, once: DfaModel<V>, twice: DfaModel<V>, w: Seq<V>)
    requires
        a.wf(),
        determinizes(a.to_nfa().reverse(), once),
        determinizes(once.to_nfa().reverse(), twice),
    ensures
        twice.accepts(w) == (word_over(w, a.alphabet) && a.accepts(w)),
{
    assert(minimizes(a, twice));
    law_minimize_language(a, twice, w);
}

/// A minimised automaton accepts the words over the alphabet that the
/// automaton accepts, and no other word.
pub proof fn law_minimize_language<V>(a: DfaModel<V>, r: DfaModel<V>, w: Seq<V>)
    requires
        a.wf(),
        minimizes(a, r),
    ensures
        r.accepts(w) == (word_over(w, a.alphabet) && a.accepts(w)),
        a.proper() ==> r.accepts(w) == a.accepts(w),
        r.wf(),
        r.proper(),
        r.alphabet == a.alphabet,
{
    if a.proper() && a.accepts(w) && !word_over(w, a.alphabet) {
        lemma_proper_run(a, a.initial, w);
    }
    let d = choose|d: DfaModel<V>| #[trigger]
        determinizes(a.to_nfa().reverse(), d) && determinizes(d.to_nfa().reverse(), r);
    law_dfa_reverse_language(a, d, w.reverse());
    law_dfa_reverse_language(d, r, w);
    lemma_word_over_reverse(w, a.alphabet);
    assert(w.reverse().reverse() =~= w);
}

/// Every state of a subset automaton is reached from the initial state by a
/// word over the alphabet.
pub proof fn lemma_subset_state_reachable<V>(
    n: NfaModel<V>,
    d: DfaModel<V>,
    subsets: Seq<Set<int>>,
    j: int,
) -> (w: Seq<V>)
    requires
        subset_automaton(n, d, subsets),
        0 <= j < subsets.len(),
    ensures
        word_over(w, n.alphabet),
        d.run_from(0, w) == Some(j),
    decreases j,
{
    if j == 0 {
        Seq::<V>::empty()
    } else {
        assert(entered_from_below(d.trans, j));
        let (i, v) = choose|i: int, v: V|
            0 <= i < j && #[trigger] d.trans.contains_key((i, v)) && d.trans[(i, v)] == j;
        let u = lemma_subset_state_reachable(n, d, subsets, i);
        let w = u.push(v);
        assert(w.drop_last() =~= u);
        assert(w.last() == v);
        lemma_word_over_prefix(w, n.alphabet);
        w
    }
}

/// The sets of a subset automaton hold states of the automaton it came from.
pub proof fn lemma_subsets_in_range<V>(n: NfaModel<V>, d: DfaModel<V>, subsets: Seq<Set<int>>, j: int)
    requires
        n.wf(),
        subset_automaton(n, d, subsets),
        0 <= j < subsets.len(),
    ensures
        forall|q: int| subsets[j].contains(q) ==> 0 <= q < n.size,
{
    if j > 0 {
        assert(entered_from_below(d.trans, j));
        let (i, v) = choose|i: int, v: V|
            0 <= i < j && #[trigger] d.trans.contains_key((i, v)) && d.trans[(i, v)] == j;
        assert forall|q: int| subsets[j].contains(q) implies 0 <= q < n.size by {
            assert(n.step(subsets[i], v).contains(q));
            let p = choose|p: int| subsets[i].contains(p) && #[trigger] n.edges.contains((p, v, q));
        }
    }
}

/// What a word reaches from a set it reaches from a member of the set.
pub proof fn lemma_reach_member<V>(n: NfaModel<V>, s: Set<int>, w: Seq<V>, q: int) -> (p: int)
    requires
        n.reach(s, w).contains(q),
    ensures
        s.contains(p),
        n.reach(set![p], w).contains(q),
    decreases w.len(),
{
    if w.len() == 0 {
        q
    } else {
        let m = choose|m: int|
            n.reach(s, w.drop_last()).contains(m) && #[trigger] n.edges.contains((m, w.last(), q));
        let p = lemma_reach_member(n, s, w.drop_last(), m);
        assert(n.reach(set![p], w.drop_last()).contains(m) && n.edges.contains((m, w.last(), q)));
        p
    }
}

/// What a word reaches from a member of a set it reaches from the set.
pub proof fn lemma_reach_monotone<V>(n: NfaModel<V>, s: Set<int>, t: Set<int>, w: Seq<V>)
    requires
        forall|p: int| s.contains(p) ==> t.contains(p),
    ensures
        forall|q: int| n.reach(s, w).contains(q) ==> n.reach(t, w).contains(q),
    decreases w.len(),
{
    if w.len() > 0 {
        lemma_reach_monotone(n, s, t, w.drop_last());
        assert forall|q: int| n.reach(s, w).contains(q) implies n.reach(t, w).contains(q) by {
            let m = choose|m: int|
                n.reach(s, w.drop_last()).contains(m) && #[trigger] n.edges.contains(
                    (m, w.last(), q),
                );
            assert(n.reach(t, w.drop_last()).contains(m) && n.edges.contains((m, w.last(), q)));
        }
    }
}

/// In the reversal of a deterministic automaton, a word leads from state `p`
/// to the initial state of the automaton exactly where its mirror image
/// leads the automaton from the initial state to `p`.
pub proof fn lemma_back_to_start<V>(d: DfaModel<V>, p: int, w: Seq<V>)
    ensures
        d.to_nfa().reverse().reach(set![p], w).contains(d.initial) <==> d.run_from(
            d.initial,
            w.reverse(),
        ) == Some(p),
{
    let n = d.to_nfa();
    let r = n.reverse();
    let m = w.reverse();
    lemma_reverse_links(n, set![d.initial], m, set![p]);
    assert(m.reverse() =~= w);
    crate::laws::lemma_to_nfa_reach(d, m);
    if r.reach(set![p], w).contains(d.initial) {
        assert(r.reach(set![p], m.reverse()).contains(d.initial) && set![d.initial].contains(
            d.initial,
        ));
        assert(links(r, set![p], m.reverse(), set![d.initial]));
        let q = choose|q: int| #[trigger] n.reach(set![d.initial], m).contains(q) && set![p].contains(q);
        assert(q == p);
    }
    if d.run_from(d.initial, m) == Some(p) {
        assert(n.reach(set![d.initial], m).contains(p) && set![p].contains(p));
        assert(links(n, set![d.initial], m, set![p]));
        let q = choose|q: int| #[trigger]
            r.reach(set![p], m.reverse()).contains(q) && set![d.initial].contains(q);
        assert(q == d.initial);
    }
}

/// Two states of a determinised reversal are told apart by a word that leads
/// to the old initial state from a state that only one of their sets holds.
proof fn lemma_told_apart<V>(
    d: DfaModel<V>,
    r: DfaModel<V>,
    subsets: Seq<Set<int>>,
    i: int,
    j: int,
    p: int,
)
    requires
        d.wf(),
        d.proper(),
        d.state_reachable(p),
        subset_automaton(d.to_nfa().reverse(), r, subsets),
        0 <= i < subsets.len(),
        0 <= j < subsets.len(),
        subsets[i].contains(p),
        !subsets[j].contains(p),
    ensures
        r.distinguishable(i, j),
        r.distinguishable(j, i),
{
    let n = d.to_nfa().reverse();
    let u = choose|u: Seq<V>| #[trigger] d.run_from(d.initial, u) == Some(p);
    let w = u.reverse();
    assert(w.reverse() =~= u);
    if !word_over(u, d.alphabet) {
        lemma_proper_run(d, d.initial, u);
    }
    lemma_word_over_reverse(u, d.alphabet);
    lemma_back_to_start(d, p, w);
    assert(n.reach(set![p], w).contains(d.initial));
    assert forall|x: int| set![p].contains(x) implies subsets[i].contains(x) by {}
    lemma_reach_monotone(n, set![p], subsets[i], w);
    assert(n.reach(subsets[i], w).contains(d.initial));
    lemma_subset_run_from(n, r, subsets, i, w);
    let k = r.run_from(i, w)->0;
    assert(subsets[k].contains(d.initial) && n.finals.contains(d.initial));
    assert(meet(subsets[k], n.finals));
    assert(r.accepts_from(i, w));
    lemma_subset_run_from(n, r, subsets, j, w);
    if r.accepts_from(j, w) {
        let k2 = r.run_from(j, w)->0;
        assert(meet(subsets[k2], n.finals));
        let q = choose|q: int| subsets[k2].contains(q) && n.finals.contains(q);
        assert(q == d.initial);
        let origin = lemma_reach_member(n, subsets[j], w, d.initial);
        lemma_back_to_start(d, origin, w);
        assert(false);
    }
    assert(r.accepts_from(i, w) != r.accepts_from(j, w));
    assert(r.accepts_from(j, w) != r.accepts_from(i, w));
}

/// Every state of a determinised automaton is reached from its initial
/// state.
pub proof fn lemma_determinized_reachable<V>(n: NfaModel<V>, d: DfaModel<V>, p: int)
    requires
        determinizes(n, d),
        0 <= p < d.size,
    ensures
        d.state_reachable(p),
{
    if n.is_empty() {
        assert(d.run_from(d.initial, Seq::<V>::empty()) == Some(p));
    } else {
        let subsets = choose|subsets: Seq<Set<int>>| subset_automaton(n, d, subsets);
        let w = lemma_subset_state_reachable(n, d, subsets, p);
        assert(d.run_from(d.initial, w) == Some(p));
    }
}

/// The determinised reversal of a deterministic automaton whose states are
/// all reached from the initial state is minimal.
pub proof fn law_reversal_minimal<V>(d: DfaModel<V>, r: DfaModel<V>)
    requires
        d.wf(),
        d.proper(),
        forall|p: int| 0 <= p < d.size ==> #[trigger] d.state_reachable(p),
        determinizes(d.to_nfa().reverse(), r),
    ensures
        r.is_minimal(),
{
    let n = d.to_nfa().reverse();
    lemma_to_nfa_wf(d);
    lemma_reverse_wf(d.to_nfa());
    assert forall|p: int| 0 <= p < r.size implies #[trigger] r.state_reachable(p) by {
        lemma_determinized_reachable(n, r, p);
    }
    if n.is_empty() {
    } else {
        let subsets = choose|subsets: Seq<Set<int>>| subset_automaton(n, r, subsets);
        assert forall|i: int, j: int|
            0 <= i < r.size && 0 <= j < r.size && i != j implies #[trigger] r.distinguishable(
            i,
            j,
        ) by {
            assert(subsets[i] != subsets[j]);
            if forall|p: int| subsets[i].contains(p) == subsets[j].contains(p) {
                assert(subsets[i] =~= subsets[j]);
            }
            let p = choose|p: int| subsets[i].contains(p) != subsets[j].contains(p);
            lemma_subsets_in_range(n, r, subsets, i);
            lemma_subsets_in_range(n, r, subsets, j);
            if subsets[i].contains(p) {
                lemma_told_apart(d, r, subsets, i, j, p);
            } else {
                lemma_told_apart(d, r, subsets, j, i, p);
            }
        }
    }
}

/// A minimised automaton is minimal: all its states are reached from the
/// initial state, and no two of them accept the same words.
pub proof fn law_minimize_minimal<V>(a: DfaModel<V>, r: DfaModel<V>)
    requires
        a.wf(),
        minimizes(a, r),
    ensures
        r.is_minimal(),
{
    let d = choose|d: DfaModel<V>| #[trigger]
        determinizes(a.to_nfa().reverse(), d) && determinizes(d.to_nfa().reverse(), r);
    lemma_to_nfa_wf(a);
    lemma_reverse_wf(a.to_nfa());
    lemma_determinizes_wf(a.to_nfa().reverse(), d);
    assert forall|p: int| 0 <= p < d.size implies #[trigger] d.state_reachable(p) by {
        lemma_determinized_reachable(a.to_nfa().reverse(), d, p);
    }
    law_reversal_minimal(d, r);
}

/// Reading two words in a row is reading the second from where the first
/// led.
pub proof fn lemma_run_concat<V>(d: DfaModel<V>, p: int, u: Seq<V>, x: Seq<V>)
    ensures
        d.run_from(p, u + x) == match d.run_from(p, u) {
            Some(q) => d.run_from(q, x),
            None => None,
        },
    decreases x.len(),
{
    if x.len() == 0 {
        assert(u + x =~= u);
    } else {
        lemma_run_concat(d, p, u, x.drop_last());
        assert((u + x).drop_last() =~= u + x.drop_last());
        assert((u + x).last() == x.last());
    }
}

/// A function that maps the numbers below `n` to numbers below `m`, no two
/// to the same, shows that `n` is at most `m`.
pub proof fn lemma_pigeonhole(f: spec_fn(int) -> int, n: nat, m: nat)
    requires
        forall|i: int| 0 <= i < n ==> 0 <= #[trigger] f(i) < m,
        forall|i: int, j: int| 0 <= i < n && 0 <= j < n && i != j ==> #[trigger] f(i) != #[trigger] f(j),
    ensures
        n <= m,
    decreases n,
{
    if n > 0 {
        let t = f(n - 1);
        assert(0 <= t < m);
        let g = |i: int|
            if f(i) == m - 1 {
                t
            } else {
                f(i)
            };
        assert forall|i: int| 0 <= i < n - 1 implies 0 <= #[trigger] g(i) < m - 1 by {
            assert(f(i) != f(n - 1));
            assert(0 <= f(i) < m);
        }
        assert forall|i: int, j: int| 0 <= i < n - 1 && 0 <= j < n - 1 && i != j implies #[trigger] g(i)
            != #[trigger] g(j) by {
            assert(f(i) != f(j));
            assert(f(i) != f(n - 1));
            assert(f(j) != f(n - 1));
        }
        lemma_pigeonhole(g, (n - 1) as nat, (m - 1) as nat);
    }
}

/// A word that leads to state `p`, where there is one.
pub open spec fn word_to<V>(d: DfaModel<V>, p: int) -> Seq<V> {
    choose|w: Seq<V>| #[trigger] d.run_from(d.initial, w) == Some(p)
}

/// A word that leads to a state from which some word is accepted leads
/// every automaton that accepts the same words to one of its states.
proof fn lemma_lands<V>(r: DfaModel<V>, other: DfaModel<V>, i: int)
    requires
        other.wf(),
        r.state_reachable(i),
        r.state_useful(i),
        forall|w: Seq<V>| #[trigger] other.accepts(w) == r.accepts(w),
    ensures
        other.run_from(other.initial, word_to(r, i)) matches Some(q) && 0 <= q < other.size,
{
    let u = word_to(r, i);
    assert(r.run_from(r.initial, u) == Some(i));
    let x = choose|x: Seq<V>| #[trigger] r.accepts_from(i, x);
    lemma_run_concat(r, r.initial, u, x);
    assert(r.accepts(u + x));
    assert(other.accepts(u + x));
    lemma_run_concat(other, other.initial, u, x);
    crate::lemmas::lemma_run_in_range(other, other.initial, u);
}

/// A minimal automaton, from each of whose states some word is accepted,
/// has no more states than any automaton that accepts the same words.
pub proof fn law_fewest_states<V>(r: DfaModel<V>, other: DfaModel<V>)
    requires
        r.wf(),
        other.wf(),
        r.is_minimal(),
        forall|p: int| 0 <= p < r.size ==> #[trigger] r.state_useful(p),
        forall|w: Seq<V>| #[trigger] other.accepts(w) == r.accepts(w),
    ensures
        r.size <= other.size,
{
    let f = |i: int| other.run_from(other.initial, word_to(r, i)).unwrap();
    assert forall|i: int| 0 <= i < r.size implies 0 <= #[trigger] f(i) < other.size by {
        lemma_lands(r, other, i);
    }
    assert forall|i: int, j: int| 0 <= i < r.size && 0 <= j < r.size && i != j implies #[trigger] f(i)
        != #[trigger] f(j) by {
        assert(r.state_reachable(i));
        assert(r.state_reachable(j));
        let u = word_to(r, i);
        let v = word_to(r, j);
        assert(r.distinguishable(i, j));
        let x = choose|x: Seq<V>| #[trigger] r.accepts_from(i, x) != r.accepts_from(j, x);
        lemma_run_concat(r, r.initial, u, x);
        lemma_run_concat(r, r.initial, v, x);
        lemma_run_concat(other, other.initial, u, x);
        lemma_run_concat(other, other.initial, v, x);
        assert(r.accepts(u + x) != r.accepts(v + x));
        assert(other.accepts(u + x) == r.accepts(u + x));
        assert(other.accepts(v + x) == r.accepts(v + x));
        lemma_lands(r, other, i);
        lemma_lands(r, other, j);
    }
    lemma_pigeonhole(f, r.size, other.size);
}

/// From a state of a determinised reversal whose set holds a state that the
/// old automaton reaches, some word is accepted.
proof fn lemma_state_accepts<V>(d: DfaModel<V>, r: DfaModel<V>, subsets: Seq<Set<int>>, i: int, p: int)
    requires
        d.wf(),
        d.proper(),
        d.state_reachable(p),
        subset_automaton(d.to_nfa().reverse(), r, subsets),
        0 <= i < subsets.len(),
        subsets[i].contains(p),
    ensures
        r.state_useful(i),
{
    let n = d.to_nfa().reverse();
    let u = choose|u: Seq<V>| #[trigger] d.run_from(d.initial, u) == Some(p);
    let w = u.reverse();
    assert(w.reverse() =~= u);
    if !word_over(u, d.alphabet) {
        lemma_proper_run(d, d.initial, u);
    }
    lemma_word_over_reverse(u, d.alphabet);
    lemma_back_to_start(d, p, w);
    assert forall|x: int| set![p].contains(x) implies subsets[i].contains(x) by {}
    lemma_reach_monotone(n, set![p], subsets[i], w);
    lemma_subset_run_from(n, r, subsets, i, w);
    let k = r.run_from(i, w)->0;
    assert(subsets[k].contains(d.initial) && n.finals.contains(d.initial));
    assert(meet(subsets[k], n.finals));
    assert(r.accepts_from(i, w));
}

/// A minimised automaton has no more states than any automaton that accepts
/// the same words.
pub proof fn law_minimize_fewest_states<V>(a: DfaModel<V>, r: DfaModel<V>, other: DfaModel<V>)
    requires
        a.wf(),
        minimizes(a, r),
        other.wf(),
        forall|w: Seq<V>| #[trigger] other.accepts(w) == r.accepts(w),
    ensures
        r.size <= other.size,
{
    let d = choose|d: DfaModel<V>| #[trigger]
        determinizes(a.to_nfa().reverse(), d) && determinizes(d.to_nfa().reverse(), r);
    let n = d.to_nfa().reverse();
    lemma_to_nfa_wf(a);
    lemma_reverse_wf(a.to_nfa());
    lemma_determinizes_wf(a.to_nfa().reverse(), d);
    lemma_to_nfa_wf(d);
    lemma_reverse_wf(d.to_nfa());
    lemma_determinizes_wf(n, r);
    if n.is_empty() {
    } else {
        law_minimize_minimal(a, r);
        let subsets = choose|subsets: Seq<Set<int>>| subset_automaton(n, r, subsets);
        assert forall|i: int| 0 <= i < r.size implies #[trigger] r.state_useful(i) by {
            if i > 0 {
                assert(inhabited(subsets[i]));
            } else {
                let w = choose|w: Seq<V>| n.accepts(w);
                if forall|q: int| !n.initials.contains(q) {
                    assert(n.initials =~= Set::<int>::empty());
                    assert(w.take(0) =~= Seq::<V>::empty());
                    crate::lemmas::lemma_reach_prefix_empty(n, n.initials, w, 0);
                }
            }
            let p = choose|p: int| subsets[i].contains(p);
            lemma_subsets_in_range(n, r, subsets, i);
            lemma_determinized_reachable(a.to_nfa().reverse(), d, p);
            lemma_state_accepts(d, r, subsets, i, p);
        }
        law_fewest_states(r, other);
    }
}

/// Minimising a minimised automaton changes neither its language nor the
/// number of its states.
pub proof fn law_minimize_idempotent<V>(a: DfaModel<V>, once: DfaModel<V>, twice: DfaModel<V>)
    requires
        a.wf(),
        minimizes(a, once),
        minimizes(once, twice),
    ensures
        forall|w: Seq<V>| twice.accepts(w) == once.accepts(w),
        twice.size == once.size,
{
    assert forall|w: Seq<V>| #[trigger] twice.accepts(w) == once.accepts(w) by {
        law_minimize_language(a, once, w);
        law_minimize_language(once, twice, w);
    }
    assert forall|w: Seq<V>| #[trigger] once.accepts(w) == twice.accepts(w) by {
        assert(twice.accepts(w) == once.accepts(w));
    }
    law_minimize_language(a, once, Seq::<V>::empty());
    law_minimize_language(once, twice, Seq::<V>::empty());
    law_minimize_fewest_states(once, twice, once);
    law_minimize_fewest_states(a, once, twice);
}

} // verus!
