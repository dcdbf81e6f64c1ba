//! What the operations mean for the languages of the automata.

use vstd::prelude::*;

use crate::model::{
    can_contain, determinizes, difference_automaton, intersects, meet, shift_set,
    subset_automaton, word_over, DfaModel, NfaModel,
};

verus! {

/// `a` accepts every word over its alphabet that `b` accepts.
pub open spec fn language_contains<V>(a: NfaModel<V>, b: NfaModel<V>) -> bool {
    forall|w: Seq<V>| word_over(w, a.alphabet) && #[trigger] b.accepts(w) ==> a.accepts(w)
}

/// `a` and `b` accept the same words over the alphabet of `a`.
pub open spec fn language_equal<V>(a: NfaModel<V>, b: NfaModel<V>) -> bool {
    forall|w: Seq<V>| word_over(w, a.alphabet) ==> (#[trigger] a.accepts(w) == b.accepts(w))
}

/// `r` is a result of testing whether `a` accepts every word that `b`
/// accepts: whether an automaton built for the words of `b` that `a` does not
/// accept accepts nothing.
pub open spec fn contains_result<V>(a: NfaModel<V>, b: NfaModel<V>, r: bool) -> bool {
    exists|x: DfaModel<V>| #[trigger]
        difference_automaton(a, b, x) && r == x.to_nfa().is_empty()
}

/// `r` is a result of testing whether `a` and `b` contain each other; where
/// the first test fails the second is not made.
pub open spec fn equal_result<V>(a: NfaModel<V>, b: NfaModel<V>, r: bool) -> bool {
    if r {
        contains_result(a, b, true) && contains_result(b, a, true)
    } else {
        contains_result(a, b, false) || contains_result(b, a, false)
    }
}

/// Both containment tests between `a` and `b` can be made.
pub open spec fn can_compare<V>(a: NfaModel<V>, b: NfaModel<V>) -> bool {
    can_contain(a, b) && can_contain(b, a)
}

/// `d` accepts the words over the alphabet of `n` that `n` accepts, and no
/// other word.
pub open spec fn accepts_like<V>(d: DfaModel<V>, n: NfaModel<V>) -> bool {
    forall|w: Seq<V>| #[trigger] d.accepts(w) == (word_over(w, n.alphabet) && n.accepts(w))
}

/// A prefix of a word over an alphabet is a word over that alphabet.
pub proof fn lemma_word_over_prefix<V>(w: Seq<V>, alphabet: Set<V>)
    requires
        w.len() > 0,
    ensures
        word_over(w, alphabet) <==> word_over(w.drop_last(), alphabet) && alphabet.contains(w.last()),
{
    if word_over(w, alphabet) {
        assert forall|i: int| 0 <= i < w.drop_last().len() implies alphabet.contains(
            #[trigger] w.drop_last()[i],
        ) by {
            assert(w.drop_last()[i] == w[i]);
        }
        assert(w.last() == w[w.len() - 1]);
    }
    if word_over(w.drop_last(), alphabet) && alphabet.contains(w.last()) {
        assert forall|i: int| 0 <= i < w.len() implies alphabet.contains(#[trigger] w[i]) by {
            if i < w.len() - 1 {
                assert(w.drop_last()[i] == w[i]);
            }
        }
    }
}

/// Reading a word in a deterministic automaton seen as a non-deterministic
/// one leads to the one state that the deterministic run ends in.
pub proof fn lemma_to_nfa_reach<V>(d: DfaModel<V>, w: Seq<V>)
    ensures
        d.to_nfa().reach(set![d.initial], w) == match d.run_from(d.initial, w) {
            Some(q) => set![q],
            None => Set::<int>::empty(),
        },
    decreases w.len(),
{
    let n = d.to_nfa();
    if w.len() > 0 {
        lemma_to_nfa_reach(d, w.drop_last());
        let prev = n.reach(set![d.initial], w.drop_last());
        let v = w.last();
        match d.run_from(d.initial, w.drop_last()) {
            Some(q) => {
                if d.trans.contains_key((q, v)) {
                    let t = d.trans[(q, v)];
                    assert(n.edges.contains((q, v, t)));
                    assert(n.step(prev, v) =~= set![t]);
                } else {
                    assert(n.step(prev, v) =~= Set::<int>::empty());
                }
            },
            None => {
                assert(n.step(prev, v) =~= Set::<int>::empty());
            },
        }
    }
}

/// A deterministic automaton and the same automaton seen as a
/// non-deterministic one accept the same words.
pub proof fn law_to_nfa_language<V>(d: DfaModel<V>, w: Seq<V>)
    ensures
        d.to_nfa().accepts(w) == d.accepts(w),
{
    lemma_to_nfa_reach(d, w);
    let n = d.to_nfa();
    match d.run_from(d.initial, w) {
        Some(q) => {
            assert(n.reach(n.initials, w).contains(q));
        },
        None => {},
    }
}

/// A deterministic automaton seen as a non-deterministic one is well formed.
pub proof fn lemma_to_nfa_wf<V>(d: DfaModel<V>)
    requires
        d.wf(),
    ensures
        d.to_nfa().wf(),
        d.to_nfa().alphabet == d.alphabet,
        d.proper() ==> d.to_nfa().proper(),
{
    let n = d.to_nfa();
    assert forall|p: int, v: V, q: int| #[trigger] n.edges.contains((p, v, q)) implies 0 <= p
        < n.size && 0 <= q < n.size by {
        assert(d.trans.contains_key((p, v)));
    }
    if d.proper() {
        assert forall|p: int, v: V, q: int| #[trigger]
            n.edges.contains((p, v, q)) implies n.alphabet.contains(v) by {
            assert(d.trans.contains_key((p, v)));
        }
    }
}

/// In an automaton whose transitions carry symbols of the alphabet only, a
/// word with another symbol meets a missing transition.
pub proof fn lemma_proper_run<V>(d: DfaModel<V>, p: int, w: Seq<V>)
    requires
        d.proper(),
        !word_over(w, d.alphabet),
    ensures
        d.run_from(p, w) is None,
    decreases w.len(),
{
    if w.len() > 0 {
        lemma_word_over_prefix(w, d.alphabet);
        if !word_over(w.drop_last(), d.alphabet) {
            lemma_proper_run(d, p, w.drop_last());
        }
    }
}

/// Completing keeps an automaton well formed, keeps its alphabet, and keeps
/// its transitions on symbols of the alphabet where they were.
pub proof fn lemma_complete_wf<V>(d: DfaModel<V>)
    requires
        d.wf(),
    ensures
        d.complete().wf(),
        d.complete().is_complete(),
        d.complete().alphabet == d.alphabet,
        d.proper() ==> d.complete().proper(),
{
    let c = d.complete();
    if !d.is_complete() {
        assert forall|p: int, v: V| #[trigger] c.trans.contains_key((p, v)) implies 0 <= p < c.size
            && 0 <= c.trans[(p, v)] < c.size by {
            if d.trans.contains_key((p, v)) {
            }
        }
        if d.proper() {
            assert forall|p: int, v: V| #[trigger]
                c.trans.contains_key((p, v)) implies c.alphabet.contains(v) by {
                if d.trans.contains_key((p, v)) {
                }
            }
        }
    }
}

/// Where the automaton runs into a missing transition, the completed
/// automaton runs into the sink or into a missing transition; elsewhere both
/// run alike.
pub proof fn lemma_complete_run<V>(d: DfaModel<V>, w: Seq<V>)
    requires
        d.wf(),
    ensures
        match d.run_from(d.initial, w) {
            Some(q) => d.complete().run_from(d.initial, w) == Some(q),
            None => d.complete().run_from(d.initial, w) is None || d.complete().run_from(
                d.initial,
                w,
            ) == Some(d.size as int),
        },
        word_over(w, d.alphabet) ==> d.complete().run_from(d.initial, w) is Some,
    decreases w.len(),
{
    let c = d.complete();
    if w.len() > 0 {
        lemma_complete_run(d, w.drop_last());
        lemma_word_over_prefix(w, d.alphabet);
        crate::lemmas::lemma_run_in_range(d, d.initial, w.drop_last());
        if d.is_complete() {
            if word_over(w, d.alphabet) {
                let q = d.run_from(d.initial, w.drop_last())->0;
                assert(d.trans.contains_key((q, w.last())));
            }
        } else {
            match d.run_from(d.initial, w.drop_last()) {
                Some(q) => {
                    if d.trans.contains_key((q, w.last())) {
                        assert(c.trans.contains_key((q, w.last())));
                    }
                    if word_over(w, d.alphabet) {
                        assert(c.trans.contains_key((q, w.last())));
                    }
                },
                None => {
                    if c.run_from(d.initial, w.drop_last()) == Some(d.size as int) {
                        let k = (d.size as int, w.last());
                        if d.trans.contains_key(k) {
                            assert(false);
                        }
                        if word_over(w, d.alphabet) {
                            assert(c.trans.contains_key(k));
                        }
                    }
                },
            }
        }
    }
}

/// Completing an automaton does not change the words it accepts.
pub proof fn law_complete_language<V>(d: DfaModel<V>, w: Seq<V>)
    requires
        d.wf(),
    ensures
        d.complete().accepts(w) == d.accepts(w),
{
    lemma_complete_run(d, w);
}

/// The complement is well formed, has the same alphabet, and has
/// transitions on symbols of the alphabet only where the automaton has.
pub proof fn lemma_negate_wf<V>(d: DfaModel<V>)
    requires
        d.wf(),
    ensures
        d.negate().wf(),
        d.negate().alphabet == d.alphabet,
        d.negate().is_complete(),
        d.proper() ==> d.negate().proper(),
{
    lemma_complete_wf(d);
    let c = d.complete();
    let g = d.negate();
    assert forall|p: int, v: V| #[trigger] g.trans.contains_key((p, v)) implies 0 <= p < g.size
        && 0 <= g.trans[(p, v)] < g.size by {
        assert(c.trans.contains_key((p, v)));
    }
    assert forall|p: int, v: V|
        0 <= p < g.size && g.alphabet.contains(v) implies #[trigger] g.trans.contains_key(
        (p, v),
    ) by {
        assert(c.trans.contains_key((p, v)));
    }
    if d.proper() {
        assert forall|p: int, v: V| #[trigger] g.trans.contains_key((p, v)) implies g.alphabet.contains(
            v,
        ) by {
            assert(c.trans.contains_key((p, v)));
        }
    }
}

/// The complement accepts the words over the alphabet that the automaton
/// does not accept.
pub proof fn law_negate_language<V>(d: DfaModel<V>, w: Seq<V>)
    requires
        d.wf(),
        word_over(w, d.alphabet),
    ensures
        d.negate().accepts(w) == !d.accepts(w),
{
    lemma_complete_run(d, w);
    lemma_complete_wf(d);
    let c = d.complete();
    let g = d.negate();
    lemma_same_trans_run(c, g, d.initial, w);
    crate::lemmas::lemma_run_in_range(c, c.initial, w);
}

/// Automata with the same transitions run alike.
pub proof fn lemma_same_trans_run<V>(a: DfaModel<V>, b: DfaModel<V>, p: int, w: Seq<V>)
    requires
        a.trans == b.trans,
    ensures
        a.run_from(p, w) == b.run_from(p, w),
    decreases w.len(),
{
    if w.len() > 0 {
        lemma_same_trans_run(a, b, p, w.drop_last());
    }
}

/// Complementing twice gives the completed automaton: the automaton itself
/// where it is complete, and the same language in any case.
pub proof fn law_negate_negate<V>(d: DfaModel<V>)
    requires
        d.wf(),
    ensures
        d.negate().negate() == d.complete(),
        d.is_complete() ==> d.negate().negate() == d,
        forall|w: Seq<V>| d.negate().negate().accepts(w) == d.accepts(w),
{
    lemma_complete_wf(d);
    lemma_negate_wf(d);
    let c = d.complete();
    let once = d.negate();
    let twice = once.negate();
    assert(once.complete() == once);
    assert(twice.finals =~= c.finals);
    assert(twice == c);
    assert forall|w: Seq<V>| twice.accepts(w) == d.accepts(w) by {
        law_complete_language(d, w);
    }
}

/// The union is well formed.
pub proof fn lemma_unite_wf<V>(a: NfaModel<V>, b: NfaModel<V>)
    requires
        a.wf(),
        b.wf(),
    ensures
        a.unite(b).wf(),
        a.proper() && b.proper() ==> a.unite(b).proper(),
{
    let u = a.unite(b);
    let n = a.size as int;
    assert forall|p: int, v: V, q: int| #[trigger] u.edges.contains((p, v, q)) implies 0 <= p
        < u.size && 0 <= q < u.size by {
        if a.edges.contains((p, v, q)) {
        } else {
            assert(b.edges.contains((p - n, v, q - n)));
        }
    }
    if a.proper() && b.proper() {
        assert forall|p: int, v: V, q: int| #[trigger]
            u.edges.contains((p, v, q)) implies u.alphabet.contains(v) by {
            if a.edges.contains((p, v, q)) {
            } else {
                assert(b.edges.contains((p - n, v, q - n)));
            }
        }
    }
}

/// In the union, the states reached are those reached in the one automaton
/// together with those reached in the other.
pub proof fn lemma_unite_reach<V>(a: NfaModel<V>, b: NfaModel<V>, w: Seq<V>)
    requires
        a.wf(),
        b.wf(),
    ensures
        a.unite(b).reach(a.unite(b).initials, w) == a.reach(a.initials, w) + shift_set(
            b.reach(b.initials, w),
            a.size as int,
        ),
    decreases w.len(),
{
    let u = a.unite(b);
    let n = a.size as int;
    if w.len() > 0 {
        lemma_unite_reach(a, b, w.drop_last());
        crate::lemmas::lemma_reach_in_range(a, a.initials, w.drop_last());
        crate::lemmas::lemma_reach_in_range(b, b.initials, w.drop_last());
        let pa = a.reach(a.initials, w.drop_last());
        let pb = b.reach(b.initials, w.drop_last());
        let pu = u.reach(u.initials, w.drop_last());
        let v = w.last();
        let lhs = u.step(pu, v);
        let rhs = a.step(pa, v) + shift_set(b.step(pb, v), n);
        assert forall|q: int| lhs.contains(q) <==> rhs.contains(q) by {
            if lhs.contains(q) {
                let p = choose|p: int| pu.contains(p) && #[trigger] u.edges.contains((p, v, q));
                if a.edges.contains((p, v, q)) {
                    assert(pa.contains(p));
                    assert(a.step(pa, v).contains(q));
                } else {
                    assert(b.edges.contains((p - n, v, q - n)));
                    assert(pb.contains(p - n));
                    assert(b.step(pb, v).contains(q - n));
                }
            }
            if a.step(pa, v).contains(q) {
                let p = choose|p: int| pa.contains(p) && #[trigger] a.edges.contains((p, v, q));
                assert(pu.contains(p) && u.edges.contains((p, v, q)));
            }
            if shift_set(b.step(pb, v), n).contains(q) {
                let p = choose|p: int| pb.contains(p) && #[trigger] b.edges.contains((p, v, q - n));
                assert(pu.contains(p + n) && u.edges.contains((p + n, v, q)));
            }
        }
        assert(lhs =~= rhs);
    }
}

/// The union accepts the words that one of the two automata accepts.
pub proof fn law_unite_language<V>(a: NfaModel<V>, b: NfaModel<V>, w: Seq<V>)
    requires
        a.wf(),
        b.wf(),
    ensures
        a.unite(b).accepts(w) == (a.accepts(w) || b.accepts(w)),
{
    let u = a.unite(b);
    let n = a.size as int;
    lemma_unite_reach(a, b, w);
    crate::lemmas::lemma_reach_in_range(a, a.initials, w);
    crate::lemmas::lemma_reach_in_range(b, b.initials, w);
    let ra = a.reach(a.initials, w);
    let rb = b.reach(b.initials, w);
    let ru = u.reach(u.initials, w);
    if u.accepts(w) {
        let q = choose|q: int| #[trigger] ru.contains(q) && u.finals.contains(q);
        if ra.contains(q) {
            assert(a.finals.contains(q));
        } else {
            assert(rb.contains(q - n));
            assert(b.finals.contains(q - n));
        }
    }
    if a.accepts(w) {
        let q = choose|q: int| #[trigger] ra.contains(q) && a.finals.contains(q);
        assert(ru.contains(q) && u.finals.contains(q));
    }
    if b.accepts(w) {
        let q = choose|q: int| #[trigger] rb.contains(q) && b.finals.contains(q);
        assert(ru.contains(q + n) && u.finals.contains(q + n));
    }
}

/// A determinised automaton is well formed, has the alphabet of the
/// automaton it came from, and has transitions on symbols of that alphabet
/// only.
pub proof fn lemma_determinizes_wf<V>(n: NfaModel<V>, d: DfaModel<V>)
    requires
        determinizes(n, d),
    ensures
        d.wf(),
        d.proper(),
        d.alphabet == n.alphabet,
{
    if n.is_empty() {
    } else {
        let subsets = choose|subsets: Seq<Set<int>>| subset_automaton(n, d, subsets);
        assert(subset_automaton(n, d, subsets));
    }
}

/// In a subset automaton, the run on a word over the alphabet from any
/// state ends in the state that stands for the set of states that the word
/// reaches from the set of the first state; where no state is reached, the
/// run meets a missing transition.
pub proof fn lemma_subset_run_from<V>(
    n: NfaModel<V>,
    d: DfaModel<V>,
    subsets: Seq<Set<int>>,
    i: int,
    w: Seq<V>,
)
    requires
        subset_automaton(n, d, subsets),
        0 <= i < subsets.len(),
        word_over(w, n.alphabet),
    ensures
        match d.run_from(i, w) {
            Some(k) => 0 <= k < subsets.len() && subsets[k] == n.reach(subsets[i], w),
            None => n.reach(subsets[i], w) == Set::<int>::empty(),
        },
    decreases w.len(),
{
    if w.len() > 0 {
        lemma_word_over_prefix(w, n.alphabet);
        lemma_subset_run_from(n, d, subsets, i, w.drop_last());
        let v = w.last();
        match d.run_from(i, w.drop_last()) {
            Some(k) => {
                if d.trans.contains_key((k, v)) {
                } else {
                    assert(n.step(subsets[k], v) =~= Set::<int>::empty());
                }
            },
            None => {
                crate::lemmas::lemma_step_empty(n, v);
            },
        }
    }
}

/// A determinised automaton accepts the words over the alphabet that the
/// automaton it came from accepts, and no other word.
pub proof fn law_determinize_language<V>(n: NfaModel<V>, d: DfaModel<V>, w: Seq<V>)
    requires
        determinizes(n, d),
    ensures
        d.accepts(w) == (word_over(w, n.alphabet) && n.accepts(w)),
{
    lemma_determinizes_wf(n, d);
    if !word_over(w, n.alphabet) {
        lemma_proper_run(d, d.initial, w);
    } else if n.is_empty() {
        assert(!n.accepts(w));
        if w.len() > 0 {
            lemma_empty_dfa_run(n.alphabet, w);
        }
    } else {
        let subsets = choose|subsets: Seq<Set<int>>| subset_automaton(n, d, subsets);
        lemma_subset_run_from(n, d, subsets, 0, w);
        match d.run_from(0, w) {
            Some(i) => {
                assert(d.finals.contains(i) <==> meet(subsets[i], n.finals));
                if meet(subsets[i], n.finals) {
                    let q = choose|q: int| subsets[i].contains(q) && n.finals.contains(q);
                    assert(n.reach(n.initials, w).contains(q) && n.finals.contains(q));
                }
                if n.accepts(w) {
                    let q = choose|q: int| #[trigger]
                        n.reach(n.initials, w).contains(q) && n.finals.contains(q);
                    assert(subsets[i].contains(q) && n.finals.contains(q));
                }
            },
            None => {},
        }
    }
}

/// The automaton of one state without transitions reads no symbol.
pub proof fn lemma_empty_dfa_run<V>(alphabet: Set<V>, w: Seq<V>)
    requires
        w.len() > 0,
    ensures
        DfaModel::empty(alphabet).run_from(0, w) is None,
    decreases w.len(),
{
    if w.len() > 1 {
        lemma_empty_dfa_run(alphabet, w.drop_last());
    }
}

/// An intersection accepts the words over the common alphabet that both
/// automata accept, and no other word.
pub proof fn law_intersect_language<V>(a: DfaModel<V>, b: DfaModel<V>, r: DfaModel<V>, w: Seq<V>)
    requires
        a.wf(),
        b.wf(),
        a.alphabet == b.alphabet,
        intersects(a, b, r),
    ensures
        r.accepts(w) == (word_over(w, a.alphabet) && a.accepts(w) && b.accepts(w)),
        r.wf(),
        r.proper(),
        r.alphabet == a.alphabet,
{
    let u = choose|u: DfaModel<V>| #[trigger]
        determinizes(a.negate().to_nfa().unite(b.negate().to_nfa()), u) && r == u.negate();
    let na = a.negate();
    let nb = b.negate();
    lemma_negate_wf(a);
    lemma_negate_wf(b);
    lemma_to_nfa_wf(na);
    lemma_to_nfa_wf(nb);
    let un = na.to_nfa().unite(nb.to_nfa());
    lemma_unite_wf(na.to_nfa(), nb.to_nfa());
    assert(un.alphabet =~= a.alphabet);
    lemma_determinizes_wf(un, u);
    lemma_negate_wf(u);
    if word_over(w, a.alphabet) {
        law_negate_language(a, w);
        law_negate_language(b, w);
        law_to_nfa_language(na, w);
        law_to_nfa_language(nb, w);
        law_unite_language(na.to_nfa(), nb.to_nfa(), w);
        law_determinize_language(un, u, w);
        law_negate_language(u, w);
    } else {
        lemma_proper_run(r, r.initial, w);
    }
}

/// Where the two automata have the same alphabet, the automaton that the
/// containment test builds accepts nothing exactly where the first automaton
/// accepts every word over the alphabet that the second accepts.
pub proof fn law_contains_language<V>(a: NfaModel<V>, b: NfaModel<V>, x: DfaModel<V>)
    requires
        a.wf(),
        b.wf(),
        a.alphabet == b.alphabet,
        difference_automaton(a, b, x),
    ensures
        x.to_nfa().is_empty() <==> language_contains(a, b),
{
    let (da, db) = choose|da: DfaModel<V>, db: DfaModel<V>|
        #![trigger determinizes(a, da), determinizes(b, db)]
        determinizes(a, da) && determinizes(b, db) && intersects(da.negate(), db, x);
    lemma_determinizes_wf(a, da);
    lemma_determinizes_wf(b, db);
    lemma_negate_wf(da);
    assert forall|w: Seq<V>| #[trigger] x.to_nfa().accepts(w) == (word_over(w, a.alphabet)
        && b.accepts(w) && !a.accepts(w)) by {
        law_to_nfa_language(x, w);
        law_intersect_language(da.negate(), db, x, w);
        law_determinize_language(a, da, w);
        law_determinize_language(b, db, w);
        if word_over(w, a.alphabet) {
            law_negate_language(da, w);
        }
    }
    if x.to_nfa().is_empty() {
        assert forall|w: Seq<V>| word_over(w, a.alphabet) && #[trigger] b.accepts(w) implies a.accepts(
            w,
        ) by {
            assert(!x.to_nfa().accepts(w));
        }
    }
    if language_contains(a, b) {
        assert forall|w: Seq<V>| !x.to_nfa().accepts(w) by {
            if word_over(w, a.alphabet) && b.accepts(w) {
                assert(a.accepts(w));
            }
        }
    }
}

/// Where the two automata have the same alphabet, the containment test
/// answers whether the first accepts every word over the alphabet that the
/// second accepts.
pub proof fn law_contains_result<V>(a: NfaModel<V>, b: NfaModel<V>, r: bool)
    requires
        a.wf(),
        b.wf(),
        a.alphabet == b.alphabet,
        contains_result(a, b, r),
    ensures
        r == language_contains(a, b),
{
    let x = choose|x: DfaModel<V>| #[trigger]
        difference_automaton(a, b, x) && r == x.to_nfa().is_empty();
    law_contains_language(a, b, x);
}

/// Where the two automata have the same alphabet, the equality test answers
/// whether they accept the same words over the alphabet.
pub proof fn law_equal_result<V>(a: NfaModel<V>, b: NfaModel<V>, r: bool)
    requires
        a.wf(),
        b.wf(),
        a.alphabet == b.alphabet,
        equal_result(a, b, r),
    ensures
        r == language_equal(a, b),
{
    if r {
        law_contains_result(a, b, true);
        law_contains_result(b, a, true);
        assert forall|w: Seq<V>| word_over(w, a.alphabet) implies (#[trigger] a.accepts(w)
            == b.accepts(w)) by {
            if a.accepts(w) {
                assert(b.accepts(w));
            }
            if b.accepts(w) {
                assert(a.accepts(w));
            }
        }
    } else {
        if contains_result(a, b, false) {
            law_contains_result(a, b, false);
            let w = choose|w: Seq<V>| word_over(w, a.alphabet) && #[trigger] b.accepts(w) && !a.accepts(w);
            assert(a.accepts(w) != b.accepts(w));
        } else {
            law_contains_result(b, a, false);
            let w = choose|w: Seq<V>| word_over(w, b.alphabet) && #[trigger] a.accepts(w) && !b.accepts(w);
            assert(a.accepts(w) != b.accepts(w));
        }
    }
}

/// Every automaton contains itself.
pub proof fn law_contains_reflexive<V>(a: NfaModel<V>)
    ensures
        language_contains(a, a),
{
}

/// Containment carries over: what contains a container of `c` contains `c`.
pub proof fn law_contains_transitive<V>(a: NfaModel<V>, b: NfaModel<V>, c: NfaModel<V>)
    requires
        a.alphabet == b.alphabet,
        language_contains(a, b),
        language_contains(b, c),
    ensures
        language_contains(a, c),
{
    assert forall|w: Seq<V>| word_over(w, a.alphabet) && #[trigger] c.accepts(w) implies a.accepts(
        w,
    ) by {
        assert(b.accepts(w));
    }
}

/// Two automata over one alphabet that contain each other accept the same
/// words over it.
pub proof fn law_contains_antisymmetric<V>(a: NfaModel<V>, b: NfaModel<V>)
    requires
        a.alphabet == b.alphabet,
        language_contains(a, b),
        language_contains(b, a),
    ensures
        language_equal(a, b),
{
    assert forall|w: Seq<V>| word_over(w, a.alphabet) implies (#[trigger] a.accepts(w) == b.accepts(
        w,
    )) by {
        if a.accepts(w) {
            assert(b.accepts(w));
        }
        if b.accepts(w) {
            assert(a.accepts(w));
        }
    }
}

/// The union accepts the same words in either order.
pub proof fn law_unite_commutative<V>(a: NfaModel<V>, b: NfaModel<V>, w: Seq<V>)
    requires
        a.wf(),
        b.wf(),
    ensures
        a.unite(b).accepts(w) == b.unite(a).accepts(w),
{
    law_unite_language(a, b, w);
    law_unite_language(b, a, w);
}

/// The union of three automata accepts the same words however it is
/// grouped.
pub proof fn law_unite_associative<V>(a: NfaModel<V>, b: NfaModel<V>, c: NfaModel<V>, w: Seq<V>)
    requires
        a.wf(),
        b.wf(),
        c.wf(),
    ensures
        a.unite(b).unite(c).accepts(w) == a.unite(b.unite(c)).accepts(w),
{
    lemma_unite_wf(a, b);
    lemma_unite_wf(b, c);
    law_unite_language(a, b, w);
    law_unite_language(a.unite(b), c, w);
    law_unite_language(b, c, w);
    law_unite_language(a, b.unite(c), w);
}

/// A determinised union of two deterministic automata accepts the words
/// over the two alphabets together that one of the two accepts.
pub proof fn law_dfa_unite_language<V>(a: DfaModel<V>, b: DfaModel<V>, r: DfaModel<V>, w: Seq<V>)
    requires
        a.wf(),
        b.wf(),
        determinizes(a.to_nfa().unite(b.to_nfa()), r),
    ensures
        r.accepts(w) == (word_over(w, a.alphabet + b.alphabet) && (a.accepts(w) || b.accepts(w))),
        r.wf(),
        r.proper(),
        r.alphabet == a.alphabet + b.alphabet,
{
    lemma_to_nfa_wf(a);
    lemma_to_nfa_wf(b);
    let u = a.to_nfa().unite(b.to_nfa());
    lemma_determinizes_wf(u, r);
    law_determinize_language(u, r, w);
    law_unite_language(a.to_nfa(), b.to_nfa(), w);
    law_to_nfa_language(a, w);
    law_to_nfa_language(b, w);
}

/// The intersection accepts the same words in either order.
pub proof fn law_intersect_commutative<V>(
    a: DfaModel<V>,
    b: DfaModel<V>,
    ab: DfaModel<V>,
    ba: DfaModel<V>,
    w: Seq<V>,
)
    requires
        a.wf(),
        b.wf(),
        a.alphabet == b.alphabet,
        intersects(a, b, ab),
        intersects(b, a, ba),
    ensures
        ab.accepts(w) == ba.accepts(w),
{
    law_intersect_language(a, b, ab, w);
    law_intersect_language(b, a, ba, w);
}

/// The intersection of three automata accepts the same words however it is
/// grouped.
pub proof fn law_intersect_associative<V>(
    a: DfaModel<V>,
    b: DfaModel<V>,
    c: DfaModel<V>,
    ab: DfaModel<V>,
    bc: DfaModel<V>,
    left: DfaModel<V>,
    right: DfaModel<V>,
    w: Seq<V>,
)
    requires
        a.wf(),
        b.wf(),
        c.wf(),
        a.alphabet == b.alphabet,
        b.alphabet == c.alphabet,
        intersects(a, b, ab),
        intersects(ab, c, left),
        intersects(b, c, bc),
        intersects(a, bc, right),
    ensures
        left.accepts(w) == right.accepts(w),
{
    law_intersect_language(a, b, ab, w);
    law_intersect_language(ab, c, left, w);
    law_intersect_language(b, c, bc, w);
    law_intersect_language(a, bc, right, w);
}

/// The intersection of an automaton with its complement accepts nothing.
pub proof fn law_intersect_complement<V>(a: DfaModel<V>, r: DfaModel<V>)
    requires
        a.wf(),
        intersects(a, a.negate(), r),
    ensures
        forall|w: Seq<V>| !r.accepts(w),
        r.to_nfa().is_empty(),
{
    lemma_negate_wf(a);
    assert forall|w: Seq<V>| !r.accepts(w) by {
        law_intersect_language(a, a.negate(), r, w);
        if word_over(w, a.alphabet) {
            law_negate_language(a, w);
        }
    }
    assert forall|w: Seq<V>| !r.to_nfa().accepts(w) by {
        law_to_nfa_language(r, w);
    }
}

/// A determinised union of an automaton with its complement accepts every
/// word over the alphabet, and no other word.
pub proof fn law_unite_complement<V>(a: DfaModel<V>, r: DfaModel<V>, w: Seq<V>)
    requires
        a.wf(),
        determinizes(a.to_nfa().unite(a.negate().to_nfa()), r),
    ensures
        r.accepts(w) == word_over(w, a.alphabet),
{
    lemma_negate_wf(a);
    law_dfa_unite_language(a, a.negate(), r, w);
    assert(a.alphabet + a.negate().alphabet =~= a.alphabet);
    if word_over(w, a.alphabet) {
        law_negate_language(a, w);
    }
}

/// A deterministic automaton turned into a non-deterministic one and
/// determinised again accepts the words over the alphabet that it accepted
/// before; where its transitions carry symbols of the alphabet only, as
/// those of every executable automaton do, these are all its words.
pub proof fn law_round_trip<V>(d: DfaModel<V>, r: DfaModel<V>, w: Seq<V>)
    requires
        d.wf(),
        determinizes(d.to_nfa(), r),
    ensures
        r.accepts(w) == (word_over(w, d.alphabet) && d.accepts(w)),
        d.proper() ==> r.accepts(w) == d.accepts(w),
{
    if d.proper() && d.accepts(w) && !word_over(w, d.alphabet) {
        lemma_proper_run(d, d.initial, w);
    }
    lemma_to_nfa_wf(d);
    law_determinize_language(d.to_nfa(), r, w);
    law_to_nfa_language(d, w);
}

/// A determinised automaton accepts the words over the alphabet that the
/// automaton it came from accepts, and no other word.
pub proof fn law_determinize_accepts_like<V>(n: NfaModel<V>, d: DfaModel<V>)
    requires
        determinizes(n, d),
    ensures
        accepts_like(d, n),
        d.wf(),
        d.proper(),
        d.alphabet == n.alphabet,
{
    lemma_determinizes_wf(n, d);
    assert forall|w: Seq<V>| #[trigger] d.accepts(w) == (word_over(w, n.alphabet) && n.accepts(w)) by {
        law_determinize_language(n, d, w);
    }
}

/// In an automaton whose edges carry symbols of the alphabet only, a word
/// that leads somewhere is a word over the alphabet.
pub proof fn lemma_proper_reach<V>(n: NfaModel<V>, s: Set<int>, w: Seq<V>, q: int)
    requires
        n.proper(),
        n.reach(s, w).contains(q),
    ensures
        word_over(w, n.alphabet),
    decreases w.len(),
{
    if w.len() > 0 {
        let p = choose|p: int|
            n.reach(s, w.drop_last()).contains(p) && #[trigger] n.edges.contains((p, w.last(), q));
        lemma_proper_reach(n, s, w.drop_last(), p);
        lemma_word_over_prefix(w, n.alphabet);
    }
}

/// An automaton whose edges carry symbols of the alphabet only accepts
/// words over the alphabet only.
pub proof fn lemma_proper_accepts<V>(n: NfaModel<V>, w: Seq<V>)
    requires
        n.proper(),
        n.accepts(w),
    ensures
        word_over(w, n.alphabet),
{
    let q = choose|q: int| #[trigger] n.reach(n.initials, w).contains(q) && n.finals.contains(q);
    lemma_proper_reach(n, n.initials, w, q);
}

/// A deterministic automaton whose transitions carry symbols of the
/// alphabet only accepts words over the alphabet only.
pub proof fn lemma_dfa_proper_accepts<V>(d: DfaModel<V>, w: Seq<V>)
    requires
        d.proper(),
        d.accepts(w),
    ensures
        word_over(w, d.alphabet),
{
    if !word_over(w, d.alphabet) {
        lemma_proper_run(d, d.initial, w);
    }
}

/// Determinising an automaton whose edges carry symbols of the alphabet
/// only does not change the words that it accepts.
pub proof fn law_determinize_proper<V>(n: NfaModel<V>, d: DfaModel<V>)
    requires
        determinizes(n, d),
        n.proper(),
    ensures
        forall|w: Seq<V>| d.accepts(w) == n.accepts(w),
        d.wf(),
        d.proper(),
        d.alphabet == n.alphabet,
{
    lemma_determinizes_wf(n, d);
    assert forall|w: Seq<V>| d.accepts(w) == n.accepts(w) by {
        law_determinize_language(n, d, w);
        if n.accepts(w) {
            lemma_proper_accepts(n, w);
        }
    }
}

/// `a` accepts every word that `b` accepts.
pub open spec fn accepts_all_of<V>(a: DfaModel<V>, b: DfaModel<V>) -> bool {
    forall|w: Seq<V>| #[trigger] b.accepts(w) ==> a.accepts(w)
}

/// `a` and `b` accept the same words.
pub open spec fn accepts_same<V>(a: DfaModel<V>, b: DfaModel<V>) -> bool {
    forall|w: Seq<V>| #[trigger] a.accepts(w) == b.accepts(w)
}

/// For deterministic automata over one alphabet whose transitions carry
/// symbols of the alphabet only, containment and equality of the languages
/// over the alphabet are containment and equality of all that they accept.
pub proof fn lemma_dfa_languages<V>(a: DfaModel<V>, b: DfaModel<V>)
    requires
        a.proper(),
        b.proper(),
        a.alphabet == b.alphabet,
    ensures
        language_contains(a.to_nfa(), b.to_nfa()) == accepts_all_of(a, b),
        language_equal(a.to_nfa(), b.to_nfa()) == accepts_same(a, b),
{
    let na = a.to_nfa();
    let nb = b.to_nfa();
    assert forall|w: Seq<V>| #[trigger] na.accepts(w) == a.accepts(w) by {
        law_to_nfa_language(a, w);
    }
    assert forall|w: Seq<V>| #[trigger] nb.accepts(w) == b.accepts(w) by {
        law_to_nfa_language(b, w);
    }
    if language_contains(na, nb) {
        assert forall|w: Seq<V>| #[trigger] b.accepts(w) implies a.accepts(w) by {
            lemma_dfa_proper_accepts(b, w);
            assert(nb.accepts(w));
            assert(na.accepts(w));
        }
    }
    if accepts_all_of(a, b) {
        assert forall|w: Seq<V>| word_over(w, na.alphabet) && #[trigger] nb.accepts(w) implies na.accepts(
            w,
        ) by {
            assert(b.accepts(w));
        }
    }
    if language_equal(na, nb) {
        assert forall|w: Seq<V>| #[trigger] a.accepts(w) == b.accepts(w) by {
            if a.accepts(w) {
                lemma_dfa_proper_accepts(a, w);
            }
            if b.accepts(w) {
                lemma_dfa_proper_accepts(b, w);
            }
            if word_over(w, na.alphabet) {
                assert(na.accepts(w) == nb.accepts(w));
            }
        }
    }
    if accepts_same(a, b) {
        assert forall|w: Seq<V>| word_over(w, na.alphabet) implies (#[trigger] na.accepts(w)
            == nb.accepts(w)) by {
            assert(a.accepts(w) == b.accepts(w));
        }
    }
}

} // verus!
