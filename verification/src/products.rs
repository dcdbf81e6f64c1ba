//! The languages of the automata that the constructors and the operations
//! of concatenation and repetition build.

use vstd::prelude::*;

use crate::lemmas::lemma_reach_in_range;
use crate::mirror::lemma_reach_monotone;
use crate::model::{word_over, NfaModel};

verus! {

/// `w` is a word of `a` followed by a word of `b`.
pub open spec fn in_concat<V>(
    a: spec_fn(Seq<V>) -> bool,
    b: spec_fn(Seq<V>) -> bool,
    w: Seq<V>,
) -> bool {
    exists|k: int| 0 <= k <= w.len() && #[trigger] a(w.take(k)) && b(w.skip(k))
}

/// `w` is `k` words of `a` in a row.
pub open spec fn in_power<V>(a: spec_fn(Seq<V>) -> bool, k: nat, w: Seq<V>) -> bool
    decreases k,
{
    if k == 0 {
        w.len() == 0
    } else {
        exists|j: int|
            0 <= j <= w.len() && in_power(a, (k - 1) as nat, w.take(j)) && #[trigger] a(w.skip(j))
    }
}

/// `w` is any number of words of `a` in a row.
pub open spec fn in_star<V>(a: spec_fn(Seq<V>) -> bool, w: Seq<V>) -> bool {
    exists|k: nat| in_power(a, k, w)
}

/// `w` is a word of `a` or the empty word.
pub open spec fn in_option<V>(a: spec_fn(Seq<V>) -> bool, w: Seq<V>) -> bool {
    a(w) || w.len() == 0
}

/// Reading two words in a row is reading the second from where the first
/// led.
pub proof fn lemma_reach_concat<V>(n: NfaModel<V>, s: Set<int>, u: Seq<V>, x: Seq<V>)
    ensures
        n.reach(s, u + x) == n.reach(n.reach(s, u), x),
    decreases x.len(),
{
    if x.len() == 0 {
        assert(u + x =~= u);
    } else {
        lemma_reach_concat(n, s, u, x.drop_last());
        assert((u + x).drop_last() =~= u + x.drop_last());
        assert((u + x).last() == x.last());
    }
}

/// An automaton with more edges reaches more.
pub proof fn lemma_edges_monotone<V>(a: NfaModel<V>, c: NfaModel<V>, s: Set<int>, w: Seq<V>)
    requires
        forall|e: (int, V, int)| a.edges.contains(e) ==> c.edges.contains(e),
    ensures
        forall|q: int| a.reach(s, w).contains(q) ==> c.reach(s, w).contains(q),
    decreases w.len(),
{
    if w.len() > 0 {
        lemma_edges_monotone(a, c, s, w.drop_last());
        assert forall|q: int| a.reach(s, w).contains(q) implies c.reach(s, w).contains(q) by {
            let p = choose|p: int|
                a.reach(s, w.drop_last()).contains(p) && #[trigger] a.edges.contains(
                    (p, w.last(), q),
                );
            assert(c.reach(s, w.drop_last()).contains(p) && c.edges.contains((p, w.last(), q)));
        }
    }
}

/// The automaton without states accepts nothing.
pub proof fn law_empty_language<V>(alphabet: Set<V>, w: Seq<V>)
    ensures
        !NfaModel::empty(alphabet).accepts(w),
        NfaModel::empty(alphabet).wf(),
{
    let n = NfaModel::empty(alphabet);
    crate::lemmas::lemma_reach_prefix_empty(n, n.initials, w, 0);
    assert(w.take(0) =~= Seq::<V>::empty());
}

/// The empty-word automaton accepts the empty word and nothing else.
pub proof fn law_empty_word_language<V>(alphabet: Set<V>, w: Seq<V>)
    ensures
        NfaModel::empty_word(alphabet).accepts(w) == (w.len() == 0),
        NfaModel::empty_word(alphabet).wf(),
{
    let n = NfaModel::empty_word(alphabet);
    if w.len() == 0 {
        assert(n.reach(n.initials, w).contains(0) && n.finals.contains(0));
    } else {
        assert(n.reach(n.initials, w) =~= Set::<int>::empty());
    }
}

/// In the chain for the words of `l` symbols, a word over the alphabet of at
/// most `l` symbols leads to the state with the number of its symbols, and
/// no other word leads anywhere.
pub proof fn lemma_length_reach<V>(alphabet: Set<V>, l: nat, w: Seq<V>)
    ensures
        NfaModel::length(alphabet, l).reach(set![0int], w) == if w.len() <= l && word_over(
            w,
            alphabet,
        ) {
            set![w.len() as int]
        } else {
            Set::<int>::empty()
        },
    decreases w.len(),
{
    let n = NfaModel::length(alphabet, l);
    if w.len() > 0 {
        lemma_length_reach(alphabet, l, w.drop_last());
        crate::laws::lemma_word_over_prefix(w, alphabet);
        let prev = n.reach(set![0int], w.drop_last());
        let v = w.last();
        if w.len() <= l && word_over(w, alphabet) {
            assert(n.edges.contains((w.len() - 1, v, w.len() as int)));
            assert(n.step(prev, v) =~= set![w.len() as int]);
        } else {
            assert(n.step(prev, v) =~= Set::<int>::empty());
        }
    }
}

/// The automaton for the words of `l` symbols accepts the words of `l`
/// symbols over the alphabet, and nothing else.
pub proof fn law_length_language<V>(alphabet: Set<V>, l: nat, w: Seq<V>)
    ensures
        NfaModel::length(alphabet, l).accepts(w) == (w.len() == l && word_over(w, alphabet)),
        NfaModel::length(alphabet, l).wf(),
{
    let n = NfaModel::length(alphabet, l);
    lemma_length_reach(alphabet, l, w);
    if w.len() == l && word_over(w, alphabet) {
        assert(n.reach(n.initials, w).contains(l as int) && n.finals.contains(l as int));
    }
}

/// In the chain for the word `s`, a prefix of `s` leads to the state with
/// the number of its symbols, and no other word leads anywhere.
pub proof fn lemma_matching_reach<V>(alphabet: Set<V>, s: Seq<V>, w: Seq<V>)
    ensures
        NfaModel::matching(alphabet, s).reach(set![0int], w) == if w.len() <= s.len() && w
            == s.take(w.len() as int) {
            set![w.len() as int]
        } else {
            Set::<int>::empty()
        },
    decreases w.len(),
{
    let n = NfaModel::matching(alphabet, s);
    if w.len() == 0 {
        assert(w =~= s.take(0));
    } else {
        lemma_matching_reach(alphabet, s, w.drop_last());
        let w1 = w.drop_last();
        let prev = n.reach(set![0int], w1);
        let v = w.last();
        if w.len() <= s.len() && w == s.take(w.len() as int) {
            assert(w1 =~= s.take(w1.len() as int));
            assert(v == s[w.len() - 1]);
            assert(n.edges.contains((w.len() - 1, v, w.len() as int)));
            assert(n.step(prev, v) =~= set![w.len() as int]);
        } else {
            if w1.len() <= s.len() && w1 == s.take(w1.len() as int) {
                if w.len() <= s.len() && v == s[w.len() - 1] {
                    assert(w =~= s.take(w.len() as int));
                }
            }
            assert(n.step(prev, v) =~= Set::<int>::empty());
        }
    }
}

/// The automaton for the word `s` accepts `s` and nothing else.
pub proof fn law_matching_language<V>(alphabet: Set<V>, s: Seq<V>, w: Seq<V>)
    ensures
        NfaModel::matching(alphabet, s).accepts(w) == (w == s),
        NfaModel::matching(alphabet, s).wf(),
{
    let n = NfaModel::matching(alphabet, s);
    lemma_matching_reach(alphabet, s, w);
    assert(s.take(s.len() as int) =~= s);
    if w == s {
        assert(n.reach(n.initials, w).contains(s.len() as int) && n.finals.contains(s.len() as int));
    }
}

/// The full automaton accepts the words over the alphabet, and nothing else.
pub proof fn law_full_language<V>(alphabet: Set<V>, w: Seq<V>)
    ensures
        NfaModel::full(alphabet).accepts(w) == word_over(w, alphabet),
        NfaModel::full(alphabet).wf(),
    decreases w.len(),
{
    let n = NfaModel::full(alphabet);
    lemma_full_reach(alphabet, w);
    if word_over(w, alphabet) {
        assert(n.reach(n.initials, w).contains(0) && n.finals.contains(0));
    }
}

/// In the full automaton a word over the alphabet leads to the one state,
/// and no other word leads anywhere.
pub proof fn lemma_full_reach<V>(alphabet: Set<V>, w: Seq<V>)
    ensures
        NfaModel::full(alphabet).reach(set![0int], w) == if word_over(w, alphabet) {
            set![0int]
        } else {
            Set::<int>::empty()
        },
    decreases w.len(),
{
    let n = NfaModel::full(alphabet);
    if w.len() > 0 {
        lemma_full_reach(alphabet, w.drop_last());
        crate::laws::lemma_word_over_prefix(w, alphabet);
        let prev = n.reach(set![0int], w.drop_last());
        let v = w.last();
        if word_over(w, alphabet) {
            assert(n.edges.contains((0, v, 0)));
            assert(n.step(prev, v) =~= set![0int]);
        } else {
            assert(n.step(prev, v) =~= Set::<int>::empty());
        }
    }
}

/// The concatenation is well formed.
pub proof fn lemma_concatenate_wf<V>(a: NfaModel<V>, b: NfaModel<V>)
    requires
        a.wf(),
        b.wf(),
    ensures
        a.concatenate(b).wf(),
        a.proper() && b.proper() ==> a.concatenate(b).proper(),
{
    let c = a.concatenate(b);
    let n = a.size as int;
    assert forall|p: int, v: V, q: int| #[trigger] c.edges.contains((p, v, q)) implies 0 <= p
        < c.size && 0 <= q < c.size by {
        if a.edges.contains((p, v, q)) {
        } else if b.edges.contains((p - n, v, q - n)) {
        } else {
            let i = choose|i: int| b.initials.contains(i) && #[trigger] b.edges.contains((i, v, q - n));
        }
    }
    if a.proper() && b.proper() {
        assert forall|p: int, v: V, q: int| #[trigger]
            c.edges.contains((p, v, q)) implies c.alphabet.contains(v) by {
            if a.edges.contains((p, v, q)) {
            } else if b.edges.contains((p - n, v, q - n)) {
            } else {
                let i = choose|i: int|
                    b.initials.contains(i) && #[trigger] b.edges.contains((i, v, q - n));
            }
        }
    }
}

/// In the concatenation, a word that leads into the first automaton leads
/// there in the first automaton alone; a word that leads into the second
/// splits into a word that the first accepts and a word that leads there in
/// the second.
pub proof fn lemma_concatenate_reach<V>(a: NfaModel<V>, b: NfaModel<V>, w: Seq<V>, q: int)
    requires
        a.wf(),
        b.wf(),
        a.concatenate(b).reach(a.initials, w).contains(q),
    ensures
        q < a.size ==> a.reach(a.initials, w).contains(q),
        q >= a.size ==> exists|k: int|
            0 <= k < w.len() && #[trigger] a.accepts(w.take(k)) && b.reach(
                b.initials,
                w.skip(k),
            ).contains(q - a.size),
    decreases w.len(),
{
    let c = a.concatenate(b);
    let n = a.size as int;
    if w.len() > 0 {
        let w1 = w.drop_last();
        let v = w.last();
        let p = choose|p: int| c.reach(a.initials, w1).contains(p) && #[trigger] c.edges.contains((p, v, q));
        lemma_concatenate_reach(a, b, w1, p);
        if a.edges.contains((p, v, q)) {
            assert(a.reach(a.initials, w1).contains(p));
        } else if b.edges.contains((p - n, v, q - n)) {
            let k = choose|k: int|
                0 <= k < w1.len() && #[trigger] a.accepts(w1.take(k)) && b.reach(
                    b.initials,
                    w1.skip(k),
                ).contains(p - n);
            assert(w.take(k) =~= w1.take(k));
            assert(w.skip(k).drop_last() =~= w1.skip(k));
            assert(w.skip(k).last() == v);
            assert(b.reach(b.initials, w.skip(k)).contains(q - n));
        } else {
            let i = choose|i: int| b.initials.contains(i) && #[trigger] b.edges.contains((i, v, q - n));
            assert(a.finals.contains(p));
            assert(a.reach(a.initials, w1).contains(p));
            let k = w1.len() as int;
            assert(w.take(k) =~= w1);
            assert(a.accepts(w.take(k)));
            assert(w.skip(k).drop_last() =~= Seq::<V>::empty());
            assert(w.skip(k).last() == v);
            assert(b.reach(b.initials, w.skip(k).drop_last()).contains(i));
            assert(b.reach(b.initials, w.skip(k)).contains(q - n));
        }
    }
}

/// In the concatenation, a word that is not empty leads from a final state
/// of the first automaton to where it leads in the second.
pub proof fn lemma_concatenate_cross<V>(a: NfaModel<V>, b: NfaModel<V>, f: int, x: Seq<V>, q: int)
    requires
        a.finals.contains(f),
        x.len() > 0,
        b.reach(b.initials, x).contains(q),
    ensures
        a.concatenate(b).reach(set![f], x).contains(q + a.size),
    decreases x.len(),
{
    let c = a.concatenate(b);
    let n = a.size as int;
    let x1 = x.drop_last();
    let v = x.last();
    let p = choose|p: int| b.reach(b.initials, x1).contains(p) && #[trigger] b.edges.contains((p, v, q));
    if x1.len() == 0 {
        assert(b.first_move(v, q));
        assert(c.reach(set![f], x1).contains(f) && c.edges.contains((f, v, q + n)));
    } else {
        lemma_concatenate_cross(a, b, f, x1, p);
        assert(c.reach(set![f], x1).contains(p + n) && c.edges.contains((p + n, v, q + n)));
    }
}

/// The concatenation accepts the words that are a word of the first
/// automaton followed by a word of the second.
pub proof fn law_concatenate_language<V>(
    a: NfaModel<V>,
    b: NfaModel<V>,
    la: spec_fn(Seq<V>) -> bool,
    lb: spec_fn(Seq<V>) -> bool,
    w: Seq<V>,
)
    requires
        a.wf(),
        b.wf(),
        forall|x: Seq<V>| #[trigger] a.accepts(x) == la(x),
        forall|x: Seq<V>| #[trigger] b.accepts(x) == lb(x),
    ensures
        a.concatenate(b).accepts(w) == in_concat(la, lb, w),
{
    let c = a.concatenate(b);
    let n = a.size as int;
    assert(w.take(w.len() as int) =~= w);
    assert(w.skip(w.len() as int) =~= Seq::<V>::empty());
    let none = Seq::<V>::empty();
    if c.accepts(w) {
        let q = choose|q: int| #[trigger] c.reach(c.initials, w).contains(q) && c.finals.contains(q);
        lemma_concatenate_reach(a, b, w, q);
        if q < n {
            assert(a.finals.contains(q));
            assert(b.accepts_nothing_read());
            let i = choose|i: int| #[trigger] b.initials.contains(i) && b.finals.contains(i);
            assert(b.reach(b.initials, none).contains(i));
            assert(b.accepts(none));
            assert(a.accepts(w));
            assert(la(w.take(w.len() as int)) && lb(w.skip(w.len() as int)));
        } else {
            let k = choose|k: int|
                0 <= k < w.len() && #[trigger] a.accepts(w.take(k)) && b.reach(
                    b.initials,
                    w.skip(k),
                ).contains(q - n);
            assert(b.finals.contains(q - n));
            assert(b.accepts(w.skip(k)));
            assert(la(w.take(k)) && lb(w.skip(k)));
        }
    }
    if in_concat(la, lb, w) {
        let k = choose|k: int| 0 <= k <= w.len() && #[trigger] la(w.take(k)) && lb(w.skip(k));
        let u = w.take(k);
        let x = w.skip(k);
        assert(u + x =~= w);
        assert(a.accepts(u) && b.accepts(x));
        let f = choose|f: int| #[trigger] a.reach(a.initials, u).contains(f) && a.finals.contains(f);
        lemma_edges_monotone(a, c, a.initials, u);
        assert(c.reach(c.initials, u).contains(f));
        let g = choose|g: int| #[trigger] b.reach(b.initials, x).contains(g) && b.finals.contains(g);
        if x.len() == 0 {
            assert(b.initials.contains(g));
            assert(b.accepts_nothing_read());
            assert(u =~= w);
            assert(c.reach(c.initials, w).contains(f) && c.finals.contains(f));
        } else {
            lemma_concatenate_cross(a, b, f, x, g);
            lemma_reach_concat(c, c.initials, u, x);
            assert forall|p: int| set![f].contains(p) implies c.reach(c.initials, u).contains(p) by {}
            lemma_reach_monotone(c, set![f], c.reach(c.initials, u), x);
            assert(c.reach(c.initials, w).contains(g + n) && c.finals.contains(g + n));
        }
    }
}

/// The language of `k` words of `a` in a row.
pub open spec fn power_lang<V>(a: spec_fn(Seq<V>) -> bool, k: nat) -> spec_fn(Seq<V>) -> bool {
    |x: Seq<V>| in_power(a, k, x)
}

/// The language of any number of words of `a` in a row.
pub open spec fn star_lang<V>(a: spec_fn(Seq<V>) -> bool) -> spec_fn(Seq<V>) -> bool {
    |x: Seq<V>| in_star(a, x)
}

/// The language of `a` with the empty word.
pub open spec fn option_lang<V>(a: spec_fn(Seq<V>) -> bool) -> spec_fn(Seq<V>) -> bool {
    |x: Seq<V>| in_option(a, x)
}

/// `w` is `lo` words of `a` in a row, followed by at most `hi - lo` words of
/// `a` in a row or, without `hi`, by any number of them. With `hi` below
/// `lo` there is no such word.
pub open spec fn in_repeat<V>(a: spec_fn(Seq<V>) -> bool, lo: nat, hi: Option<nat>, w: Seq<V>) -> bool {
    match hi {
        Some(h) => h >= lo && in_concat(
            power_lang(a, lo),
            power_lang(option_lang(a), (h - lo) as nat),
            w,
        ),
        None => in_concat(power_lang(a, lo), star_lang(a), w),
    }
}

/// A repetition followed by one more word is a repetition.
pub proof fn lemma_star_append<V>(a: spec_fn(Seq<V>) -> bool, u: Seq<V>, x: Seq<V>)
    requires
        in_star(a, u),
        a(x),
    ensures
        in_star(a, u + x),
{
    let m = choose|m: nat| in_power(a, m, u);
    let w = u + x;
    assert(w.take(u.len() as int) =~= u);
    assert(w.skip(u.len() as int) =~= x);
    assert(in_power(a, m, w.take(u.len() as int)) && a(w.skip(u.len() as int)));
    assert(in_power(a, m + 1, w));
}

/// The Kleene closure is well formed.
pub proof fn lemma_kleene_wf<V>(a: NfaModel<V>)
    requires
        a.wf(),
    ensures
        a.kleene().wf(),
        a.proper() ==> a.kleene().proper(),
{
    let c = a.kleene();
    assert forall|p: int, v: V, q: int| #[trigger] c.edges.contains((p, v, q)) implies 0 <= p
        < c.size && 0 <= q < c.size by {
        if a.edges.contains((p, v, q)) {
        } else {
            let i = choose|i: int| a.initials.contains(i) && #[trigger] a.edges.contains((i, v, q));
        }
    }
    if a.proper() {
        assert forall|p: int, v: V, q: int| #[trigger]
            c.edges.contains((p, v, q)) implies c.alphabet.contains(v) by {
            if a.edges.contains((p, v, q)) {
            } else {
                let i = choose|i: int| a.initials.contains(i) && #[trigger] a.edges.contains((i, v, q));
            }
        }
    }
}

/// In the Kleene closure, a word that is not empty leads to old states
/// only, and it splits into a repetition and a word that leads to the same
/// state in the automaton itself.
pub proof fn lemma_kleene_reach<V>(a: NfaModel<V>, la: spec_fn(Seq<V>) -> bool, w: Seq<V>, q: int)
    requires
        a.wf(),
        forall|x: Seq<V>| #[trigger] a.accepts(x) == la(x),
        w.len() > 0,
        a.kleene().reach(set![a.size as int], w).contains(q),
    ensures
        0 <= q < a.size,
        exists|k: int|
            0 <= k < w.len() && #[trigger] in_star(la, w.take(k)) && a.reach(
                a.initials,
                w.skip(k),
            ).contains(q),
    decreases w.len(),
{
    let c = a.kleene();
    let n = a.size as int;
    let w1 = w.drop_last();
    let v = w.last();
    let p = choose|p: int| c.reach(set![n], w1).contains(p) && #[trigger] c.edges.contains((p, v, q));
    if w1.len() == 0 {
        assert(p == n);
        assert(!a.edges.contains((p, v, q)));
        let i = choose|i: int| a.initials.contains(i) && #[trigger] a.edges.contains((i, v, q));
        assert(w.take(0) =~= Seq::<V>::empty());
        assert(in_power(la, 0, w.take(0)));
        assert(in_star(la, w.take(0)));
        assert(w.skip(0) =~= w);
        assert(a.reach(a.initials, w1).contains(i));
        assert(a.reach(a.initials, w.skip(0)).contains(q));
    } else {
        lemma_kleene_reach(a, la, w1, p);
        let k1 = choose|k: int|
            0 <= k < w1.len() && #[trigger] in_star(la, w1.take(k)) && a.reach(
                a.initials,
                w1.skip(k),
            ).contains(p);
        if a.edges.contains((p, v, q)) {
            assert(w.take(k1) =~= w1.take(k1));
            assert(w.skip(k1).drop_last() =~= w1.skip(k1));
            assert(w.skip(k1).last() == v);
            assert(a.reach(a.initials, w.skip(k1)).contains(q));
        } else {
            let i = choose|i: int| a.initials.contains(i) && #[trigger] a.edges.contains((i, v, q));
            assert(a.finals.contains(p));
            assert(a.accepts(w1.skip(k1)));
            assert(la(w1.skip(k1)));
            lemma_star_append(la, w1.take(k1), w1.skip(k1));
            assert(w1.take(k1) + w1.skip(k1) =~= w1);
            let k = w1.len() as int;
            assert(w.take(k) =~= w1);
            assert(in_star(la, w.take(k)));
            assert(w.skip(k).drop_last() =~= Seq::<V>::empty());
            assert(w.skip(k).last() == v);
            assert(a.reach(a.initials, w.skip(k).drop_last()).contains(i));
            assert(a.reach(a.initials, w.skip(k)).contains(q));
        }
    }
}

/// In the Kleene closure, a word that is not empty leads from a final state
/// or from the new state to where it leads in the automaton itself.
pub proof fn lemma_kleene_cross<V>(a: NfaModel<V>, f: int, x: Seq<V>, q: int)
    requires
        a.finals.contains(f) || f == a.size,
        x.len() > 0,
        a.reach(a.initials, x).contains(q),
    ensures
        a.kleene().reach(set![f], x).contains(q),
    decreases x.len(),
{
    let c = a.kleene();
    let x1 = x.drop_last();
    let v = x.last();
    let p = choose|p: int| a.reach(a.initials, x1).contains(p) && #[trigger] a.edges.contains((p, v, q));
    if x1.len() == 0 {
        assert(a.first_move(v, q));
        assert(c.reach(set![f], x1).contains(f) && c.edges.contains((f, v, q)));
    } else {
        lemma_kleene_cross(a, f, x1, p);
        assert(c.reach(set![f], x1).contains(p) && c.edges.contains((p, v, q)));
    }
}

/// The Kleene closure accepts every row of words of the automaton.
pub proof fn lemma_kleene_accepts_power<V>(
    a: NfaModel<V>,
    la: spec_fn(Seq<V>) -> bool,
    m: nat,
    w: Seq<V>,
)
    requires
        a.wf(),
        forall|x: Seq<V>| #[trigger] a.accepts(x) == la(x),
        in_power(la, m, w),
    ensures
        a.kleene().accepts(w),
    decreases m,
{
    let c = a.kleene();
    let n = a.size as int;
    if m == 0 {
        assert(c.reach(c.initials, w).contains(n) && c.finals.contains(n));
    } else {
        let j = choose|j: int|
            0 <= j <= w.len() && in_power(la, (m - 1) as nat, w.take(j)) && #[trigger] la(w.skip(j));
        let u = w.take(j);
        let x = w.skip(j);
        assert(u + x =~= w);
        lemma_kleene_accepts_power(a, la, (m - 1) as nat, u);
        if x.len() == 0 {
            assert(u =~= w);
        } else {
            let f = choose|f: int| #[trigger] c.reach(c.initials, u).contains(f) && c.finals.contains(f);
            assert(a.accepts(x));
            let g = choose|g: int| #[trigger] a.reach(a.initials, x).contains(g) && a.finals.contains(g);
            lemma_kleene_cross(a, f, x, g);
            lemma_reach_concat(c, c.initials, u, x);
            assert forall|p: int| set![f].contains(p) implies c.reach(c.initials, u).contains(p) by {}
            lemma_reach_monotone(c, set![f], c.reach(c.initials, u), x);
            assert(c.reach(c.initials, w).contains(g) && c.finals.contains(g));
        }
    }
}

/// The Kleene closure accepts the rows of words of the automaton, and
/// nothing else.
pub proof fn law_kleene_language<V>(a: NfaModel<V>, la: spec_fn(Seq<V>) -> bool, w: Seq<V>)
    requires
        a.wf(),
        forall|x: Seq<V>| #[trigger] a.accepts(x) == la(x),
    ensures
        a.kleene().accepts(w) == in_star(la, w),
{
    let c = a.kleene();
    let n = a.size as int;
    if c.accepts(w) {
        if w.len() == 0 {
            assert(in_power(la, 0, w));
        } else {
            let q = choose|q: int| #[trigger] c.reach(c.initials, w).contains(q) && c.finals.contains(q);
            lemma_kleene_reach(a, la, w, q);
            let k = choose|k: int|
                0 <= k < w.len() && #[trigger] in_star(la, w.take(k)) && a.reach(
                    a.initials,
                    w.skip(k),
                ).contains(q);
            assert(a.finals.contains(q));
            assert(a.accepts(w.skip(k)));
            lemma_star_append(la, w.take(k), w.skip(k));
            assert(w.take(k) + w.skip(k) =~= w);
        }
    }
    if in_star(la, w) {
        let m = choose|m: nat| in_power(la, m, w);
        lemma_kleene_accepts_power(a, la, m, w);
    }
}

/// With one more state that is initial and final, the automaton is well
/// formed and accepts the empty word besides what it accepted.
pub proof fn law_with_empty_word_language<V>(a: NfaModel<V>, w: Seq<V>)
    requires
        a.wf(),
    ensures
        a.with_empty_word().accepts(w) == (a.accepts(w) || w.len() == 0),
        a.with_empty_word().wf(),
{
    let c = a.with_empty_word();
    let n = a.size as int;
    lemma_with_empty_word_reach(a, w);
    lemma_reach_in_range(a, a.initials, w);
    if c.accepts(w) {
        let q = choose|q: int| #[trigger] c.reach(c.initials, w).contains(q) && c.finals.contains(q);
        if q != n {
            assert(a.reach(a.initials, w).contains(q) && a.finals.contains(q));
        }
    }
    if a.accepts(w) {
        let q = choose|q: int| #[trigger] a.reach(a.initials, w).contains(q) && a.finals.contains(q);
        assert(c.reach(c.initials, w).contains(q) && c.finals.contains(q));
    }
    if w.len() == 0 {
        assert(c.reach(c.initials, w).contains(n) && c.finals.contains(n));
    }
}

/// The state added for the empty word is reached by the empty word only,
/// and changes nothing else.
pub proof fn lemma_with_empty_word_reach<V>(a: NfaModel<V>, w: Seq<V>)
    requires
        a.wf(),
    ensures
        a.with_empty_word().reach(a.with_empty_word().initials, w) == if w.len() == 0 {
            a.reach(a.initials, w).insert(a.size as int)
        } else {
            a.reach(a.initials, w)
        },
    decreases w.len(),
{
    let c = a.with_empty_word();
    let n = a.size as int;
    if w.len() == 0 {
        assert(c.initials =~= a.initials.insert(n));
    } else {
        lemma_with_empty_word_reach(a, w.drop_last());
        let prev_c = c.reach(c.initials, w.drop_last());
        let prev_a = a.reach(a.initials, w.drop_last());
        let v = w.last();
        assert forall|q: int| c.step(prev_c, v).contains(q) <==> a.step(prev_a, v).contains(q) by {
            if c.step(prev_c, v).contains(q) {
                let p = choose|p: int| prev_c.contains(p) && #[trigger] c.edges.contains((p, v, q));
                assert(a.edges.contains((p, v, q)));
                assert(p != n);
                assert(prev_a.contains(p));
            }
            if a.step(prev_a, v).contains(q) {
                let p = choose|p: int| prev_a.contains(p) && #[trigger] a.edges.contains((p, v, q));
                assert(prev_c.contains(p) && c.edges.contains((p, v, q)));
            }
        }
        assert(c.step(prev_c, v) =~= a.step(prev_a, v));
    }
}

/// The automaton for `k` words in a row is well formed and accepts the rows
/// of `k` words of the automaton, and nothing else.
pub proof fn law_power_language<V>(a: NfaModel<V>, la: spec_fn(Seq<V>) -> bool, k: nat, w: Seq<V>)
    requires
        a.wf(),
        forall|x: Seq<V>| #[trigger] a.accepts(x) == la(x),
    ensures
        a.power(k).accepts(w) == in_power(la, k, w),
        a.power(k).wf(),
    decreases k,
{
    if k == 0 {
        law_empty_word_language(a.alphabet, w);
    } else {
        let prev = a.power((k - 1) as nat);
        let lp = power_lang(la, (k - 1) as nat);
        law_power_language(a, la, (k - 1) as nat, w);
        assert forall|x: Seq<V>| #[trigger] prev.accepts(x) == lp(x) by {
            law_power_language(a, la, (k - 1) as nat, x);
        }
        lemma_concatenate_wf(prev, a);
        law_concatenate_language(prev, a, lp, la, w);
        if in_concat(lp, la, w) {
            let j = choose|j: int| 0 <= j <= w.len() && #[trigger] lp(w.take(j)) && la(w.skip(j));
            assert(in_power(la, (k - 1) as nat, w.take(j)) && la(w.skip(j)));
        }
        if in_power(la, k, w) {
            let j = choose|j: int|
                0 <= j <= w.len() && in_power(la, (k - 1) as nat, w.take(j)) && #[trigger] la(
                    w.skip(j),
                );
            assert(lp(w.take(j)) && la(w.skip(j)));
        }
    }
}

/// The automaton for at most `u` words in a row accepts the rows of `u`
/// words each of which is a word of the automaton or empty.
pub proof fn law_at_most_language<V>(a: NfaModel<V>, la: spec_fn(Seq<V>) -> bool, u: nat, w: Seq<V>)
    requires
        a.wf(),
        forall|x: Seq<V>| #[trigger] a.accepts(x) == la(x),
    ensures
        a.at_most(u).accepts(w) == in_power(option_lang(la), u, w),
        a.at_most(u).wf(),
{
    let lo = option_lang(la);
    if a.accepts_nothing_read() {
        let i = choose|i: int| #[trigger] a.initials.contains(i) && a.finals.contains(i);
        let none = Seq::<V>::empty();
        assert(a.reach(a.initials, none).contains(i));
        assert(a.accepts(none));
        assert forall|x: Seq<V>| #[trigger] a.accepts(x) == lo(x) by {
            if x.len() == 0 {
                assert(x =~= none);
            }
        }
        law_power_language(a, lo, u, w);
    } else {
        let base = a.with_empty_word();
        law_with_empty_word_language(a, w);
        assert forall|x: Seq<V>| #[trigger] base.accepts(x) == lo(x) by {
            law_with_empty_word_language(a, x);
        }
        law_power_language(base, lo, u, w);
    }
}

/// The automaton for `u` words in a row or more accepts a row of `u` words
/// followed by any row of words.
pub proof fn law_at_least_language<V>(a: NfaModel<V>, la: spec_fn(Seq<V>) -> bool, u: nat, w: Seq<V>)
    requires
        a.wf(),
        forall|x: Seq<V>| #[trigger] a.accepts(x) == la(x),
    ensures
        a.at_least(u).accepts(w) == in_concat(power_lang(la, u), star_lang(la), w),
        a.at_least(u).wf(),
{
    let head = a.power(u);
    let tail = a.kleene();
    let lh = power_lang(la, u);
    let lt = star_lang(la);
    law_power_language(a, la, u, w);
    lemma_kleene_wf(a);
    assert forall|x: Seq<V>| #[trigger] head.accepts(x) == lh(x) by {
        law_power_language(a, la, u, x);
    }
    assert forall|x: Seq<V>| #[trigger] tail.accepts(x) == lt(x) by {
        law_kleene_language(a, la, x);
    }
    lemma_concatenate_wf(head, tail);
    law_concatenate_language(head, tail, lh, lt, w);
}

/// The automaton for a bounded repetition accepts `lo` words in a row
/// followed by at most `hi - lo` words in a row or, without `hi`, by any
/// number of them; with `hi` below `lo` it accepts nothing.
pub proof fn law_repeat_language<V>(
    a: NfaModel<V>,
    la: spec_fn(Seq<V>) -> bool,
    lo: nat,
    hi: Option<nat>,
    w: Seq<V>,
)
    requires
        a.wf(),
        forall|x: Seq<V>| #[trigger] a.accepts(x) == la(x),
    ensures
        a.repeat(lo, hi).accepts(w) == in_repeat(la, lo, hi, w),
        a.repeat(lo, hi).wf(),
{
    match hi {
        Some(h) => {
            if h < lo {
                law_empty_language(a.alphabet, w);
            } else {
                let head = a.power(lo);
                let tail = a.at_most((h - lo) as nat);
                let lh = power_lang(la, lo);
                let lt = power_lang(option_lang(la), (h - lo) as nat);
                law_power_language(a, la, lo, w);
                law_at_most_language(a, la, (h - lo) as nat, w);
                assert forall|x: Seq<V>| #[trigger] head.accepts(x) == lh(x) by {
                    law_power_language(a, la, lo, x);
                }
                assert forall|x: Seq<V>| #[trigger] tail.accepts(x) == lt(x) by {
                    law_at_most_language(a, la, (h - lo) as nat, x);
                }
                lemma_concatenate_wf(head, tail);
                law_concatenate_language(head, tail, lh, lt, w);
            }
        },
        None => {
            law_at_least_language(a, la, lo, w);
        },
    }
}

/// The automaton for `k` words in a row has the alphabet of the automaton.
pub proof fn lemma_power_alphabet<V>(a: NfaModel<V>, k: nat)
    ensures
        a.power(k).alphabet == a.alphabet,
    decreases k,
{
    if k > 0 {
        lemma_power_alphabet(a, (k - 1) as nat);
        assert(a.alphabet + a.alphabet =~= a.alphabet);
    }
}

/// The automaton for a bounded repetition has the alphabet of the
/// automaton.
pub proof fn lemma_repeat_alphabet<V>(a: NfaModel<V>, lo: nat, hi: Option<nat>)
    ensures
        a.repeat(lo, hi).alphabet == a.alphabet,
{
    lemma_power_alphabet(a, lo);
    assert(a.alphabet + a.alphabet =~= a.alphabet);
    match hi {
        Some(h) => {
            if h >= lo {
                lemma_power_alphabet(a, (h - lo) as nat);
                lemma_power_alphabet(a.with_empty_word(), (h - lo) as nat);
            }
        },
        None => {},
    }
}

/// The automaton for `k` words in a row has edges on symbols of the
/// alphabet only where the automaton has.
pub proof fn lemma_power_proper<V>(a: NfaModel<V>, k: nat)
    requires
        a.wf(),
        a.proper(),
    ensures
        a.power(k).wf(),
        a.power(k).proper(),
    decreases k,
{
    if k > 0 {
        lemma_power_proper(a, (k - 1) as nat);
        lemma_concatenate_wf(a.power((k - 1) as nat), a);
    }
}

/// The automaton for a bounded repetition has edges on symbols of the
/// alphabet only where the automaton has.
pub proof fn lemma_repeat_proper<V>(a: NfaModel<V>, lo: nat, hi: Option<nat>)
    requires
        a.wf(),
        a.proper(),
    ensures
        a.repeat(lo, hi).wf(),
        a.repeat(lo, hi).proper(),
        a.at_most(lo).wf(),
        a.at_most(lo).proper(),
        a.at_least(lo).wf(),
        a.at_least(lo).proper(),
{
    lemma_power_proper(a, lo);
    lemma_kleene_wf(a);
    lemma_concatenate_wf(a.power(lo), a.kleene());
    let base = a.with_empty_word();
    assert(base.wf() && base.proper());
    lemma_power_proper(base, lo);
    match hi {
        Some(h) => {
            if h >= lo {
                lemma_power_proper(a, (h - lo) as nat);
                lemma_power_proper(base, (h - lo) as nat);
                lemma_concatenate_wf(a.power(lo), a.at_most((h - lo) as nat));
            }
        },
        None => {},
    }
}

} // verus!
