//! Non-deterministic finite automata.

use std::collections::{HashMap, HashSet};
use std::hash::Hash;
use vstd::prelude::*;
use vstd::std_specs::hash::obeys_key_model;

use crate::lemmas::lemma_reach_prefix_empty;
use crate::laws::law_unite_language;
use crate::mirror::law_reverse_language;
use crate::model::{bound_of, word_over, NfaModel};
use crate::products::{
    in_concat, in_power, in_repeat, in_star, law_at_least_language, law_at_most_language,
    law_concatenate_language, law_empty_language, law_empty_word_language, law_full_language,
    law_kleene_language, law_length_language, law_matching_language, law_repeat_language,
    option_lang, power_lang, star_lang,
};

use crate::table::{
    add_edge, copy_table, edge_list, edge_of, empty_table, has_target, list_has, push_state,
    table_edges, table_has,
};
use crate::utils::{
    append_hashset, append_shift_hashset, copy_set, has_no_member, ints, seq_has, set_items,
    sets_meet, singleton,
};

verus! {

broadcast use vstd::std_specs::hash::group_hash_axioms;

/// A non-deterministic automaton over the symbols `V`. States are numbered
/// from zero; a state may have several successors for one symbol, or none,
/// and there may be several initial states.
pub struct NFA<V: Eq + Hash + Copy> {
    pub(crate) alphabet: HashSet<V>,
    pub(crate) initials: HashSet<usize>,
    pub(crate) finals: HashSet<usize>,
    pub(crate) transitions: Vec<HashMap<V, Vec<usize>>>,
}

/// Something that can be turned into a non-deterministic automaton.
pub trait ToNfa<V: Eq + Hash + Copy> {
    /// The automaton that the value stands for.
    spec fn as_nfa(&self) -> NfaModel<V>;

    fn to_nfa(&self) -> (r: NFA<V>)
        ensures
            r@ == self.as_nfa(),
    ;
}

/// The labels hold the symbol `v` for the edges from `p` to `q`.
pub open spec fn labels_hold<V>(labels: Seq<HashMap<usize, HashSet<V>>>, p: int, v: V, q: int) -> bool {
    0 <= p < labels.len() && 0 <= q <= usize::MAX && labels[p]@.contains_key(q as usize)
        && labels[p]@[q as usize]@.contains(v)
}

/// The model that the four parts of an automaton stand for.
pub open spec fn model_of<V>(
    alphabet: Set<V>,
    initials: Set<usize>,
    finals: Set<usize>,
    transitions: Seq<HashMap<V, Vec<usize>>>,
) -> NfaModel<V> {
    NfaModel {
        alphabet,
        size: transitions.len(),
        initials: ints(initials),
        finals: ints(finals),
        edges: table_edges(transitions),
    }
}

impl<V: Eq + Hash + Copy> NFA<V> {
    /// The mathematical automaton that this value represents.
    pub open(crate) spec fn view(&self) -> NfaModel<V> {
        model_of(self.alphabet@, self.initials@, self.finals@, self.transitions@)
    }

    /// What holds of every value: the symbols hash consistently and the
    /// automaton is well formed.
    #[verifier::type_invariant]
    pub open(crate) spec fn inv(&self) -> bool {
        obeys_key_model::<V>() && self.view().wf()
    }

    /// States what holds of every automaton: it is well formed, and its
    /// symbols hash consistently. Does nothing when run.
    pub fn well_formed(&self)
        ensures
            self@.wf(),
            obeys_key_model::<V>(),
    {
        proof {
            use_type_invariant(self);
        }
    }

    /// Builds an automaton from its four parts.
    pub(crate) fn from_parts(
        alphabet: HashSet<V>,
        initials: HashSet<usize>,
        finals: HashSet<usize>,
        transitions: Vec<HashMap<V, Vec<usize>>>,
    ) -> (r: NFA<V>)
        requires
            obeys_key_model::<V>(),
            model_of(alphabet@, initials@, finals@, transitions@).wf(),
        ensures
            r@ == model_of(alphabet@, initials@, finals@, transitions@),
    {
        NFA { alphabet, initials, finals, transitions }
    }

    /// The automaton without any state: it accepts nothing.
    pub fn new_empty(alphabet: HashSet<V>) -> (r: NFA<V>)
        requires
            obeys_key_model::<V>(),
        ensures
            r@ == NfaModel::empty(alphabet@),
            forall|w: Seq<V>| !r@.accepts(w),
    {
        let r = NFA {
            alphabet,
            initials: HashSet::new(),
            finals: HashSet::new(),
            transitions: Vec::new(),
        };
        proof {
            assert(ints(r.initials@) =~= Set::<int>::empty());
            assert(table_edges(r.transitions@) =~= Set::<(int, V, int)>::empty());
            assert forall|w: Seq<V>| !r@.accepts(w) by {
                law_empty_language(alphabet@, w);
            }
        }
        r
    }

    /// The automaton that accepts every word over `alphabet`.
    pub fn new_full(alphabet: HashSet<V>) -> (r: NFA<V>)
        requires
            obeys_key_model::<V>(),
        ensures
            r@ == NfaModel::full(alphabet@),
            forall|w: Seq<V>| r@.accepts(w) == word_over(w, alphabet@),
    {
        let symbols = set_items(&alphabet);
        let mut transitions: Vec<HashMap<V, Vec<usize>>> = empty_table(1);
        let mut i: usize = 0;
        while i < symbols.len()
            invariant
                obeys_key_model::<V>(),
                i <= symbols@.len(),
                transitions@.len() == 1,
                forall|e: (int, V, int)|
                    #[trigger] table_edges(transitions@).contains(e) <==> e.0 == 0 && e.2 == 0 && exists|
                        j: int,
                    | 0 <= j < i && symbols@[j] == e.1,
            decreases symbols@.len() - i,
        {
            add_edge(&mut transitions, 0, symbols[i], 0);
            i += 1;
        }
        let initials = singleton(0);
        let finals = singleton(0);
        proof {
            let m = NfaModel::full(alphabet@);
            assert forall|e: (int, V, int)| #[trigger] table_edges(transitions@).contains(e) <==> m.edges.contains(
                e,
            ) by {
                if m.edges.contains(e) {
                    assert(symbols@.to_set().contains(e.1));
                    assert(symbols@.contains(e.1));
                }
                if table_edges(transitions@).contains(e) {
                    let j = choose|j: int| 0 <= j < i && symbols@[j] == e.1;
                    assert(symbols@.contains(symbols@[j]));
                }
            }
            assert(table_edges(transitions@) =~= m.edges);
            assert forall|w: Seq<V>| m.accepts(w) == word_over(w, alphabet@) by {
                law_full_language(alphabet@, w);
            }
        }
        NFA { alphabet, initials, finals, transitions }
    }

    /// The automaton that accepts the words of `l` symbols over `alphabet`.
    pub fn new_length(alphabet: HashSet<V>, l: usize) -> (r: NFA<V>)
        requires
            obeys_key_model::<V>(),
            l < usize::MAX,
        ensures
            r@ == NfaModel::length(alphabet@, l as nat),
            forall|w: Seq<V>| r@.accepts(w) == (w.len() == l && word_over(w, alphabet@)),
    {
        let symbols = set_items(&alphabet);
        let mut transitions: Vec<HashMap<V, Vec<usize>>> = empty_table(l + 1);
        let mut p: usize = 0;
        while p < l
            invariant
                obeys_key_model::<V>(),
                p <= l < usize::MAX,
                transitions@.len() == l + 1,
                forall|e: (int, V, int)|
                    #[trigger] table_edges(transitions@).contains(e) <==> 0 <= e.0 < p && e.2 == e.0 + 1
                        && symbols@.contains(e.1),
            decreases l - p,
        {
            let mut i: usize = 0;
            while i < symbols.len()
                invariant
                    obeys_key_model::<V>(),
                    p < l < usize::MAX,
                    i <= symbols@.len(),
                    transitions@.len() == l + 1,
                    forall|e: (int, V, int)|
                        #[trigger] table_edges(transitions@).contains(e) <==> (0 <= e.0 < p && e.2 == e.0 + 1
                            && symbols@.contains(e.1)) || (e.0 == p && e.2 == p + 1 && exists|
                            j: int,
                        | 0 <= j < i && symbols@[j] == e.1),
                decreases symbols@.len() - i,
            {
                assert(symbols@.contains(symbols@[i as int]));
                add_edge(&mut transitions, p, symbols[i], p + 1);
                i += 1;
            }
            p += 1;
        }
        let initials = singleton(0);
        let finals = singleton(l);
        proof {
            let m = NfaModel::length(alphabet@, l as nat);
            assert forall|e: (int, V, int)| #[trigger] table_edges(transitions@).contains(e) <==> m.edges.contains(
                e,
            ) by {
                assert(symbols@.to_set().contains(e.1) <==> symbols@.contains(e.1));
            }
            assert(table_edges(transitions@) =~= m.edges);
            assert forall|w: Seq<V>| m.accepts(w) == (w.len() == l && word_over(w, alphabet@)) by {
                law_length_language(alphabet@, l as nat, w);
            }
        }
        NFA { alphabet, initials, finals, transitions }
    }

    /// The automaton that accepts the word `s` and nothing else.
    pub fn new_matching(alphabet: HashSet<V>, s: &Vec<V>) -> (r: NFA<V>)
        requires
            obeys_key_model::<V>(),
            s@.len() < usize::MAX,
        ensures
            r@ == NfaModel::matching(alphabet@, s@),
            forall|w: Seq<V>| r@.accepts(w) == (w == s@),
    {
        let l = s.len();
        let mut transitions: Vec<HashMap<V, Vec<usize>>> = empty_table(l + 1);
        let mut p: usize = 0;
        while p < l
            invariant
                obeys_key_model::<V>(),
                l == s@.len(),
                p <= l < usize::MAX,
                transitions@.len() == l + 1,
                forall|e: (int, V, int)|
                    #[trigger] table_edges(transitions@).contains(e) <==> 0 <= e.0 < p && e.2 == e.0 + 1 && e.1
                        == s@[e.0],
            decreases l - p,
        {
            add_edge(&mut transitions, p, s[p], p + 1);
            p += 1;
        }
        let initials = singleton(0);
        let finals = singleton(l);
        proof {
            assert(table_edges(transitions@) =~= NfaModel::matching(alphabet@, s@).edges);
            assert forall|w: Seq<V>| NfaModel::matching(alphabet@, s@).accepts(w) == (w == s@) by {
                law_matching_language(alphabet@, s@, w);
            }
        }
        NFA { alphabet, initials, finals, transitions }
    }

    /// The automaton that accepts the empty word and nothing else.
    pub fn new_empty_word(alphabet: HashSet<V>) -> (r: NFA<V>)
        requires
            obeys_key_model::<V>(),
        ensures
            r@ == NfaModel::empty_word(alphabet@),
            forall|w: Seq<V>| r@.accepts(w) == (w.len() == 0),
    {
        let transitions: Vec<HashMap<V, Vec<usize>>> = empty_table(1);
        let initials = singleton(0);
        let finals = singleton(0);
        proof {
            assert forall|w: Seq<V>| NfaModel::empty_word(alphabet@).accepts(w) == (w.len() == 0) by {
                law_empty_word_language(alphabet@, w);
            }
        }
        NFA { alphabet, initials, finals, transitions }
    }

    /// A copy of the alphabet.
    pub fn alphabet(&self) -> (r: HashSet<V>)
        ensures
            r@ == self@.alphabet,
    {
        proof {
            use_type_invariant(self);
        }
        copy_set(&self.alphabet)
    }

    /// The number of states.
    pub fn size(&self) -> (r: usize)
        ensures
            r == self@.size,
    {
        self.transitions.len()
    }

    /// The initial states, each once.
    pub fn initial_states(&self) -> (r: Vec<usize>)
        ensures
            r@.no_duplicates(),
            forall|q: int| seq_has(r@, q) <==> self@.initials.contains(q),
    {
        let r = set_items(&self.initials);
        proof {
            assert forall|q: int| seq_has(r@, q) <==> self@.initials.contains(q) by {
                lemma_items_hold(r@, self.initials@, q);
            }
        }
        r
    }

    /// The final states, each once.
    pub fn final_states(&self) -> (r: Vec<usize>)
        ensures
            r@.no_duplicates(),
            forall|q: int| seq_has(r@, q) <==> self@.finals.contains(q),
    {
        let r = set_items(&self.finals);
        proof {
            assert forall|q: int| seq_has(r@, q) <==> self@.finals.contains(q) by {
                lemma_items_hold(r@, self.finals@, q);
            }
        }
        r
    }

    /// The edges as triples of source, symbol and target.
    pub fn edges(&self) -> (r: Vec<(usize, V, usize)>)
        ensures
            forall|e: (int, V, int)| self@.edges.contains(e) <==> list_has(r@, e),
    {
        proof {
            use_type_invariant(self);
        }
        edge_list(&self.transitions)
    }

    /// For every state, the states that its edges lead to, each with the
    /// symbols that lead there.
    pub fn labels(&self) -> (r: Vec<HashMap<usize, HashSet<V>>>)
        ensures
            r@.len() == self@.size,
            forall|p: int, v: V, q: int| #[trigger]
                labels_hold(r@, p, v, q) <==> self@.edges.contains((p, v, q)),
            forall|p: int, q: usize|
                0 <= p < r@.len() && #[trigger] r@[p]@.contains_key(q) ==> exists|v: V|
                    r@[p]@[q]@.contains(v),
    {
        proof {
            use_type_invariant(self);
        }
        let ghost m = self@;
        let n = self.transitions.len();
        let list = edge_list(&self.transitions);
        let mut labels: Vec<HashMap<usize, HashSet<V>>> = Vec::new();
        let mut k: usize = 0;
        while k < n
            invariant
                k <= n,
                labels@.len() == k,
                forall|p: int| 0 <= p < k ==> (#[trigger] labels@[p])@ == Map::<usize, HashSet<V>>::empty(),
            decreases n - k,
        {
            labels.push(HashMap::new());
            k += 1;
        }
        let mut i: usize = 0;
        while i < list.len()
            invariant
                obeys_key_model::<V>(),
                m.wf(),
                m.size == n,
                labels@.len() == n,
                i <= list@.len(),
                forall|e: (int, V, int)| #[trigger] m.edges.contains(e) <==> list_has(list@, e),
                forall|p: int, v: V, q: int| #[trigger]
                    labels_hold(labels@, p, v, q) <==> list_has(list@.take(i as int), (p, v, q)),
                forall|p: int, q: usize|
                    0 <= p < labels@.len() && #[trigger] labels@[p]@.contains_key(q) ==> exists|v: V|
                        labels@[p]@[q]@.contains(v),
            decreases list@.len() - i,
        {
            let (p, v, q) = list[i];
            let ghost before = labels@;
            proof {
                crate::table::lemma_list_has_take_next(list@, i as int);
                assert(list_has(list@, edge_of(list@[i as int])));
                assert(m.edges.contains((p as int, v, q as int)));
            }
            let mut symbols = match labels[p].remove(&q) {
                Some(set) => set,
                None => HashSet::new(),
            };
            symbols.insert(v);
            labels[p].insert(q, symbols);
            proof {
                assert forall|a: int, u: V, b: int| #[trigger]
                    labels_hold(labels@, a, u, b) <==> list_has(list@.take(i + 1), (a, u, b)) by {
                    assert(labels_hold(before, a, u, b) <==> list_has(list@.take(i as int), (a, u, b)));
                    if 0 <= a < n && a != p {
                        assert(labels@[a] == before[a]);
                    }
                    assert((a, u, b) == edge_of(list@[i as int]) <==> a == p && u == v && b == q);
                }
                assert forall|a: int, b: usize|
                    0 <= a < labels@.len() && #[trigger] labels@[a]@.contains_key(b) implies exists|
                    u: V,
                | labels@[a]@[b]@.contains(u) by {
                    if a == p && b == q {
                        assert(labels@[a]@[b]@.contains(v));
                    } else if a == p {
                        assert(before[a]@.contains_key(b));
                        let u = choose|u: V| before[a]@[b]@.contains(u);
                        assert(labels@[a]@[b]@.contains(u));
                    } else {
                        assert(labels@[a] == before[a]);
                    }
                }
            }
            i += 1;
        }
        proof {
            assert(list@.take(list@.len() as int) =~= list@);
        }
        labels
    }

    /// Whether the automaton accepts the word `v`.
    pub fn run(&self, v: &Vec<V>) -> (r: bool)
        ensures
            r == self@.accepts(v@),
    {
        proof {
            use_type_invariant(self);
        }
        let ghost m = self@;
        let mut actuals = copy_set(&self.initials);
        let mut i: usize = 0;
        assert(v@.take(0) =~= Seq::<V>::empty());
        while i < v.len()
            invariant
                obeys_key_model::<V>(),
                m == self@,
                m.wf(),
                i <= v@.len(),
                ints(actuals@) == m.reach(m.initials, v@.take(i as int)),
            decreases v@.len() - i,
        {
            if actuals.is_empty() {
                proof {
                    assert(ints(actuals@) =~= Set::<int>::empty());
                    lemma_reach_prefix_empty(m, m.initials, v@, i as int);
                }
                return false;
            }
            let l = v[i];
            let mut next: HashSet<usize> = HashSet::new();
            let items = set_items(&actuals);
            let mut si: usize = 0;
            proof {
                crate::lemmas::lemma_reach_in_range(m, m.initials, v@.take(i as int));
                assert forall|x: usize| actuals@.contains(x) implies x < self.transitions@.len() by {
                    assert(ints(actuals@).contains(x as int));
                }
            }
            while si < items.len()
                invariant
                    obeys_key_model::<V>(),
                    m == self@,
                    m.wf(),
                    si <= items@.len(),
                    items@.to_set() == actuals@,
                    forall|x: usize| actuals@.contains(x) ==> x < self.transitions@.len(),
                    forall|q: usize|
                        next@.contains(q) <==> exists|sj: int|
                            0 <= sj < si && m.edges.contains((#[trigger] items@[sj] as int, l, q as int)),
                decreases items@.len() - si,
            {
                let st = items[si];
                proof {
                    assert(items@.contains(items@[si as int]));
                    assert(actuals@.contains(st));
                }
                match self.transitions[st].get(&l) {
                    None => {
                        proof {
                            assert forall|q: usize|
                                next@.contains(q) <==> exists|sj: int|
                                    0 <= sj < si + 1 && m.edges.contains(
                                        (#[trigger] items@[sj] as int, l, q as int),
                                    ) by {
                                assert(!m.edges.contains((st as int, l, q as int)));
                            }
                        }
                    },
                    Some(tr) => {
                        let mut j: usize = 0;
                        while j < tr.len()
                            invariant
                                obeys_key_model::<V>(),
                                m == self@,
                                j <= tr@.len(),
                                si < items@.len(),
                                st == items@[si as int],
                                st < self.transitions@.len(),
                                self.transitions@[st as int]@.contains_key(l),
                                self.transitions@[st as int]@[l] == *tr,
                                forall|q: usize|
                                    next@.contains(q) <==> (exists|sj: int|
                                        0 <= sj < si && m.edges.contains(
                                            (#[trigger] items@[sj] as int, l, q as int),
                                        )) || (exists|jj: int| 0 <= jj < j && tr@[jj] == q),
                            decreases tr@.len() - j,
                        {
                            next.insert(tr[j]);
                            j += 1;
                        }
                        proof {
                            assert forall|q: usize|
                                next@.contains(q) <==> exists|sj: int|
                                    0 <= sj < si + 1 && m.edges.contains(
                                        (#[trigger] items@[sj] as int, l, q as int),
                                    ) by {
                                if exists|jj: int| 0 <= jj < j && tr@[jj] == q {
                                    let jj = choose|jj: int| 0 <= jj < j && tr@[jj] == q;
                                    assert(tr@[jj] as int == q as int);
                                    assert(table_has(self.transitions@, st as int, l, q as int));
                                    assert(m.edges.contains((items@[si as int] as int, l, q as int)));
                                }
                                if m.edges.contains((st as int, l, q as int)) {
                                    let jj = choose|jj: int|
                                        0 <= jj < tr@.len() && #[trigger] tr@[jj] as int == q as int;
                                    assert(tr@[jj] == q);
                                }
                            }
                        }
                    },
                }
                si += 1;
            }
            proof {
                let prev = m.reach(m.initials, v@.take(i as int));
                assert(v@.take(i + 1).drop_last() =~= v@.take(i as int));
                assert(v@.take(i + 1).last() == l);
                let target = m.step(prev, l);
                assert forall|q: int| ints(next@).contains(q) <==> target.contains(q) by {
                    if ints(next@).contains(q) {
                        let sj = choose|sj: int|
                            0 <= sj < si && m.edges.contains(
                                (#[trigger] items@[sj] as int, l, (q as usize) as int),
                            );
                        assert(items@.contains(items@[sj]));
                        assert(prev.contains(items@[sj] as int));
                    }
                    if target.contains(q) {
                        let p = choose|p: int| prev.contains(p) && #[trigger] m.edges.contains((p, l, q));
                        assert(actuals@.contains(p as usize));
                        assert(items@.to_set().contains(p as usize));
                        assert(items@.contains(p as usize));
                        let sj = choose|sj: int| 0 <= sj < items@.len() && items@[sj] == p as usize;
                        assert(m.edges.contains((items@[sj] as int, l, (q as usize) as int)));
                    }
                }
                assert(ints(next@) =~= target);
            }
            actuals = next;
            i += 1;
        }
        assert(v@.take(v@.len() as int) =~= v@);
        sets_meet(&actuals, &self.finals)
    }
}

/// The edge `e` turned around.
pub open spec fn flip<V>(e: (int, V, int)) -> (int, V, int) {
    (e.2, e.1, e.0)
}

/// The edge `e` with both ends moved down by `n`.
pub open spec fn unshift<V>(e: (int, V, int), n: int) -> (int, V, int) {
    (e.0 - n, e.1, e.2 - n)
}

/// Adds `m` states without edges.
fn push_states<V: Eq + Hash + Copy>(t: &mut Vec<HashMap<V, Vec<usize>>>, m: usize)
    ensures
        final(t)@.len() == old(t)@.len() + m,
        table_edges(final(t)@) == table_edges(old(t)@),
{
    let mut k: usize = 0;
    while k < m
        invariant
            k <= m,
            t@.len() == old(t)@.len() + k,
            table_edges(t@) == table_edges(old(t)@),
        decreases m - k,
    {
        push_state(t);
        k += 1;
    }
}

/// Adds every edge of `list`, both ends moved up by `n`.
fn add_shifted<V: Eq + Hash + Copy>(
    t: &mut Vec<HashMap<V, Vec<usize>>>,
    list: &Vec<(usize, V, usize)>,
    n: usize,
)
    requires
        obeys_key_model::<V>(),
        forall|j: int|
            0 <= j < list@.len() ==> (#[trigger] list@[j]).0 + n < old(t)@.len() && list@[j].2 + n
                < old(t)@.len(),
    ensures
        final(t)@.len() == old(t)@.len(),
        forall|e: (int, V, int)|
            #[trigger] table_edges(final(t)@).contains(e) <==> table_edges(old(t)@).contains(e) || list_has(
                list@,
                unshift(e, n as int),
            ),
{
    let len = t.len();
    let mut i: usize = 0;
    while i < list.len()
        invariant
            obeys_key_model::<V>(),
            i <= list@.len(),
            t@.len() == old(t)@.len() == len,
            forall|j: int|
                0 <= j < list@.len() ==> (#[trigger] list@[j]).0 + n < old(t)@.len() && list@[j].2
                    + n < old(t)@.len(),
            forall|e: (int, V, int)|
                #[trigger] table_edges(t@).contains(e) <==> table_edges(old(t)@).contains(e) || list_has(
                    list@.take(i as int),
                    unshift(e, n as int),
                ),
        decreases list@.len() - i,
    {
        let (p, v, q) = list[i];
        let ghost before = t@;
        proof {
            crate::table::lemma_list_has_take_next(list@, i as int);
            assert(edge_of(list@[i as int]) == (p as int, v, q as int));
            assert(list@[i as int].0 + n < len && list@[i as int].2 + n < len);
        }
        add_edge(t, p + n, v, q + n);
        proof {
            assert forall|e: (int, V, int)|
                #[trigger] table_edges(t@).contains(e) <==> table_edges(old(t)@).contains(e) || list_has(
                    list@.take(i + 1),
                    unshift(e, n as int),
                ) by {
                assert(table_edges(t@).contains(e) <==> table_edges(before).contains(e) || e == (
                    (p + n) as int,
                    v,
                    (q + n) as int,
                ));
                assert(e == ((p + n) as int, v, (q + n) as int) <==> unshift(e, n as int) == (
                    p as int,
                    v,
                    q as int,
                ));
            }
        }
        i += 1;
    }
    assert(list@.take(list@.len() as int) =~= list@);
}

/// For every edge of `list` that leaves a state of `from`, adds an edge with
/// the same symbol from every state of `sources` to the edge's target moved
/// up by `n`.
fn add_bridges<V: Eq + Hash + Copy>(
    t: &mut Vec<HashMap<V, Vec<usize>>>,
    list: &Vec<(usize, V, usize)>,
    from: &HashSet<usize>,
    sources: &Vec<usize>,
    n: usize,
)
    requires
        obeys_key_model::<V>(),
        forall|j: int| 0 <= j < list@.len() ==> (#[trigger] list@[j]).2 + n < old(t)@.len(),
        forall|k: int| 0 <= k < sources@.len() ==> #[trigger] sources@[k] < old(t)@.len(),
    ensures
        final(t)@.len() == old(t)@.len(),
        forall|e: (int, V, int)|
            #[trigger] table_edges(final(t)@).contains(e) <==> table_edges(old(t)@).contains(e) || (seq_has(
                sources@,
                e.0,
            ) && bridge_target(list@, from@, e.1, e.2 - n)),
{
    let len = t.len();
    let mut i: usize = 0;
    while i < list.len()
        invariant
            obeys_key_model::<V>(),
            i <= list@.len(),
            t@.len() == old(t)@.len() == len,
            forall|j: int| 0 <= j < list@.len() ==> (#[trigger] list@[j]).2 + n < old(t)@.len(),
            forall|k: int| 0 <= k < sources@.len() ==> #[trigger] sources@[k] < old(t)@.len(),
            forall|e: (int, V, int)|
                #[trigger] table_edges(t@).contains(e) <==> table_edges(old(t)@).contains(e) || (seq_has(
                    sources@,
                    e.0,
                ) && bridge_target(list@.take(i as int), from@, e.1, e.2 - n)),
        decreases list@.len() - i,
    {
        let (p, v, q) = list[i];
        let ghost outer = t@;
        proof {
            lemma_bridge_target_next(list@, from@, i as int);
            assert(list@[i as int].2 + n < len);
            assert(sources@.take(0) =~= Seq::<usize>::empty());
        }
        if from.contains(&p) {
            let mut k: usize = 0;
            while k < sources.len()
                invariant
                    obeys_key_model::<V>(),
                    k <= sources@.len(),
                    t@.len() == old(t)@.len() == len,
                    q + n < old(t)@.len(),
                    forall|k: int| 0 <= k < sources@.len() ==> #[trigger] sources@[k] < old(t)@.len(),
                    forall|e: (int, V, int)|
                        #[trigger] table_edges(t@).contains(e) <==> table_edges(outer).contains(e) || (seq_has(
                            sources@.take(k as int),
                            e.0,
                        ) && e.1 == v && e.2 == q + n),
                decreases sources@.len() - k,
            {
                let ghost inner = t@;
                add_edge(t, sources[k], v, q + n);
                proof {
                    assert forall|e: (int, V, int)|
                        #[trigger] table_edges(t@).contains(e) <==> table_edges(outer).contains(e) || (seq_has(
                            sources@.take(k + 1),
                            e.0,
                        ) && e.1 == v && e.2 == q + n) by {
                        let x = (sources@[k as int] as int, v, (q + n) as int);
                        assert(table_edges(t@).contains(e) <==> table_edges(inner).contains(e) || e
                            == x);
                        lemma_seq_has_take_next(sources@, k as int, e.0);
                        assert(table_edges(inner).contains(e) <==> table_edges(outer).contains(e)
                            || (seq_has(sources@.take(k as int), e.0) && e.1 == v && e.2 == q + n));
                        assert(e == x <==> (e.0 == sources@[k as int] as int && e.1 == v && e.2 == q
                            + n));
                    }
                }
                k += 1;
            }
            proof {
                assert(sources@.take(sources@.len() as int) =~= sources@);
            }
        }
        proof {
            assert forall|e: (int, V, int)| #[trigger]
                table_edges(t@).contains(e) <==> table_edges(old(t)@).contains(e) || (seq_has(
                    sources@,
                    e.0,
                ) && bridge_target(list@.take(i + 1), from@, e.1, e.2 - n)) by {
                assert(table_edges(outer).contains(e) <==> table_edges(old(t)@).contains(e) || (
                seq_has(sources@, e.0) && bridge_target(list@.take(i as int), from@, e.1, e.2 - n)));
                assert(bridge_target(list@.take(i + 1), from@, e.1, e.2 - n) <==> bridge_target(
                    list@.take(i as int),
                    from@,
                    e.1,
                    e.2 - n,
                ) || (from@.contains(p) && v == e.1 && q == e.2 - n));
            }
        }
        i += 1;
    }
    assert(list@.take(list@.len() as int) =~= list@);
}

/// Some edge of `list` leaves a state of `from`, carries `v` and ends in `q`.
pub open spec fn bridge_target<V>(list: Seq<(usize, V, usize)>, from: Set<usize>, v: V, q: int) -> bool {
    exists|j: int|
        0 <= j < list.len() && from.contains((#[trigger] list[j]).0) && list[j].1 == v && list[j].2
            == q
}

proof fn lemma_bridge_target_next<V>(list: Seq<(usize, V, usize)>, from: Set<usize>, i: int)
    requires
        0 <= i < list.len(),
    ensures
        forall|v: V, q: int|
            bridge_target(list.take(i + 1), from, v, q) <==> bridge_target(list.take(i), from, v, q)
                || (from.contains(list[i].0) && list[i].1 == v && list[i].2 == q),
{
    assert forall|v: V, q: int|
        bridge_target(list.take(i + 1), from, v, q) <==> bridge_target(list.take(i), from, v, q) || (
        from.contains(list[i].0) && list[i].1 == v && list[i].2 == q) by {
        let a = list.take(i + 1);
        let b = list.take(i);
        if bridge_target(a, from, v, q) {
            let j = choose|j: int|
                0 <= j < a.len() && from.contains((#[trigger] a[j]).0) && a[j].1 == v && a[j].2 == q;
            if j < i {
                assert(from.contains(b[j].0) && b[j].1 == v && b[j].2 == q);
            }
        }
        if bridge_target(b, from, v, q) {
            let j = choose|j: int|
                0 <= j < b.len() && from.contains((#[trigger] b[j]).0) && b[j].1 == v && b[j].2 == q;
            assert(from.contains(a[j].0) && a[j].1 == v && a[j].2 == q);
        }
        if from.contains(list[i].0) && list[i].1 == v && list[i].2 == q {
            assert(from.contains(a[i].0) && a[i].1 == v && a[i].2 == q);
        }
    }
}

proof fn lemma_seq_has_take_next(s: Seq<usize>, k: int, q: int)
    requires
        0 <= k < s.len(),
    ensures
        seq_has(s.take(k + 1), q) <==> seq_has(s.take(k), q) || s[k] as int == q,
{
    let a = s.take(k + 1);
    let b = s.take(k);
    if seq_has(a, q) {
        let j = choose|j: int| 0 <= j < a.len() && #[trigger] a[j] as int == q;
        if j < k {
            assert(b[j] as int == q);
        }
    }
    if seq_has(b, q) {
        let j = choose|j: int| 0 <= j < b.len() && #[trigger] b[j] as int == q;
        assert(a[j] as int == q);
    }
    if s[k] as int == q {
        assert(a[k] as int == q);
    }
}

/// Where `list` holds the edges of `m` and `from` its initial states, the
/// edges picked for bridging are those that leave an initial state.
proof fn lemma_bridge_is_first_move<V>(
    list: Seq<(usize, V, usize)>,
    from: Set<usize>,
    m: NfaModel<V>,
    v: V,
    q: int,
)
    requires
        forall|e: (int, V, int)| m.edges.contains(e) <==> list_has(list, e),
        m.initials == ints(from),
    ensures
        bridge_target(list, from, v, q) <==> m.first_move(v, q),
{
    if bridge_target(list, from, v, q) {
        let j = choose|j: int|
            0 <= j < list.len() && from.contains((#[trigger] list[j]).0) && list[j].1 == v
                && list[j].2 == q;
        assert(list_has(list, edge_of(list[j])));
        assert(m.initials.contains(list[j].0 as int) && m.edges.contains((list[j].0 as int, v, q)));
    }
    if m.first_move(v, q) {
        let i = choose|i: int| m.initials.contains(i) && #[trigger] m.edges.contains((i, v, q));
        assert(list_has(list, (i, v, q)));
        let j = choose|j: int| 0 <= j < list.len() && edge_of(#[trigger] list[j]) == (i, v, q);
        assert(from.contains(list[j].0) && list[j].1 == v && list[j].2 == q);
    }
}

/// A list of the members of a set of states holds exactly the set.
proof fn lemma_items_hold(items: Seq<usize>, s: Set<usize>, q: int)
    requires
        items.to_set() == s,
    ensures
        seq_has(items, q) <==> ints(s).contains(q),
{
    if seq_has(items, q) {
        let j = choose|j: int| 0 <= j < items.len() && #[trigger] items[j] as int == q;
        assert(items.contains(items[j]));
        assert(items.to_set().contains(items[j]));
    }
    if ints(s).contains(q) {
        assert(items.to_set().contains(q as usize));
        assert(items.contains(q as usize));
        let j = choose|j: int| 0 <= j < items.len() && items[j] == q as usize;
        assert(items[j] as int == q);
    }
}

impl<V: Eq + Hash + Copy> NFA<V> {
    /// The automaton read backwards: it accepts the mirror images of the
    /// words that `self` accepts.
    pub fn reverse(self) -> (r: NFA<V>)
        ensures
            r@ == self@.reverse(),
            forall|w: Seq<V>| r@.accepts(w) == self@.accepts(w.reverse()),
    {
        proof {
            use_type_invariant(&self);
        }
        let ghost m = self@;
        let NFA { alphabet, initials, finals, transitions } = self;
        let list = edge_list(&transitions);
        let mut t: Vec<HashMap<V, Vec<usize>>> = empty_table(transitions.len());
        let mut i: usize = 0;
        while i < list.len()
            invariant
                obeys_key_model::<V>(),
                m.wf(),
                m.edges == table_edges(transitions@),
                m.size == transitions@.len(),
                i <= list@.len(),
                t@.len() == transitions@.len(),
                forall|e: (int, V, int)| #[trigger] table_edges(transitions@).contains(e) <==> list_has(list@, e),
                forall|e: (int, V, int)|
                    #[trigger] table_edges(t@).contains(e) <==> list_has(list@.take(i as int), flip(e)),
            decreases list@.len() - i,
        {
            let (p, v, q) = list[i];
            let ghost before = t@;
            proof {
                crate::table::lemma_list_has_take_next(list@, i as int);
                assert(edge_of(list@[i as int]) == (p as int, v, q as int));
                assert(list_has(list@, (p as int, v, q as int)));
                assert(m.edges.contains((p as int, v, q as int)));
            }
            add_edge(&mut t, q, v, p);
            proof {
                assert forall|e: (int, V, int)|
                    #[trigger] table_edges(t@).contains(e) <==> list_has(list@.take(i + 1), flip(e)) by {
                    assert(table_edges(t@).contains(e) <==> table_edges(before).contains(e) || e == (
                        q as int,
                        v,
                        p as int,
                    ));
                    assert(e == (q as int, v, p as int) <==> flip(e) == (p as int, v, q as int));
                }
            }
            i += 1;
        }
        proof {
            assert(list@.take(list@.len() as int) =~= list@);
            assert forall|e: (int, V, int)|
                #[trigger] table_edges(t@).contains(e) <==> m.reverse().edges.contains(e) by {
                assert(flip(e) == (e.2, e.1, e.0));
            }
            assert(table_edges(t@) =~= m.reverse().edges);
            assert forall|w: Seq<V>| m.reverse().accepts(w) == m.accepts(w.reverse()) by {
                law_reverse_language(m, w);
            }
        }
        NFA { alphabet, initials: finals, finals: initials, transitions: t }
    }

    /// The automaton that accepts what `self` or `b` accepts.
    pub fn unite(self, b: NFA<V>) -> (r: NFA<V>)
        ensures
            r@ == self@.unite(b@),
            forall|w: Seq<V>| r@.accepts(w) == (self@.accepts(w) || b@.accepts(w)),
    {
        proof {
            use_type_invariant(&self);
            use_type_invariant(&b);
        }
        let ghost ma = self@;
        let ghost mb = b@;
        let NFA { alphabet: mut alphabet, initials: mut initials, finals: mut finals, transitions: mut transitions } = self;
        let n = transitions.len();
        let blist = edge_list(&b.transitions);
        push_states(&mut transitions, b.transitions.len());
        let total = transitions.len();
        proof {
            assert(total == n + mb.size);
            assert(ma.size == n);
            assert forall|j: int| 0 <= j < blist@.len() implies (#[trigger] blist@[j]).0 + n
                < transitions@.len() && blist@[j].2 + n < transitions@.len() by {
                assert(list_has(blist@, edge_of(blist@[j])));
                assert(mb.edges.contains(edge_of(blist@[j])));
            }
        }
        add_shifted(&mut transitions, &blist, n);
        proof {
            assert forall|x: usize| b.initials@.contains(x) implies x + n <= usize::MAX by {
                assert(mb.initials.contains(x as int));
            }
            assert forall|x: usize| b.finals@.contains(x) implies x + n <= usize::MAX by {
                assert(mb.finals.contains(x as int));
            }
        }
        append_shift_hashset(&mut initials, &b.initials, n);
        append_shift_hashset(&mut finals, &b.finals, n);
        let NFA { alphabet: balphabet, initials: _, finals: _, transitions: _ } = b;
        append_hashset(&mut alphabet, balphabet);
        proof {
            let u = ma.unite(mb);
            assert forall|e: (int, V, int)| #[trigger] table_edges(transitions@).contains(e) <==> u.edges.contains(
                e,
            ) by {
                assert(unshift(e, n as int) == (e.0 - n, e.1, e.2 - n));
            }
            assert(table_edges(transitions@) =~= u.edges);
            assert forall|w: Seq<V>| u.accepts(w) == (ma.accepts(w) || mb.accepts(w)) by {
                law_unite_language(ma, mb, w);
            }
        }
        NFA { alphabet, initials, finals, transitions }
    }

    /// The automaton that accepts a word of `self` followed by a word of `b`.
    pub fn concatenate(self, b: NFA<V>) -> (r: NFA<V>)
        ensures
            r@ == self@.concatenate(b@),
            forall|w: Seq<V>| r@.accepts(w) == in_concat(self@.language(), b@.language(), w),
    {
        proof {
            use_type_invariant(&self);
            use_type_invariant(&b);
        }
        let ghost ma = self@;
        let ghost mb = b@;
        let NFA { alphabet: mut alphabet, initials, finals: mut finals, transitions: mut transitions } = self;
        let n = transitions.len();
        let blist = edge_list(&b.transitions);
        let sources = set_items(&finals);
        push_states(&mut transitions, b.transitions.len());
        let total = transitions.len();
        proof {
            assert(total == n + mb.size);
            assert(ma.size == n);
            assert forall|j: int| 0 <= j < blist@.len() implies (#[trigger] blist@[j]).0 + n
                < transitions@.len() && blist@[j].2 + n < transitions@.len() by {
                assert(list_has(blist@, edge_of(blist@[j])));
                assert(mb.edges.contains(edge_of(blist@[j])));
            }
            assert forall|k: int| 0 <= k < sources@.len() implies #[trigger] sources@[k]
                < transitions@.len() by {
                assert(sources@.contains(sources@[k]));
                assert(sources@.to_set().contains(sources@[k]));
                assert(finals@.contains(sources@[k]));
                assert(ma.finals.contains(sources@[k] as int));
            }
        }
        add_shifted(&mut transitions, &blist, n);
        let ghost shifted = transitions@;
        add_bridges(&mut transitions, &blist, &b.initials, &sources, n);
        proof {
            assert forall|x: usize| b.finals@.contains(x) implies x + n <= usize::MAX by {
                assert(mb.finals.contains(x as int));
            }
        }
        let through = sets_meet(&b.initials, &b.finals);
        let ghost old_finals = finals@;
        let ghost binitials = b.initials@;
        proof {
            assert(mb.initials == ints(b.initials@) && mb.finals == ints(b.finals@));
            assert(through == mb.accepts_nothing_read());
        }
        if !through {
            finals = HashSet::new();
        }
        append_shift_hashset(&mut finals, &b.finals, n);
        let NFA { alphabet: balphabet, initials: _, finals: _, transitions: _ } = b;
        append_hashset(&mut alphabet, balphabet);
        proof {
            let c = ma.concatenate(mb);
            assert(through == mb.accepts_nothing_read());
            assert forall|e: (int, V, int)| #[trigger] table_edges(transitions@).contains(e) <==> c.edges.contains(
                e,
            ) by {
                assert(unshift(e, n as int) == (e.0 - n, e.1, e.2 - n));
                lemma_items_hold(sources@, old_finals, e.0);
                lemma_bridge_is_first_move(blist@, binitials, mb, e.1, e.2 - n);
            }
            assert(table_edges(transitions@) =~= c.edges);
            assert(ints(Set::<usize>::empty()) =~= Set::<int>::empty());
            assert(ints(finals@) =~= c.finals);
            assert forall|w: Seq<V>| c.accepts(w) == in_concat(ma.language(), mb.language(), w) by {
                law_concatenate_language(ma, mb, ma.language(), mb.language(), w);
            }
        }
        NFA { alphabet, initials, finals, transitions }
    }
}

impl<V: Eq + Hash + Copy> NFA<V> {
    /// The automaton that accepts any number of words of `self` in a row.
    pub fn kleene(self) -> (r: NFA<V>)
        ensures
            r@ == self@.kleene(),
            forall|w: Seq<V>| r@.accepts(w) == in_star(self@.language(), w),
    {
        proof {
            use_type_invariant(&self);
        }
        let ghost m = self@;
        let NFA { alphabet, initials, finals: mut finals, transitions: mut transitions } = self;
        let n = transitions.len();
        let list = edge_list(&transitions);
        let mut sources = set_items(&finals);
        let ghost final_items = sources@;
        sources.push(n);
        push_state(&mut transitions);
        proof {
            assert forall|j: int| 0 <= j < list@.len() implies (#[trigger] list@[j]).2 + 0
                < transitions@.len() by {
                assert(list_has(list@, edge_of(list@[j])));
                assert(m.edges.contains(edge_of(list@[j])));
            }
            assert forall|k: int| 0 <= k < sources@.len() implies #[trigger] sources@[k]
                < transitions@.len() by {
                if k < final_items.len() {
                    assert(final_items.contains(final_items[k]));
                    assert(final_items.to_set().contains(final_items[k]));
                    assert(m.finals.contains(sources@[k] as int));
                }
            }
        }
        add_bridges(&mut transitions, &list, &initials, &sources, 0);
        let ghost old_initials = initials@;
        let ghost old_finals = finals@;
        let new_initials = singleton(n);
        finals.insert(n);
        proof {
            let c = m.kleene();
            assert forall|e: (int, V, int)| #[trigger]
                table_edges(transitions@).contains(e) <==> c.edges.contains(e) by {
                lemma_bridge_is_first_move(list@, old_initials, m, e.1, e.2 - 0);
                lemma_items_hold(final_items, old_finals, e.0);
                if seq_has(sources@, e.0) {
                    let j = choose|j: int| 0 <= j < sources@.len() && #[trigger] sources@[j] as int == e.0;
                    if j < final_items.len() {
                        assert(final_items[j] as int == e.0);
                    }
                }
                if seq_has(final_items, e.0) {
                    let j = choose|j: int|
                        0 <= j < final_items.len() && #[trigger] final_items[j] as int == e.0;
                    assert(sources@[j] as int == e.0);
                }
                if e.0 == n {
                    assert(sources@[final_items.len() as int] as int == e.0);
                }
            }
            assert(table_edges(transitions@) =~= c.edges);
            assert(ints(finals@) =~= c.finals);
            assert forall|w: Seq<V>| c.accepts(w) == in_star(m.language(), w) by {
                law_kleene_language(m, m.language(), w);
            }
        }
        NFA { alphabet, initials: new_initials, finals, transitions }
    }

    /// The same automaton with one more state, initial and final, so that the
    /// empty word is accepted too.
    fn with_empty_word(self) -> (r: NFA<V>)
        ensures
            r@ == self@.with_empty_word(),
    {
        proof {
            use_type_invariant(&self);
        }
        let ghost m = self@;
        let NFA { alphabet, initials: mut initials, finals: mut finals, transitions: mut transitions } = self;
        let n = transitions.len();
        push_state(&mut transitions);
        initials.insert(n);
        finals.insert(n);
        proof {
            let c = m.with_empty_word();
            assert(ints(initials@) =~= c.initials);
            assert(ints(finals@) =~= c.finals);
        }
        NFA { alphabet, initials, finals, transitions }
    }

    /// Whether some initial state is final.
    pub(crate) fn accepts_nothing_read(&self) -> (r: bool)
        ensures
            r == self@.accepts_nothing_read(),
    {
        let r = sets_meet(&self.initials, &self.finals);
        proof {
            assert(self@.initials == ints(self.initials@) && self@.finals == ints(self.finals@));
        }
        r
    }

    /// The automaton that accepts `k` words of `self` in a row.
    fn power(&self, k: usize) -> (r: NFA<V>)
        ensures
            r@ == self@.power(k as nat),
    {
        proof {
            use_type_invariant(self);
        }
        let mut acc = NFA::new_empty_word(copy_set(&self.alphabet));
        let mut i: usize = 0;
        while i < k
            invariant
                i <= k,
                acc@ == self@.power(i as nat),
            decreases k - i,
        {
            acc = acc.concatenate(self.clone());
            i += 1;
        }
        acc
    }

    /// The automaton that accepts at most `u` words of `self` in a row.
    pub fn at_most(self, u: usize) -> (r: NFA<V>)
        ensures
            r@ == self@.at_most(u as nat),
            forall|w: Seq<V>|
                r@.accepts(w) == in_power(option_lang(self@.language()), u as nat, w),
    {
        self.well_formed();
        proof {
            assert forall|w: Seq<V>|
                self@.at_most(u as nat).accepts(w) == in_power(
                    option_lang(self@.language()),
                    u as nat,
                    w,
                ) by {
                law_at_most_language(self@, self@.language(), u as nat, w);
            }
        }
        let base = if self.accepts_nothing_read() {
            self
        } else {
            self.with_empty_word()
        };
        base.power(u)
    }

    /// The automaton that accepts `u` words of `self` in a row, or more.
    pub fn at_least(self, u: usize) -> (r: NFA<V>)
        ensures
            r@ == self@.at_least(u as nat),
            forall|w: Seq<V>|
                r@.accepts(w) == in_concat(
                    power_lang(self@.language(), u as nat),
                    star_lang(self@.language()),
                    w,
                ),
    {
        self.well_formed();
        proof {
            assert forall|w: Seq<V>|
                self@.at_least(u as nat).accepts(w) == in_concat(
                    power_lang(self@.language(), u as nat),
                    star_lang(self@.language()),
                    w,
                ) by {
                law_at_least_language(self@, self@.language(), u as nat, w);
            }
        }
        let head = self.power(u);
        head.concatenate(self.kleene())
    }

    /// The automaton that accepts between `lo` and `hi` words of `self` in a
    /// row; without `hi`, `lo` words or more. Where `hi` is below `lo` it
    /// accepts nothing.
    pub fn repeat(self, lo: usize, hi: Option<usize>) -> (r: NFA<V>)
        ensures
            r@ == self@.repeat(lo as nat, bound_of(hi)),
            forall|w: Seq<V>|
                r@.accepts(w) == in_repeat(self@.language(), lo as nat, bound_of(hi), w),
    {
        self.well_formed();
        proof {
            assert forall|w: Seq<V>|
                self@.repeat(lo as nat, bound_of(hi)).accepts(w) == in_repeat(
                    self@.language(),
                    lo as nat,
                    bound_of(hi),
                    w,
                ) by {
                law_repeat_language(self@, self@.language(), lo as nat, bound_of(hi), w);
            }
        }
        match hi {
            Some(h) => {
                if h < lo {
                    let alphabet = self.alphabet();
                    proof {
                        use_type_invariant(&self);
                    }
                    NFA::new_empty(alphabet)
                } else {
                    let head = self.power(lo);
                    head.concatenate(self.at_most(h - lo))
                }
            },
            None => self.at_least(lo),
        }
    }

    /// Whether there is an initial state and every state has a successor for
    /// every symbol of the alphabet.
    pub fn is_complete(&self) -> (r: bool)
        ensures
            r == self@.is_complete(),
    {
        proof {
            use_type_invariant(self);
        }
        let ghost m = self@;
        if has_no_member(&self.initials) {
            return false;
        }
        proof {
            assert(m.initials == ints(self.initials@));
            let x = choose|x: int| ints(self.initials@).contains(x);
            assert(m.initials.contains(x));
        }
        let symbols = set_items(&self.alphabet);
        let n = self.transitions.len();
        let mut p: usize = 0;
        while p < n
            invariant
                obeys_key_model::<V>(),
                m == self@,
                n == self.transitions@.len(),
                p <= n,
                symbols@.to_set() == self.alphabet@,
                forall|origin: int, v: V|
                    0 <= origin < p && m.alphabet.contains(v) ==> #[trigger] m.has_successor(origin, v),
            decreases n - p,
        {
            let mut i: usize = 0;
            while i < symbols.len()
                invariant
                    obeys_key_model::<V>(),
                    m == self@,
                    n == self.transitions@.len(),
                    p < n,
                    i <= symbols@.len(),
                    symbols@.to_set() == self.alphabet@,
                    forall|j: int| 0 <= j < i ==> m.has_successor(p as int, #[trigger] symbols@[j]),
                decreases symbols@.len() - i,
            {
                if !has_target(&self.transitions, p, &symbols[i]) {
                    proof {
                        let v = symbols@[i as int];
                        assert(symbols@.contains(v));
                        assert(symbols@.to_set().contains(v));
                        assert(m.alphabet.contains(v));
                        assert(!m.has_successor(p as int, v));
                    }
                    return false;
                }
                proof {
                    let v = symbols@[i as int];
                    let q = choose|q: int| #[trigger]
                        table_edges(self.transitions@).contains((p as int, v, q));
                    assert(m.edges.contains((p as int, v, q)));
                    assert(m.has_successor(p as int, v));
                }
                i += 1;
            }
            proof {
                assert forall|origin: int, v: V|
                    0 <= origin < p + 1 && m.alphabet.contains(v) implies #[trigger] m.has_successor(
                    origin,
                    v,
                ) by {
                    if origin == p {
                        assert(symbols@.to_set().contains(v));
                        assert(symbols@.contains(v));
                        let j = choose|j: int| 0 <= j < symbols@.len() && symbols@[j] == v;
                        assert(m.has_successor(p as int, symbols@[j]));
                    }
                }
            }
            p += 1;
        }
        true
    }

    /// The same language with a successor everywhere: unless the automaton is
    /// complete already, a sink state takes every missing edge, and becomes
    /// the initial state where there was none.
    pub fn complete(self) -> (r: NFA<V>)
        ensures
            r@ == self@.complete(),
            r@.is_complete(),
            forall|w: Seq<V>| r@.accepts(w) == self@.accepts(w),
    {
        proof {
            use_type_invariant(&self);
            crate::pruning::lemma_complete_wf(self@);
            assert forall|w: Seq<V>| self@.complete().accepts(w) == self@.accepts(w) by {
                crate::pruning::law_complete_language(self@, w);
            }
        }
        if self.is_complete() {
            return self;
        }
        let ghost m = self@;
        let NFA { alphabet, initials: mut initials, finals, transitions: mut transitions } = self;
        let n = transitions.len();
        push_state(&mut transitions);
        let total = transitions.len();
        let symbols = set_items(&alphabet);
        let mut p: usize = 0;
        while p <= n
            invariant
                obeys_key_model::<V>(),
                m.wf(),
                m.size == n,
                n + 1 == transitions@.len() == total,
                symbols@.no_duplicates(),
                p <= n + 1,
                forall|e: (int, V, int)| #[trigger]
                    table_edges(transitions@).contains(e) <==> m.edges.contains(e) || (0 <= e.0 < p
                        && e.2 == n && symbols@.contains(e.1) && !m.has_successor(e.0, e.1)),
            decreases n + 1 - p,
        {
            let mut i: usize = 0;
            while i < symbols.len()
                invariant
                    obeys_key_model::<V>(),
                    m.wf(),
                    m.size == n,
                    n + 1 == transitions@.len(),
                    symbols@.no_duplicates(),
                    p <= n,
                    i <= symbols@.len(),
                    forall|e: (int, V, int)| #[trigger]
                        table_edges(transitions@).contains(e) <==> m.edges.contains(e) || (0 <= e.0
                            < p && e.2 == n && symbols@.contains(e.1) && !m.has_successor(e.0, e.1))
                            || (e.0 == p && e.2 == n && (exists|j: int|
                            0 <= j < i && symbols@[j] == e.1) && !m.has_successor(e.0, e.1)),
                decreases symbols@.len() - i,
            {
                let v = symbols[i];
                let ghost before = transitions@;
                let found = has_target(&transitions, p, &v);
                proof {
                    if found {
                        let q = choose|q: int| #[trigger]
                            table_edges(transitions@).contains((p as int, v, q));
                        if !m.edges.contains((p as int, v, q)) {
                            let j = choose|j: int| 0 <= j < i && symbols@[j] == v;
                            assert(symbols@.no_duplicates());
                        }
                        assert(m.has_successor(p as int, v));
                    } else {
                        assert forall|q: int| !#[trigger] m.edges.contains((p as int, v, q)) by {
                            if m.edges.contains((p as int, v, q)) {
                                assert(table_edges(transitions@).contains((p as int, v, q)));
                            }
                        }
                    }
                }
                if !found {
                    add_edge(&mut transitions, p, v, n);
                }
                proof {
                    assert forall|e: (int, V, int)| #[trigger]
                        table_edges(transitions@).contains(e) <==> m.edges.contains(e) || (0 <= e.0
                            < p && e.2 == n && symbols@.contains(e.1) && !m.has_successor(e.0, e.1))
                            || (e.0 == p && e.2 == n && (exists|j: int|
                            0 <= j < i + 1 && symbols@[j] == e.1) && !m.has_successor(
                            e.0,
                            e.1,
                        )) by {
                        assert(table_edges(before).contains(e) <==> m.edges.contains(e) || (0 <= e.0
                            < p && e.2 == n && symbols@.contains(e.1) && !m.has_successor(e.0, e.1))
                            || (e.0 == p && e.2 == n && (exists|j: int|
                            0 <= j < i && symbols@[j] == e.1) && !m.has_successor(e.0, e.1)));
                        if exists|j: int| 0 <= j < i + 1 && symbols@[j] == e.1 {
                            let j = choose|j: int| 0 <= j < i + 1 && symbols@[j] == e.1;
                            if j < i {
                                assert(exists|j: int| 0 <= j < i && symbols@[j] == e.1);
                            }
                        }
                    }
                }
                i += 1;
            }
            proof {
                assert forall|e: (int, V, int)| #[trigger]
                    table_edges(transitions@).contains(e) <==> m.edges.contains(e) || (0 <= e.0 < p
                        + 1 && e.2 == n && symbols@.contains(e.1) && !m.has_successor(
                        e.0,
                        e.1,
                    )) by {
                    if e.0 == p && symbols@.contains(e.1) {
                        let j = choose|j: int| 0 <= j < symbols@.len() && symbols@[j] == e.1;
                        assert(0 <= j < i && symbols@[j] == e.1);
                    }
                }
            }
            p += 1;
        }
        let ghost old_initials = initials@;
        let none = has_no_member(&initials);
        if none {
            initials.insert(n);
        }
        proof {
            let c = m.complete();
            assert(!m.is_complete());
            assert forall|e: (int, V, int)| #[trigger]
                table_edges(transitions@).contains(e) <==> c.edges.contains(e) by {
                assert(symbols@.to_set().contains(e.1) <==> symbols@.contains(e.1));
            }
            assert(table_edges(transitions@) =~= c.edges);
            assert(m.initials == ints(old_initials));
            if none {
                assert(ints(initials@) =~= set![n as int]);
            }
            assert(ints(initials@) =~= c.initials);
        }
        NFA { alphabet, initials, finals, transitions }
    }
}

impl<V: Eq + Hash + Copy> Clone for NFA<V> {
    fn clone(&self) -> (r: Self)
        ensures
            r@ == self@,
    {
        proof {
            use_type_invariant(self);
        }
        NFA {
            alphabet: copy_set(&self.alphabet),
            initials: copy_set(&self.initials),
            finals: copy_set(&self.finals),
            transitions: copy_table(&self.transitions),
        }
    }
}

impl<V: Eq + Hash + Copy> ToNfa<V> for NFA<V> {
    open spec fn as_nfa(&self) -> NfaModel<V> {
        self@
    }

    /// A copy of the automaton.
    fn to_nfa(&self) -> (r: NFA<V>) {
        self.clone()
    }
}

} // verus!
