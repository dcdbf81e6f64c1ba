//! Deterministic finite automata.

use std::collections::{HashMap, HashSet};
use std::hash::Hash;
use vstd::prelude::*;
use vstd::std_specs::hash::obeys_key_model;

use crate::lemmas::lemma_run_prefix_none;
use crate::model::{word_over, DfaModel, NfaModel};
use crate::nfa::{ToNfa, NFA};
use crate::table::{add_edge, empty_table, table_edges};
use crate::utils::{copy_set, ints, map_keys, set_items, singleton};

verus! {

broadcast use vstd::std_specs::hash::group_hash_axioms;

/// A deterministic automaton over the symbols `V`: one initial state, and at
/// most one successor of a state for a symbol.
pub struct DFA<V: Eq + Hash + Copy> {
    pub(crate) alphabet: HashSet<V>,
    pub(crate) initial: usize,
    pub(crate) finals: HashSet<usize>,
    pub(crate) transitions: Vec<HashMap<V, usize>>,
}

/// Something that can be turned into a deterministic automaton.
pub trait ToDfa<V: Eq + Hash + Copy> {
    /// The values on which the conversion is defined.
    spec fn determinizable(&self) -> bool;

    /// What the conversion promises of its result.
    spec fn determinized(&self, d: DfaModel<V>) -> bool;

    fn to_dfa(&self) -> (r: DFA<V>)
        requires
            self.determinizable(),
        ensures
            self.determinized(r@),
    ;
}

/// The transition function that a table of per-state maps stands for.
pub open spec fn trans_of<V>(t: Seq<HashMap<V, usize>>) -> Map<(int, V), int> {
    Map::new(
        |k: (int, V)| 0 <= k.0 < t.len() && t[k.0]@.contains_key(k.1),
        |k: (int, V)| t[k.0]@[k.1] as int,
    )
}

/// The model that the four parts of an automaton stand for.
pub open spec fn dfa_model_of<V>(
    alphabet: Set<V>,
    initial: usize,
    finals: Set<usize>,
    transitions: Seq<HashMap<V, usize>>,
) -> DfaModel<V> {
    DfaModel {
        alphabet,
        size: transitions.len(),
        initial: initial as int,
        finals: ints(finals),
        trans: trans_of(transitions),
    }
}

/// Sets the successor of state `p` for the symbol `v` to `q`.
pub(crate) fn set_trans<V: Eq + Hash + Copy>(
    t: &mut Vec<HashMap<V, usize>>,
    p: usize,
    v: V,
    q: usize,
)
    requires
        obeys_key_model::<V>(),
        p < old(t)@.len(),
    ensures
        final(t)@.len() == old(t)@.len(),
        trans_of(final(t)@) == trans_of(old(t)@).insert((p as int, v), q as int),
{
    let ghost before = t@;
    t[p].insert(v, q);
    proof {
        let want = trans_of(before).insert((p as int, v), q as int);
        assert forall|k: (int, V)| trans_of(t@).contains_key(k) <==> want.contains_key(k) by {
            if 0 <= k.0 < t@.len() && k.0 != p {
                assert(t@[k.0] == before[k.0]);
            }
        }
        assert forall|k: (int, V)| trans_of(t@).contains_key(k) implies trans_of(t@)[k] == want[k] by {
            if 0 <= k.0 < t@.len() && k.0 != p {
                assert(t@[k.0] == before[k.0]);
            }
        }
        assert(trans_of(t@) =~= want);
    }
}

/// A table of one state without transitions.
pub(crate) fn one_state<V: Eq + Hash + Copy>() -> (t: Vec<HashMap<V, usize>>)
    ensures
        t@.len() == 1,
        trans_of(t@) == Map::<(int, V), int>::empty(),
{
    let mut t: Vec<HashMap<V, usize>> = Vec::new();
    t.push(HashMap::new());
    assert(trans_of(t@) =~= Map::<(int, V), int>::empty());
    t
}

/// Adds a state without transitions at the end of the table.
pub(crate) fn push_dfa_state<V: Eq + Hash + Copy>(t: &mut Vec<HashMap<V, usize>>)
    ensures
        final(t)@.len() == old(t)@.len() + 1,
        trans_of(final(t)@) == trans_of(old(t)@),
{
    t.push(HashMap::new());
    assert(trans_of(t@) =~= trans_of(old(t)@));
}

/// A table with the same transitions.
fn copy_dfa_table<V: Eq + Hash + Copy>(t: &Vec<HashMap<V, usize>>) -> (r: Vec<HashMap<V, usize>>)
    ensures
        r@.len() == t@.len(),
        trans_of(r@) == trans_of(t@),
{
    let mut r: Vec<HashMap<V, usize>> = Vec::new();
    let mut p: usize = 0;
    while p < t.len()
        invariant
            p <= t@.len(),
            r@.len() == p,
            forall|x: int| 0 <= x < p ==> (#[trigger] r@[x])@ == t@[x]@,
        decreases t@.len() - p,
    {
        r.push(t[p].clone());
        p += 1;
    }
    assert(trans_of(r@) =~= trans_of(t@));
    r
}

impl<V: Eq + Hash + Copy> DFA<V> {
    /// The mathematical automaton that this value represents.
    pub open(crate) spec fn view(&self) -> DfaModel<V> {
        dfa_model_of(self.alphabet@, self.initial, self.finals@, self.transitions@)
    }

    /// What holds of every value: the symbols hash consistently, the
    /// automaton is well formed, and its transitions carry symbols of its
    /// alphabet only.
    #[verifier::type_invariant]
    pub open(crate) spec fn inv(&self) -> bool {
        obeys_key_model::<V>() && self.view().wf() && self.view().proper()
    }

    /// States what holds of every automaton: it is well formed, its
    /// transitions carry symbols of its alphabet only, so that it accepts
    /// words over its alphabet only, and its symbols hash consistently. Does
    /// nothing when run.
    pub fn well_formed(&self)
        ensures
            self@.wf(),
            self@.proper(),
            forall|w: Seq<V>| #[trigger] self@.accepts(w) ==> word_over(w, self@.alphabet),
            obeys_key_model::<V>(),
    {
        proof {
            use_type_invariant(self);
            assert forall|w: Seq<V>| #[trigger] self@.accepts(w) implies word_over(
                w,
                self@.alphabet,
            ) by {
                if !word_over(w, self@.alphabet) {
                    crate::laws::lemma_proper_run(self@, self@.initial, w);
                }
            }
        }
    }

    /// Builds an automaton from its four parts.
    pub(crate) fn from_parts(
        alphabet: HashSet<V>,
        initial: usize,
        finals: HashSet<usize>,
        transitions: Vec<HashMap<V, usize>>,
    ) -> (r: DFA<V>)
        requires
            obeys_key_model::<V>(),
            dfa_model_of(alphabet@, initial, finals@, transitions@).wf(),
            dfa_model_of(alphabet@, initial, finals@, transitions@).proper(),
        ensures
            r@ == dfa_model_of(alphabet@, initial, finals@, transitions@),
    {
        DFA { alphabet, initial, finals, transitions }
    }

    /// The automaton with one state that accepts nothing.
    pub fn new_empty(alphabet: &HashSet<V>) -> (r: DFA<V>)
        requires
            obeys_key_model::<V>(),
        ensures
            r@ == DfaModel::empty(alphabet@),
            forall|w: Seq<V>| !r@.accepts(w),
    {
        let finals: HashSet<usize> = HashSet::new();
        assert(ints(finals@) =~= Set::<int>::empty());
        proof {
            assert forall|w: Seq<V>| !DfaModel::empty(alphabet@).accepts(w) by {
                if w.len() > 0 {
                    crate::laws::lemma_empty_dfa_run(alphabet@, w);
                }
            }
        }
        DFA { alphabet: copy_set(alphabet), initial: 0, finals, transitions: one_state() }
    }

    /// A copy of the alphabet.
    pub fn alphabet(&self) -> (r: HashSet<V>)
        ensures
            r@ == self@.alphabet,
    {
        proof {
            use_type_invariant(self);
        }
        copy_set(&self.alphabet)
    }

    /// The number of states.
    pub fn size(&self) -> (r: usize)
        ensures
            r == self@.size,
    {
        self.transitions.len()
    }

    /// Whether the automaton accepts the word `v`.
    pub fn run(&self, v: &Vec<V>) -> (r: bool)
        ensures
            r == self@.accepts(v@),
    {
        proof {
            use_type_invariant(self);
        }
        let ghost m = self@;
        let mut actual = self.initial;
        let mut i: usize = 0;
        assert(v@.take(0) =~= Seq::<V>::empty());
        while i < v.len()
            invariant
                obeys_key_model::<V>(),
                m == self@,
                m.wf(),
                i <= v@.len(),
                actual < self.transitions@.len(),
                m.run_from(m.initial, v@.take(i as int)) == Some(actual as int),
            decreases v@.len() - i,
        {
            proof {
                assert(v@.take(i + 1).drop_last() =~= v@.take(i as int));
                assert(v@.take(i + 1).last() == v@[i as int]);
            }
            match self.transitions[actual].get(&v[i]) {
                Some(t) => {
                    proof {
                        assert(m.trans.contains_key((actual as int, v@[i as int])));
                        assert(m.trans[(actual as int, v@[i as int])] == *t as int);
                    }
                    actual = *t;
                },
                None => {
                    proof {
                        assert(!m.trans.contains_key((actual as int, v@[i as int])));
                        lemma_run_prefix_none(m, m.initial, v@, i + 1);
                    }
                    return false;
                },
            }
            i += 1;
        }
        assert(v@.take(v@.len() as int) =~= v@);
        self.finals.contains(&actual)
    }

    /// Whether every state has a successor for every symbol of the alphabet.
    pub fn is_complete(&self) -> (r: bool)
        ensures
            r == self@.is_complete(),
    {
        proof {
            use_type_invariant(self);
        }
        let ghost m = self@;
        let symbols = set_items(&self.alphabet);
        let n = self.transitions.len();
        let mut p: usize = 0;
        while p < n
            invariant
                obeys_key_model::<V>(),
                m == self@,
                n == self.transitions@.len(),
                p <= n,
                symbols@.to_set() == self.alphabet@,
                forall|origin: int, v: V|
                    0 <= origin < p && m.alphabet.contains(v) ==> #[trigger] m.trans.contains_key((origin, v)),
            decreases n - p,
        {
            let mut i: usize = 0;
            while i < symbols.len()
                invariant
                    obeys_key_model::<V>(),
                    m == self@,
                    n == self.transitions@.len(),
                    p < n,
                    i <= symbols@.len(),
                    symbols@.to_set() == self.alphabet@,
                    forall|j: int|
                        0 <= j < i ==> m.trans.contains_key((p as int, #[trigger] symbols@[j])),
                decreases symbols@.len() - i,
            {
                if !self.transitions[p].contains_key(&symbols[i]) {
                    proof {
                        let v = symbols@[i as int];
                        assert(symbols@.contains(v));
                        assert(symbols@.to_set().contains(v));
                        assert(m.alphabet.contains(v));
                        assert(!m.trans.contains_key((p as int, v)));
                    }
                    return false;
                }
                i += 1;
            }
            proof {
                assert forall|origin: int, v: V|
                    0 <= origin < p + 1 && m.alphabet.contains(v) implies #[trigger] m.trans.contains_key(
                    (origin, v),
                ) by {
                    if origin == p {
                        assert(symbols@.to_set().contains(v));
                        assert(symbols@.contains(v));
                        let j = choose|j: int| 0 <= j < symbols@.len() && symbols@[j] == v;
                        assert(m.trans.contains_key((p as int, symbols@[j])));
                    }
                }
            }
            p += 1;
        }
        true
    }

    /// The same language with a successor everywhere: unless the automaton is
    /// complete already, a sink state takes every missing transition.
    pub fn complete(self) -> (r: DFA<V>)
        ensures
            r@ == self@.complete(),
            r@.is_complete(),
            forall|w: Seq<V>| r@.accepts(w) == self@.accepts(w),
    {
        proof {
            use_type_invariant(&self);
            crate::laws::lemma_complete_wf(self@);
            assert forall|w: Seq<V>| self@.complete().accepts(w) == self@.accepts(w) by {
                crate::laws::law_complete_language(self@, w);
            }
        }
        if self.is_complete() {
            return self;
        }
        let ghost m = self@;
        let DFA { alphabet, initial, finals, transitions: mut transitions } = self;
        let n = transitions.len();
        push_dfa_state(&mut transitions);
        let total = transitions.len();
        let symbols = set_items(&alphabet);
        let mut p: usize = 0;
        while p <= n
            invariant
                obeys_key_model::<V>(),
                m.wf(),
                m.size == n,
                n + 1 == transitions@.len() == total,
                p <= n + 1,
                forall|k: (int, V)|
                    #![trigger trans_of(transitions@).contains_key(k)]
                    trans_of(transitions@).contains_key(k) <==> m.trans.contains_key(k) || (0 <= k.0
                        < p && symbols@.contains(k.1)),
                forall|k: (int, V)|
                    #![trigger trans_of(transitions@).contains_key(k)]
                    trans_of(transitions@).contains_key(k) ==> trans_of(transitions@)[k] == if m.trans.contains_key(
                        k,
                    ) {
                        m.trans[k]
                    } else {
                        n as int
                    },
            decreases n + 1 - p,
        {
            let mut i: usize = 0;
            while i < symbols.len()
                invariant
                    obeys_key_model::<V>(),
                    m.wf(),
                    m.size == n,
                    n + 1 == transitions@.len(),
                    p <= n,
                    i <= symbols@.len(),
                    forall|k: (int, V)|
                        #![trigger trans_of(transitions@).contains_key(k)]
                        trans_of(transitions@).contains_key(k) <==> m.trans.contains_key(k) || (0
                            <= k.0 < p && symbols@.contains(k.1)) || (k.0 == p && exists|j: int|
                            0 <= j < i && symbols@[j] == k.1),
                    forall|k: (int, V)|
                        #![trigger trans_of(transitions@).contains_key(k)]
                        trans_of(transitions@).contains_key(k) ==> trans_of(transitions@)[k] == if m.trans.contains_key(
                            k,
                        ) {
                            m.trans[k]
                        } else {
                            n as int
                        },
                decreases symbols@.len() - i,
            {
                let v = symbols[i];
                let ghost before = transitions@;
                let present = transitions[p].contains_key(&v);
                proof {
                    assert(present == trans_of(before).contains_key((p as int, v)));
                }
                if !present {
                    set_trans(&mut transitions, p, v, n);
                }
                proof {
                    assert forall|k: (int, V)|
                        #![trigger trans_of(transitions@).contains_key(k)]
                        trans_of(transitions@).contains_key(k) <==> m.trans.contains_key(k) || (0
                            <= k.0 < p && symbols@.contains(k.1)) || (k.0 == p && exists|j: int|
                            0 <= j < i + 1 && symbols@[j] == k.1) by {
                        assert(trans_of(before).contains_key(k) <==> m.trans.contains_key(k) || (0
                            <= k.0 < p && symbols@.contains(k.1)) || (k.0 == p && exists|j: int|
                            0 <= j < i && symbols@[j] == k.1));
                        if k.0 == p && exists|j: int| 0 <= j < i + 1 && symbols@[j] == k.1 {
                            let j = choose|j: int| 0 <= j < i + 1 && symbols@[j] == k.1;
                            if j < i {
                                assert(exists|j: int| 0 <= j < i && symbols@[j] == k.1);
                            }
                        }
                        if k == (p as int, v) {
                            assert(symbols@[i as int] == k.1);
                        }
                    }
                    assert forall|k: (int, V)|
                        #![trigger trans_of(transitions@).contains_key(k)]
                        trans_of(transitions@).contains_key(k) implies trans_of(transitions@)[k]
                        == if m.trans.contains_key(k) {
                        m.trans[k]
                    } else {
                        n as int
                    } by {
                        if k != (p as int, v) || present {
                            assert(trans_of(before).contains_key(k));
                        } else {
                            if m.trans.contains_key(k) {
                                assert(trans_of(before).contains_key(k));
                            }
                        }
                    }
                }
                i += 1;
            }
            proof {
                assert forall|k: (int, V)|
                    #![trigger trans_of(transitions@).contains_key(k)]
                    trans_of(transitions@).contains_key(k) <==> m.trans.contains_key(k) || (0 <= k.0
                        < p + 1 && symbols@.contains(k.1)) by {
                    if k.0 == p && symbols@.contains(k.1) {
                        let j = choose|j: int| 0 <= j < symbols@.len() && symbols@[j] == k.1;
                        assert(0 <= j < i && symbols@[j] == k.1);
                    }
                }
            }
            p += 1;
        }
        proof {
            let c = m.complete();
            assert(!m.is_complete());
            assert forall|k: (int, V)| trans_of(transitions@).contains_key(k) <==> c.trans.contains_key(
                k,
            ) by {
                assert(symbols@.to_set().contains(k.1) <==> symbols@.contains(k.1));
            }
            assert(trans_of(transitions@) =~= c.trans);
        }
        DFA { alphabet, initial, finals, transitions }
    }

    /// The complement over the alphabet: the automaton is completed, then
    /// final and non-final states are exchanged.
    pub fn negate(self) -> (r: DFA<V>)
        ensures
            r@ == self@.negate(),
            forall|w: Seq<V>| r@.accepts(w) == (word_over(w, self@.alphabet) && !self@.accepts(w)),
    {
        proof {
            use_type_invariant(&self);
            crate::laws::lemma_negate_wf(self@);
            assert forall|w: Seq<V>|
                self@.negate().accepts(w) == (word_over(w, self@.alphabet) && !self@.accepts(w)) by {
                if word_over(w, self@.alphabet) {
                    crate::laws::law_negate_language(self@, w);
                } else {
                    crate::laws::lemma_proper_run(self@.negate(), self@.negate().initial, w);
                }
            }
        }
        let c = self.complete();
        proof {
            use_type_invariant(&c);
        }
        let ghost m = c@;
        let DFA { alphabet, initial, finals, transitions } = c;
        let n = transitions.len();
        let mut flipped: HashSet<usize> = HashSet::new();
        let mut q: usize = 0;
        while q < n
            invariant
                q <= n,
                forall|x: usize| flipped@.contains(x) <==> x < q && !finals@.contains(x),
            decreases n - q,
        {
            if !finals.contains(&q) {
                flipped.insert(q);
            }
            q += 1;
        }
        proof {
            let want = Set::new(|q: int| 0 <= q < m.size && !m.finals.contains(q));
            assert(m == dfa_model_of(alphabet@, initial, finals@, transitions@));
            assert(m.wf());
            assert(ints(flipped@) =~= want);
            let r = dfa_model_of(alphabet@, initial, flipped@, transitions@);
            assert(r.trans == m.trans);
            assert(0 <= r.initial < r.size);
            assert forall|q: int| #[trigger] r.finals.contains(q) implies 0 <= q < r.size by {}
            assert forall|p: int, v: V| #[trigger] r.trans.contains_key((p, v)) implies 0 <= p
                < r.size && 0 <= r.trans[(p, v)] < r.size by {
                assert(m.trans.contains_key((p, v)));
            }
            assert(r.wf());
        }
        DFA { alphabet, initial, finals: flipped, transitions }
    }
}

impl<V: Eq + Hash + Copy> Clone for DFA<V> {
    fn clone(&self) -> (r: Self)
        ensures
            r@ == self@,
    {
        proof {
            use_type_invariant(self);
        }
        DFA {
            alphabet: copy_set(&self.alphabet),
            initial: self.initial,
            finals: copy_set(&self.finals),
            transitions: copy_dfa_table(&self.transitions),
        }
    }
}

impl<V: Eq + Hash + Copy> ToDfa<V> for DFA<V> {
    open spec fn determinizable(&self) -> bool {
        true
    }

    open spec fn determinized(&self, d: DfaModel<V>) -> bool {
        d == self@
    }

    /// A copy of the automaton.
    fn to_dfa(&self) -> (r: DFA<V>) {
        self.clone()
    }
}

impl<V: Eq + Hash + Copy> ToNfa<V> for DFA<V> {
    open spec fn as_nfa(&self) -> NfaModel<V> {
        self@.to_nfa()
    }

    /// The same automaton as a non-deterministic one.
    fn to_nfa(&self) -> (r: NFA<V>)
        ensures
            r@.proper(),
            forall|w: Seq<V>| r@.accepts(w) == self@.accepts(w),
    {
        proof {
            use_type_invariant(self);
            crate::laws::lemma_to_nfa_wf(self@);
            assert forall|w: Seq<V>| self@.to_nfa().accepts(w) == self@.accepts(w) by {
                crate::laws::law_to_nfa_language(self@, w);
            }
        }
        let ghost m = self@;
        let n = self.transitions.len();
        let mut t: Vec<HashMap<V, Vec<usize>>> = empty_table(n);
        let mut p: usize = 0;
        while p < n
            invariant
                obeys_key_model::<V>(),
                m == self@,
                m.wf(),
                n == self.transitions@.len() == t@.len(),
                p <= n,
                forall|e: (int, V, int)| #[trigger]
                    table_edges(t@).contains(e) <==> e.0 < p && m.trans.contains_key((e.0, e.1))
                        && m.trans[(e.0, e.1)] == e.2,
            decreases n - p,
        {
            let keys = map_keys(&self.transitions[p]);
            let mut ki: usize = 0;
            while ki < keys.len()
                invariant
                    obeys_key_model::<V>(),
                    m == self@,
                    m.wf(),
                    n == self.transitions@.len() == t@.len(),
                    p < n,
                    ki <= keys@.len(),
                    keys@.to_set() == self.transitions@[p as int]@.dom(),
                    forall|e: (int, V, int)| #[trigger]
                        table_edges(t@).contains(e) <==> m.trans.contains_key((e.0, e.1))
                            && m.trans[(e.0, e.1)] == e.2 && (e.0 < p || (e.0 == p && exists|kj: int|
                            0 <= kj < ki && keys@[kj] == e.1)),
                decreases keys@.len() - ki,
            {
                let k = keys[ki];
                proof {
                    assert(keys@.contains(keys@[ki as int]));
                    assert(keys@.to_set().contains(k));
                }
                match self.transitions[p].get(&k) {
                    None => {
                        assert(false);
                    },
                    Some(target) => {
                        let ghost before = t@;
                        proof {
                            assert(m.trans.contains_key((p as int, k)));
                            assert(m.trans[(p as int, k)] == *target as int);
                        }
                        add_edge(&mut t, p, k, *target);
                        proof {
                            assert forall|e: (int, V, int)| #[trigger]
                                table_edges(t@).contains(e) <==> m.trans.contains_key((e.0, e.1))
                                    && m.trans[(e.0, e.1)] == e.2 && (e.0 < p || (e.0 == p && exists|
                                    kj: int,
                                | 0 <= kj < ki + 1 && keys@[kj] == e.1)) by {
                                assert(table_edges(before).contains(e) <==> m.trans.contains_key(
                                    (e.0, e.1),
                                ) && m.trans[(e.0, e.1)] == e.2 && (e.0 < p || (e.0 == p && exists|
                                    kj: int,
                                | 0 <= kj < ki && keys@[kj] == e.1)));
                                if e.0 == p && exists|kj: int| 0 <= kj < ki + 1 && keys@[kj] == e.1 {
                                    let kj = choose|kj: int| 0 <= kj < ki + 1 && keys@[kj] == e.1;
                                    if kj < ki {
                                        assert(exists|kj: int| 0 <= kj < ki && keys@[kj] == e.1);
                                    }
                                }
                                if e == (p as int, k, *target as int) {
                                    assert(keys@[ki as int] == e.1);
                                }
                            }
                        }
                    },
                }
                ki += 1;
            }
            proof {
                assert forall|e: (int, V, int)| #[trigger]
                    table_edges(t@).contains(e) <==> e.0 < p + 1 && m.trans.contains_key((e.0, e.1))
                        && m.trans[(e.0, e.1)] == e.2 by {
                    if e.0 == p && m.trans.contains_key((e.0, e.1)) {
                        assert(keys@.to_set().contains(e.1));
                        assert(keys@.contains(e.1));
                        let kj = choose|kj: int| 0 <= kj < keys@.len() && keys@[kj] == e.1;
                        assert(0 <= kj < ki && keys@[kj] == e.1);
                    }
                }
            }
            p += 1;
        }
        let initials = singleton(self.initial);
        let finals = copy_set(&self.finals);
        let alphabet = copy_set(&self.alphabet);
        proof {
            assert(table_edges(t@) =~= m.to_nfa().edges);
        }
        NFA::from_parts(alphabet, initials, finals, t)
    }
}

} // verus!
