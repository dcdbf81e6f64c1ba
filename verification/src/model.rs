//! Mathematical models of finite automata.
//!
//! An automaton is described by plain sets and maps over `int` state numbers.
//! The executable types in the sibling modules expose these models as their
//! views, and every contract in the crate is phrased over them.

use vstd::prelude::*;

verus! {

/// A non-deterministic automaton: states `0..size`, a set of initial states,
/// a set of final states and a set of labelled edges `(source, symbol, target)`.
#[verifier::reject_recursive_types(V)]
pub struct NfaModel<V> {
    pub alphabet: Set<V>,
    pub size: nat,
    pub initials: Set<int>,
    pub finals: Set<int>,
    pub edges: Set<(int, V, int)>,
}

/// A deterministic automaton: states `0..size`, one initial state and a
/// partial transition function keyed by `(state, symbol)`.
#[verifier::reject_recursive_types(V)]
pub struct DfaModel<V> {
    pub alphabet: Set<V>,
    pub size: nat,
    pub initial: int,
    pub finals: Set<int>,
    pub trans: Map<(int, V), int>,
}

/// Every symbol of `w` belongs to `alphabet`.
pub open spec fn word_over<V>(w: Seq<V>, alphabet: Set<V>) -> bool {
    forall|i: int| 0 <= i < w.len() ==> alphabet.contains(#[trigger] w[i])
}

/// An optional machine-sized bound as an optional natural number.
pub open spec fn bound_of(hi: Option<usize>) -> Option<nat> {
    match hi {
        Some(h) => Some(h as nat),
        None => None,
    }
}

/// The set has a member.
pub open spec fn inhabited(s: Set<int>) -> bool {
    exists|q: int| s.contains(q)
}

/// The two sets share a member.
pub open spec fn meet(a: Set<int>, b: Set<int>) -> bool {
    exists|q: int| a.contains(q) && b.contains(q)
}

/// The set `{ q + k | q in s }`.
pub open spec fn shift_set(s: Set<int>, k: int) -> Set<int> {
    Set::new(|q: int| s.contains(q - k))
}

/// State `order[k]` is the target of an edge that leaves a state listed
/// before it.
pub open spec fn found_from_earlier<V>(m: NfaModel<V>, order: Seq<int>, k: int) -> bool {
    exists|j: int, v: V| 0 <= j < k && #[trigger] m.edges.contains((order[j], v, order[k]))
}

impl<V> NfaModel<V> {
    /// Every state mentioned anywhere is a state of the automaton.
    pub open spec fn wf(self) -> bool {
        &&& forall|q: int| #[trigger] self.initials.contains(q) ==> 0 <= q < self.size
        &&& forall|q: int| #[trigger] self.finals.contains(q) ==> 0 <= q < self.size
        &&& forall|p: int, v: V, q: int| #[trigger]
            self.edges.contains((p, v, q)) ==> 0 <= p < self.size && 0 <= q < self.size
    }

    /// Every edge is labelled with a symbol of the alphabet.
    pub open spec fn proper(self) -> bool {
        forall|p: int, v: V, q: int| #[trigger]
            self.edges.contains((p, v, q)) ==> self.alphabet.contains(v)
    }

    /// States reached from some state of `s` by one edge labelled `v`.
    pub open spec fn step(self, s: Set<int>, v: V) -> Set<int> {
        Set::new(|q: int| exists|p: int| s.contains(p) && #[trigger] self.edges.contains((p, v, q)))
    }

    /// States reached from some state of `s` by reading `w`.
    pub open spec fn reach(self, s: Set<int>, w: Seq<V>) -> Set<int>
        decreases w.len(),
    {
        if w.len() == 0 {
            s
        } else {
            self.step(self.reach(s, w.drop_last()), w.last())
        }
    }

    /// The automaton accepts `w`: reading `w` from the initial states can end
    /// in a final state.
    pub open spec fn accepts(self, w: Seq<V>) -> bool {
        exists|q: int| #[trigger] self.reach(self.initials, w).contains(q) && self.finals.contains(q)
    }

    /// The words that the automaton accepts.
    pub open spec fn language(self) -> spec_fn(Seq<V>) -> bool {
        |w: Seq<V>| self.accepts(w)
    }

    /// State `q` is reached from an initial state by some word.
    pub open spec fn reachable(self, q: int) -> bool {
        exists|w: Seq<V>| #[trigger] self.reach(self.initials, w).contains(q)
    }

    /// The set of reachable states.
    pub open spec fn reachable_set(self) -> Set<int> {
        Set::new(|q: int| self.reachable(q))
    }

    /// No word is accepted.
    pub open spec fn is_empty(self) -> bool {
        forall|w: Seq<V>| !self.accepts(w)
    }

    /// Some initial state is final and every reachable state is final.
    pub open spec fn is_full(self) -> bool {
        &&& exists|q: int| #[trigger] self.initials.contains(q) && self.finals.contains(q)
        &&& forall|q: int| #[trigger] self.reachable(q) ==> self.finals.contains(q)
    }

    /// Every state is reachable from an initial state.
    pub open spec fn is_reachable(self) -> bool {
        forall|q: int| 0 <= q < self.size ==> #[trigger] self.reachable(q)
    }

    /// There is an initial state, and every state has a successor for every
    /// symbol of the alphabet.
    pub open spec fn is_complete(self) -> bool {
        &&& exists|q: int| #[trigger] self.initials.contains(q)
        &&& forall|p: int, v: V|
            0 <= p < self.size && self.alphabet.contains(v) ==> #[trigger] self.has_successor(p, v)
    }

    /// State `p` has at least one outgoing edge labelled `v`.
    pub open spec fn has_successor(self, p: int, v: V) -> bool {
        exists|q: int| #[trigger] self.edges.contains((p, v, q))
    }

    /// The automaton with no state at all.
    pub open spec fn empty(alphabet: Set<V>) -> Self {
        NfaModel {
            alphabet,
            size: 0,
            initials: Set::empty(),
            finals: Set::empty(),
            edges: Set::empty(),
        }
    }

    /// One state, initial and final, without edges.
    pub open spec fn empty_word(alphabet: Set<V>) -> Self {
        NfaModel {
            alphabet,
            size: 1,
            initials: set![0int],
            finals: set![0int],
            edges: Set::empty(),
        }
    }

    /// One state, initial and final, with a loop for every symbol.
    pub open spec fn full(alphabet: Set<V>) -> Self {
        NfaModel {
            alphabet,
            size: 1,
            initials: set![0int],
            finals: set![0int],
            edges: Set::new(|e: (int, V, int)| e.0 == 0 && e.2 == 0 && alphabet.contains(e.1)),
        }
    }

    /// A chain of `l + 1` states; every symbol leads from a state to the next.
    pub open spec fn length(alphabet: Set<V>, l: nat) -> Self {
        NfaModel {
            alphabet,
            size: l + 1,
            initials: set![0int],
            finals: set![l as int],
            edges: Set::new(
                |e: (int, V, int)| 0 <= e.0 < l && e.2 == e.0 + 1 && alphabet.contains(e.1),
            ),
        }
    }

    /// A chain of `s.len() + 1` states spelling out `s`.
    pub open spec fn matching(alphabet: Set<V>, s: Seq<V>) -> Self {
        NfaModel {
            alphabet,
            size: s.len() + 1,
            initials: set![0int],
            finals: set![s.len() as int],
            edges: Set::new(|e: (int, V, int)| 0 <= e.0 < s.len() && e.2 == e.0 + 1 && e.1 == s[e.0]),
        }
    }

    /// Every edge turned around, initial and final states exchanged.
    pub open spec fn reverse(self) -> Self {
        NfaModel {
            alphabet: self.alphabet,
            size: self.size,
            initials: self.finals,
            finals: self.initials,
            edges: Set::new(|e: (int, V, int)| self.edges.contains((e.2, e.1, e.0))),
        }
    }

    /// Disjoint union: the states of `b` follow those of `self`.
    pub open spec fn unite(self, b: Self) -> Self {
        let n = self.size as int;
        NfaModel {
            alphabet: self.alphabet + b.alphabet,
            size: self.size + b.size,
            initials: self.initials + shift_set(b.initials, n),
            finals: self.finals + shift_set(b.finals, n),
            edges: Set::new(
                |e: (int, V, int)| self.edges.contains(e) || b.edges.contains((e.0 - n, e.1, e.2 - n)),
            ),
        }
    }

    /// An edge `(i, v, q)` of the automaton leaves an initial state.
    pub open spec fn first_move(self, v: V, q: int) -> bool {
        exists|i: int| self.initials.contains(i) && #[trigger] self.edges.contains((i, v, q))
    }

    /// Some initial state is final.
    pub open spec fn accepts_nothing_read(self) -> bool {
        exists|q: int| #[trigger] self.initials.contains(q) && self.finals.contains(q)
    }

    /// Concatenation without silent edges: the states of `b` follow those of
    /// `self`, and every final state of `self` gets a copy of each edge that
    /// leaves an initial state of `b`.
    pub open spec fn concatenate(self, b: Self) -> Self {
        let n = self.size as int;
        NfaModel {
            alphabet: self.alphabet + b.alphabet,
            size: self.size + b.size,
            initials: self.initials,
            finals: if b.accepts_nothing_read() {
                self.finals + shift_set(b.finals, n)
            } else {
                shift_set(b.finals, n)
            },
            edges: Set::new(
                |e: (int, V, int)|
                    self.edges.contains(e) || b.edges.contains((e.0 - n, e.1, e.2 - n)) || (
                    self.finals.contains(e.0) && b.first_move(e.1, e.2 - n)),
            ),
        }
    }

    /// Kleene closure: one fresh state, initial and final, that copies the
    /// edges leaving the old initial states; every old final state gets the
    /// same copies.
    pub open spec fn kleene(self) -> Self {
        let n = self.size as int;
        NfaModel {
            alphabet: self.alphabet,
            size: self.size + 1,
            initials: set![n],
            finals: self.finals.insert(n),
            edges: Set::new(
                |e: (int, V, int)|
                    self.edges.contains(e) || ((self.finals.contains(e.0) || e.0 == n)
                        && self.first_move(e.1, e.2)),
            ),
        }
    }

    /// One more state, initial and final, without edges.
    pub open spec fn with_empty_word(self) -> Self {
        let n = self.size as int;
        NfaModel {
            alphabet: self.alphabet,
            size: self.size + 1,
            initials: self.initials.insert(n),
            finals: self.finals.insert(n),
            edges: self.edges,
        }
    }

    /// `k` copies of `self` concatenated after the empty-word automaton.
    pub open spec fn power(self, k: nat) -> Self
        decreases k,
    {
        if k == 0 {
            Self::empty_word(self.alphabet)
        } else {
            self.power((k - 1) as nat).concatenate(self)
        }
    }

    /// Between zero and `u` repetitions.
    pub open spec fn at_most(self, u: nat) -> Self {
        let base = if self.accepts_nothing_read() {
            self
        } else {
            self.with_empty_word()
        };
        base.power(u)
    }

    /// `u` repetitions or more.
    pub open spec fn at_least(self, u: nat) -> Self {
        self.power(u).concatenate(self.kleene())
    }

    /// Between `lo` and `hi` repetitions; without `hi`, `lo` or more. A
    /// bound `hi` below `lo` gives the automaton without states.
    pub open spec fn repeat(self, lo: nat, hi: Option<nat>) -> Self {
        match hi {
            Some(h) => if h < lo {
                Self::empty(self.alphabet)
            } else {
                self.power(lo).concatenate(self.at_most((h - lo) as nat))
            },
            None => self.at_least(lo),
        }
    }

    /// Adds a sink state where a state lacks a successor for a symbol of the
    /// alphabet, or where there is no initial state; the sink becomes initial
    /// in the latter case.
    pub open spec fn complete(self) -> Self {
        if self.is_complete() {
            self
        } else {
            let n = self.size as int;
            NfaModel {
                alphabet: self.alphabet,
                size: self.size + 1,
                initials: if self.initials =~= Set::empty() {
                    set![n]
                } else {
                    self.initials
                },
                finals: self.finals,
                edges: Set::new(
                    |e: (int, V, int)|
                        self.edges.contains(e) || (0 <= e.0 <= n && e.2 == n
                            && self.alphabet.contains(e.1) && !self.has_successor(e.0, e.1)),
                ),
            }
        }
    }

    /// The automaton with the states of `order` only, state `order[k]`
    /// under the number `k`.
    pub open spec fn renumber(self, order: Seq<int>) -> Self {
        NfaModel {
            alphabet: self.alphabet,
            size: order.len(),
            initials: Set::new(|k: int| 0 <= k < order.len() && self.initials.contains(order[k])),
            finals: Set::new(|k: int| 0 <= k < order.len() && self.finals.contains(order[k])),
            edges: Set::new(
                |e: (int, V, int)|
                    0 <= e.0 < order.len() && 0 <= e.2 < order.len() && self.edges.contains(
                        (order[e.0], e.1, order[e.2]),
                    ),
            ),
        }
    }

    /// `order` lists the reachable states, each once, as a walk from the
    /// initial states finds them: the initial states come first, and every
    /// other state follows a state from which an edge leads to it.
    pub open spec fn discovery_order(self, order: Seq<int>) -> bool {
        &&& order.no_duplicates()
        &&& forall|q: int| order.contains(q) <==> self.reachable(q)
        &&& forall|k: int|
            0 <= k < order.len() ==> self.initials.contains(#[trigger] order[k])
                || found_from_earlier(self, order, k)
        &&& forall|j: int, k: int|
            0 <= j < k < order.len() && self.initials.contains(#[trigger] order[k])
                ==> self.initials.contains(#[trigger] order[j])
    }

    /// `r` is the automaton without the states that no word reaches, the
    /// others numbered in an order of discovery.
    pub open spec fn prunes(self, r: Self) -> bool {
        exists|order: Seq<int>| #[trigger] self.discovery_order(order) && r == self.renumber(order)
    }

    /// `r` is the automaton without the states from which no final state is
    /// reached: the reversal is pruned and reversed again.
    pub open spec fn coprunes(self, r: Self) -> bool {
        exists|x: Self| #[trigger] self.reverse().prunes(x) && r == x.reverse()
    }

    /// `r` is the automaton with only the states that lie on a path from an
    /// initial to a final state.
    pub open spec fn trims(self, r: Self) -> bool {
        exists|x: Self| #[trigger] self.prunes(x) && x.coprunes(r)
    }
}

impl<V> DfaModel<V> {
    /// Every state mentioned anywhere is a state of the automaton.
    pub open spec fn wf(self) -> bool {
        &&& 0 <= self.initial < self.size
        &&& forall|q: int| #[trigger] self.finals.contains(q) ==> 0 <= q < self.size
        &&& forall|p: int, v: V| #[trigger]
            self.trans.contains_key((p, v)) ==> 0 <= p < self.size && 0 <= self.trans[(p, v)]
                < self.size
    }

    /// Every transition is labelled with a symbol of the alphabet.
    pub open spec fn proper(self) -> bool {
        forall|p: int, v: V| #[trigger]
            self.trans.contains_key((p, v)) ==> self.alphabet.contains(v)
    }

    /// The state reached from `p` by reading `w`, if no transition is missing.
    pub open spec fn run_from(self, p: int, w: Seq<V>) -> Option<int>
        decreases w.len(),
    {
        if w.len() == 0 {
            Some(p)
        } else {
            match self.run_from(p, w.drop_last()) {
                Some(q) => if self.trans.contains_key((q, w.last())) {
                    Some(self.trans[(q, w.last())])
                } else {
                    None
                },
                None => None,
            }
        }
    }

    /// The automaton accepts `w`.
    pub open spec fn accepts(self, w: Seq<V>) -> bool {
        match self.run_from(self.initial, w) {
            Some(q) => self.finals.contains(q),
            None => false,
        }
    }

    /// The words that the automaton accepts.
    pub open spec fn language(self) -> spec_fn(Seq<V>) -> bool {
        |w: Seq<V>| self.accepts(w)
    }

    /// Reading `w` from state `p` ends in a final state.
    pub open spec fn accepts_from(self, p: int, w: Seq<V>) -> bool {
        match self.run_from(p, w) {
            Some(q) => self.finals.contains(q),
            None => false,
        }
    }

    /// Some word leads from the initial state to state `p`.
    pub open spec fn state_reachable(self, p: int) -> bool {
        exists|w: Seq<V>| #[trigger] self.run_from(self.initial, w) == Some(p)
    }

    /// Some word is accepted from state `p`.
    pub open spec fn state_useful(self, p: int) -> bool {
        exists|w: Seq<V>| #[trigger] self.accepts_from(p, w)
    }

    /// Some word is accepted from one of the states `p` and `q` and not from
    /// the other.
    pub open spec fn distinguishable(self, p: int, q: int) -> bool {
        exists|w: Seq<V>| #[trigger] self.accepts_from(p, w) != self.accepts_from(q, w)
    }

    /// Every state is reached from the initial state, and no two states
    /// accept the same words.
    pub open spec fn is_minimal(self) -> bool {
        &&& forall|p: int| 0 <= p < self.size ==> #[trigger] self.state_reachable(p)
        &&& forall|p: int, q: int|
            0 <= p < self.size && 0 <= q < self.size && p != q ==> #[trigger] self.distinguishable(
                p,
                q,
            )
    }

    /// Every state has a transition for every symbol of the alphabet.
    pub open spec fn is_complete(self) -> bool {
        forall|p: int, v: V|
            0 <= p < self.size && self.alphabet.contains(v) ==> #[trigger] self.trans.contains_key(
                (p, v),
            )
    }

    /// One state, not final, without transitions.
    pub open spec fn empty(alphabet: Set<V>) -> Self {
        DfaModel { alphabet, size: 1, initial: 0, finals: Set::empty(), trans: Map::empty() }
    }

    /// The same automaton seen as a non-deterministic one.
    pub open spec fn to_nfa(self) -> NfaModel<V> {
        NfaModel {
            alphabet: self.alphabet,
            size: self.size,
            initials: set![self.initial],
            finals: self.finals,
            edges: Set::new(
                |e: (int, V, int)| self.trans.contains_key((e.0, e.1)) && self.trans[(e.0, e.1)] == e.2,
            ),
        }
    }

    /// Adds a sink state and sends every missing transition on a symbol of
    /// the alphabet to it, unless nothing is missing.
    pub open spec fn complete(self) -> Self {
        if self.is_complete() {
            self
        } else {
            let n = self.size as int;
            DfaModel {
                alphabet: self.alphabet,
                size: self.size + 1,
                initial: self.initial,
                finals: self.finals,
                trans: Map::new(
                    |k: (int, V)|
                        self.trans.contains_key(k) || (0 <= k.0 <= n && self.alphabet.contains(k.1)),
                    |k: (int, V)|
                        if self.trans.contains_key(k) {
                            self.trans[k]
                        } else {
                            n
                        },
                ),
            }
        }
    }

    /// Completes, then exchanges final and non-final states.
    pub open spec fn negate(self) -> Self {
        let c = self.complete();
        DfaModel {
            alphabet: c.alphabet,
            size: c.size,
            initial: c.initial,
            finals: Set::new(|q: int| 0 <= q < c.size && !c.finals.contains(q)),
            trans: c.trans,
        }
    }
}

/// `d` is the subset automaton of `n`, its state `i` standing for the set
/// `subsets[i]`: the states are the non-empty sets reached from the initial
/// set by words over the alphabet, each once, numbered breadth first from
/// the initial set.
pub open spec fn subset_automaton<V>(n: NfaModel<V>, d: DfaModel<V>, subsets: Seq<Set<int>>) -> bool {
    &&& d.alphabet == n.alphabet
    &&& d.initial == 0
    &&& d.size == subsets.len()
    &&& subsets.len() > 0
    &&& subsets[0] == n.initials
    &&& forall|i: int, j: int|
        0 <= i < subsets.len() && 0 <= j < subsets.len() && i != j ==> subsets[i] != subsets[j]
    &&& forall|i: int| 0 < i < subsets.len() ==> inhabited(#[trigger] subsets[i])
    &&& forall|i: int|
        0 <= i < subsets.len() ==> (d.finals.contains(i) <==> meet(#[trigger] subsets[i], n.finals))
    &&& forall|i: int| #[trigger] d.finals.contains(i) ==> 0 <= i < subsets.len()
    &&& forall|i: int, v: V| #[trigger]
        d.trans.contains_key((i, v)) ==> 0 <= i < subsets.len() && n.alphabet.contains(v) && 0
            <= d.trans[(i, v)] < subsets.len() && subsets[d.trans[(i, v)]] == n.step(subsets[i], v)
    &&& forall|i: int, v: V|
        0 <= i < subsets.len() && n.alphabet.contains(v) && !(#[trigger] d.trans.contains_key(
            (i, v),
        )) ==> n.step(subsets[i], v) =~= Set::empty()
    &&& forall|j: int| 0 < j < subsets.len() ==> #[trigger] entered_from_below(d.trans, j)
    &&& breadth_first(d.trans)
}

/// State `j` is the target of a transition that leaves state `i` or a state
/// with a smaller number.
pub open spec fn entered_by<V>(trans: Map<(int, V), int>, j: int, i: int) -> bool {
    exists|k: int, v: V| 0 <= k <= i && #[trigger] trans.contains_key((k, v)) && trans[(k, v)] == j
}

/// The states are numbered breadth first: a state with a smaller number
/// than the target of a transition was entered from the source of the
/// transition or from a state before it.
pub open spec fn breadth_first<V>(trans: Map<(int, V), int>) -> bool {
    forall|i: int, v: V, j: int|
        #![trigger trans.contains_key((i, v)), entered_by(trans, j, i)]
        trans.contains_key((i, v)) && 0 < j < trans[(i, v)] ==> entered_by(trans, j, i)
}

/// State `j` is the target of a transition that leaves a state with a
/// smaller number.
pub open spec fn entered_from_below<V>(trans: Map<(int, V), int>, j: int) -> bool {
    exists|i: int, v: V| 0 <= i < j && #[trigger] trans.contains_key((i, v)) && trans[(i, v)] == j
}

/// `d` is a result of determinising `n`: the one-state automaton without
/// final state where `n` accepts nothing, a subset automaton otherwise.
pub open spec fn determinizes<V>(n: NfaModel<V>, d: DfaModel<V>) -> bool {
    if n.is_empty() {
        d == DfaModel::empty(n.alphabet)
    } else {
        exists|subsets: Seq<Set<int>>| subset_automaton(n, d, subsets)
    }
}

impl<V> NfaModel<V> {
    /// The automaton can be determinised: automata of 128 states or more
    /// only where they accept nothing.
    pub open spec fn determinizable(self) -> bool {
        self.is_empty() || self.size < 128
    }
}

/// `r` is a result of intersecting `a` and `b`: the complement of a
/// determinised union of the two complements.
pub open spec fn intersects<V>(a: DfaModel<V>, b: DfaModel<V>, r: DfaModel<V>) -> bool {
    exists|u: DfaModel<V>| #[trigger]
        determinizes(a.negate().to_nfa().unite(b.negate().to_nfa()), u) && r == u.negate()
}

/// The union that the intersection of `a` and `b` goes through can be
/// determinised.
pub open spec fn can_intersect<V>(a: DfaModel<V>, b: DfaModel<V>) -> bool {
    a.negate().to_nfa().unite(b.negate().to_nfa()).determinizable()
}

/// `r` is a result of intersecting determinised forms of `a` and `b`.
pub open spec fn nfa_intersects<V>(a: NfaModel<V>, b: NfaModel<V>, r: DfaModel<V>) -> bool {
    exists|da: DfaModel<V>, db: DfaModel<V>|
        #![trigger determinizes(a, da), determinizes(b, db)]
        determinizes(a, da) && determinizes(b, db) && intersects(da, db, r)
}

/// Every automaton that the intersection of `a` and `b` goes through can be
/// determinised.
pub open spec fn nfa_can_intersect<V>(a: NfaModel<V>, b: NfaModel<V>) -> bool {
    &&& a.determinizable()
    &&& b.determinizable()
    &&& forall|da: DfaModel<V>, db: DfaModel<V>|
        #![trigger determinizes(a, da), determinizes(b, db)]
        determinizes(a, da) && determinizes(b, db) ==> can_intersect(da, db)
}

/// `x` is an automaton for the words that `b` accepts and `a` does not, as
/// the containment test builds it: the intersection of the complement of a
/// determinised `a` with a determinised `b`.
pub open spec fn difference_automaton<V>(a: NfaModel<V>, b: NfaModel<V>, x: DfaModel<V>) -> bool {
    exists|da: DfaModel<V>, db: DfaModel<V>|
        #![trigger determinizes(a, da), determinizes(b, db)]
        determinizes(a, da) && determinizes(b, db) && intersects(da.negate(), db, x)
}

/// Every automaton that the containment test of `b` in `a` goes through can
/// be determinised.
pub open spec fn can_contain<V>(a: NfaModel<V>, b: NfaModel<V>) -> bool {
    &&& a.determinizable()
    &&& b.determinizable()
    &&& forall|da: DfaModel<V>, db: DfaModel<V>|
        #![trigger determinizes(a, da), determinizes(b, db)]
        determinizes(a, da) && determinizes(b, db) ==> can_intersect(da.negate(), db)
}

/// `r` is a result of minimising `a`: reverse and determinise, twice.
pub open spec fn minimizes<V>(a: DfaModel<V>, r: DfaModel<V>) -> bool {
    exists|d: DfaModel<V>| #[trigger]
        determinizes(a.to_nfa().reverse(), d) && determinizes(d.to_nfa().reverse(), r)
}

/// Every automaton that the minimisation of `a` goes through can be
/// determinised.
pub open spec fn can_minimize<V>(a: DfaModel<V>) -> bool {
    &&& a.to_nfa().reverse().determinizable()
    &&& forall|d: DfaModel<V>| #[trigger]
        determinizes(a.to_nfa().reverse(), d) ==> d.to_nfa().reverse().determinizable()
}

} // verus!
