//! The operations that go through both kinds of automaton: an operation on
//! deterministic automata that is simpler on non-deterministic ones converts,
//! operates and determinises; complement and what is built on it go the other
//! way.

use std::hash::Hash;
use vstd::prelude::*;

use crate::dfa::{ToDfa, DFA};
use crate::laws::{
    accepts_like, can_compare, contains_result, equal_result, language_contains, language_equal,
    law_contains_result, law_dfa_unite_language, law_equal_result, law_intersect_language,
};
use crate::laws::{accepts_all_of, law_to_nfa_language, lemma_dfa_languages, lemma_to_nfa_wf};
use crate::mirror::{
    law_dfa_reverse_language, law_minimize_language, law_minimize_minimal,
    lemma_word_over_reverse,
};
use crate::products::{
    in_concat, in_power, in_repeat, in_star, law_at_least_language, law_at_most_language,
    law_concatenate_language, law_kleene_language, law_repeat_language, lemma_concatenate_wf,
    lemma_kleene_wf, lemma_repeat_proper, option_lang, power_lang, star_lang,
};
use crate::model::word_over;
use crate::model::{
    can_contain, can_intersect, can_minimize, determinizes, difference_automaton, intersects,
    bound_of, minimizes, nfa_can_intersect, nfa_intersects, DfaModel, NfaModel,
};
use crate::nfa::{ToNfa, NFA};

verus! {

/// A deterministic automaton seen as a non-deterministic one accepts what
/// it accepts.
pub proof fn lemma_as_nfa<V>(d: DfaModel<V>)
    ensures
        forall|x: Seq<V>| #[trigger] d.to_nfa().accepts(x) == (d.language())(x),
{
    assert forall|x: Seq<V>| #[trigger] d.to_nfa().accepts(x) == (d.language())(x) by {
        law_to_nfa_language(d, x);
    }
}

impl<V: Eq + Hash + Copy> DFA<V> {
    /// An automaton for the words that `self` or `b` accepts.
    pub fn unite(self, b: DFA<V>) -> (r: DFA<V>)
        requires
            self@.to_nfa().unite(b@.to_nfa()).determinizable(),
        ensures
            determinizes(self@.to_nfa().unite(b@.to_nfa()), r@),
            r@.alphabet == self@.alphabet + b@.alphabet,
            forall|w: Seq<V>| r@.accepts(w) == (self@.accepts(w) || b@.accepts(w)),
    {
        self.well_formed();
        b.well_formed();
        let r = self.to_nfa().unite(b.to_nfa()).to_dfa();
        proof {
            assert forall|w: Seq<V>| r@.accepts(w) == (self@.accepts(w) || b@.accepts(w)) by {
                law_dfa_unite_language(self@, b@, r@, w);
                if self@.accepts(w) {
                    assert(word_over(w, self@.alphabet));
                }
                if b@.accepts(w) {
                    assert(word_over(w, b@.alphabet));
                }
            }
        }
        r
    }

    /// An automaton for a word of `self` followed by a word of `b`.
    pub fn concatenate(self, b: DFA<V>) -> (r: DFA<V>)
        requires
            self@.to_nfa().concatenate(b@.to_nfa()).determinizable(),
        ensures
            determinizes(self@.to_nfa().concatenate(b@.to_nfa()), r@),
            forall|w: Seq<V>| r@.accepts(w) == in_concat(self@.language(), b@.language(), w),
    {
        self.well_formed();
        b.well_formed();
        let r = self.to_nfa().concatenate(b.to_nfa()).to_dfa();
        proof {
            let na = self@.to_nfa();
            let nb = b@.to_nfa();
            lemma_to_nfa_wf(self@);
            lemma_to_nfa_wf(b@);
            lemma_concatenate_wf(na, nb);
            lemma_as_nfa(self@);
            lemma_as_nfa(b@);
            assert forall|w: Seq<V>|
                r@.accepts(w) == in_concat(self@.language(), b@.language(), w) by {
                law_concatenate_language(na, nb, self@.language(), b@.language(), w);
            }
        }
        r
    }

    /// An automaton for any number of words of `self` in a row.
    pub fn kleene(self) -> (r: DFA<V>)
        requires
            self@.to_nfa().kleene().determinizable(),
        ensures
            determinizes(self@.to_nfa().kleene(), r@),
            forall|w: Seq<V>| r@.accepts(w) == in_star(self@.language(), w),
    {
        self.well_formed();
        let r = self.to_nfa().kleene().to_dfa();
        proof {
            let na = self@.to_nfa();
            lemma_to_nfa_wf(self@);
            lemma_kleene_wf(na);
            lemma_as_nfa(self@);
            assert forall|w: Seq<V>| r@.accepts(w) == in_star(self@.language(), w) by {
                law_kleene_language(na, self@.language(), w);
            }
        }
        r
    }

    /// An automaton for at most `u` words of `self` in a row.
    pub fn at_most(self, u: usize) -> (r: DFA<V>)
        requires
            self@.to_nfa().at_most(u as nat).determinizable(),
        ensures
            determinizes(self@.to_nfa().at_most(u as nat), r@),
            forall|w: Seq<V>|
                r@.accepts(w) == in_power(option_lang(self@.language()), u as nat, w),
    {
        self.well_formed();
        let r = self.to_nfa().at_most(u).to_dfa();
        proof {
            let na = self@.to_nfa();
            lemma_to_nfa_wf(self@);
            lemma_repeat_proper(na, u as nat, None);
            lemma_as_nfa(self@);
            assert forall|w: Seq<V>|
                r@.accepts(w) == in_power(option_lang(self@.language()), u as nat, w) by {
                law_at_most_language(na, self@.language(), u as nat, w);
            }
        }
        r
    }

    /// An automaton for `u` words of `self` in a row, or more.
    pub fn at_least(self, u: usize) -> (r: DFA<V>)
        requires
            self@.to_nfa().at_least(u as nat).determinizable(),
        ensures
            determinizes(self@.to_nfa().at_least(u as nat), r@),
            forall|w: Seq<V>|
                r@.accepts(w) == in_concat(
                    power_lang(self@.language(), u as nat),
                    star_lang(self@.language()),
                    w,
                ),
    {
        self.well_formed();
        let r = self.to_nfa().at_least(u).to_dfa();
        proof {
            let na = self@.to_nfa();
            lemma_to_nfa_wf(self@);
            lemma_repeat_proper(na, u as nat, None);
            lemma_as_nfa(self@);
            assert forall|w: Seq<V>|
                r@.accepts(w) == in_concat(
                    power_lang(self@.language(), u as nat),
                    star_lang(self@.language()),
                    w,
                ) by {
                law_at_least_language(na, self@.language(), u as nat, w);
            }
        }
        r
    }

    /// An automaton for between `lo` and `hi` words of `self` in a row;
    /// without `hi`, for `lo` words or more.
    pub fn repeat(self, lo: usize, hi: Option<usize>) -> (r: DFA<V>)
        requires
            self@.to_nfa().repeat(lo as nat, bound_of(hi)).determinizable(),
        ensures
            determinizes(self@.to_nfa().repeat(lo as nat, bound_of(hi)), r@),
            forall|w: Seq<V>|
                r@.accepts(w) == in_repeat(self@.language(), lo as nat, bound_of(hi), w),
    {
        self.well_formed();
        let r = self.to_nfa().repeat(lo, hi).to_dfa();
        proof {
            let na = self@.to_nfa();
            lemma_to_nfa_wf(self@);
            lemma_repeat_proper(na, lo as nat, bound_of(hi));
            lemma_as_nfa(self@);
            assert forall|w: Seq<V>|
                r@.accepts(w) == in_repeat(self@.language(), lo as nat, bound_of(hi), w) by {
                law_repeat_language(na, self@.language(), lo as nat, bound_of(hi), w);
            }
        }
        r
    }

    /// An automaton for the mirror images of the words of `self`.
    pub fn reverse(self) -> (r: DFA<V>)
        requires
            self@.to_nfa().reverse().determinizable(),
        ensures
            determinizes(self@.to_nfa().reverse(), r@),
            r@.alphabet == self@.alphabet,
            forall|w: Seq<V>| r@.accepts(w) == self@.accepts(w.reverse()),
    {
        self.well_formed();
        let r = self.to_nfa().reverse().to_dfa();
        proof {
            assert forall|w: Seq<V>| r@.accepts(w) == self@.accepts(w.reverse()) by {
                law_dfa_reverse_language(self@, r@, w);
                lemma_word_over_reverse(w, self@.alphabet);
                if self@.accepts(w.reverse()) {
                    assert(word_over(w.reverse(), self@.alphabet));
                }
            }
        }
        r
    }

    /// The automaton without the states that no word reaches, determinised
    /// again.
    pub fn make_reachable(self) -> (r: DFA<V>)
        requires
            forall|x: NfaModel<V>| #[trigger] self@.to_nfa().prunes(x) ==> x.determinizable(),
        ensures
            exists|x: NfaModel<V>| #[trigger] self@.to_nfa().prunes(x) && determinizes(x, r@),
            r@.alphabet == self@.alphabet,
            forall|w: Seq<V>| r@.accepts(w) == self@.accepts(w),
    {
        let x = self.to_nfa().make_reachable();
        let r = x.to_dfa();
        proof {
            assert(self@.to_nfa().prunes(x@) && determinizes(x@, r@));
        }
        r
    }

    /// The automaton without the states that no word reaches, determinised
    /// again.
    /// `None` where the pruned automaton cannot be determinised.
    pub fn try_make_reachable(self) -> (r: Option<DFA<V>>)
        ensures
            match r {
                Some(d) => (exists|x: NfaModel<V>| #[trigger]
                    self@.to_nfa().prunes(x) && determinizes(x, d@)) && d@.alphabet
                    == self@.alphabet && forall|w: Seq<V>| #[trigger]
                    d@.accepts(w) == self@.accepts(w),
                None => exists|x: NfaModel<V>| #[trigger]
                    self@.to_nfa().prunes(x) && !x.determinizable(),
            },
    {
        let x = self.to_nfa().make_reachable();
        match x.try_to_dfa() {
            Some(d) => {
                proof {
                    assert(self@.to_nfa().prunes(x@) && determinizes(x@, d@));
                }
                Some(d)
            },
            None => {
                proof {
                    assert(self@.to_nfa().prunes(x@) && !x@.determinizable());
                }
                None
            },
        }
    }

    /// The automaton without the states from which no final state is
    /// reached, determinised again.
    pub fn make_coreachable(self) -> (r: DFA<V>)
        requires
            forall|x: NfaModel<V>| #[trigger] self@.to_nfa().coprunes(x) ==> x.determinizable(),
        ensures
            exists|x: NfaModel<V>| #[trigger] self@.to_nfa().coprunes(x) && determinizes(x, r@),
            r@.alphabet == self@.alphabet,
            forall|w: Seq<V>| r@.accepts(w) == self@.accepts(w),
    {
        let x = self.to_nfa().make_coreachable();
        let r = x.to_dfa();
        proof {
            assert(self@.to_nfa().coprunes(x@) && determinizes(x@, r@));
        }
        r
    }

    /// The automaton without the states from which no final state is
    /// reached, determinised again.
    /// `None` where the pruned automaton cannot be determinised.
    pub fn try_make_coreachable(self) -> (r: Option<DFA<V>>)
        ensures
            match r {
                Some(d) => (exists|x: NfaModel<V>| #[trigger]
                    self@.to_nfa().coprunes(x) && determinizes(x, d@)) && d@.alphabet
                    == self@.alphabet && forall|w: Seq<V>| #[trigger]
                    d@.accepts(w) == self@.accepts(w),
                None => exists|x: NfaModel<V>| #[trigger]
                    self@.to_nfa().coprunes(x) && !x.determinizable(),
            },
    {
        let x = self.to_nfa().make_coreachable();
        match x.try_to_dfa() {
            Some(d) => {
                proof {
                    assert(self@.to_nfa().coprunes(x@) && determinizes(x@, d@));
                }
                Some(d)
            },
            None => {
                proof {
                    assert(self@.to_nfa().coprunes(x@) && !x@.determinizable());
                }
                None
            },
        }
    }

    /// The automaton with only the states that lie on a path from the initial
    /// state to a final state, determinised again.
    pub fn trim(self) -> (r: DFA<V>)
        requires
            forall|x: NfaModel<V>| #[trigger] self@.to_nfa().trims(x) ==> x.determinizable(),
        ensures
            exists|x: NfaModel<V>| #[trigger] self@.to_nfa().trims(x) && determinizes(x, r@),
            r@.alphabet == self@.alphabet,
            forall|w: Seq<V>| r@.accepts(w) == self@.accepts(w),
    {
        let x = self.to_nfa().trim();
        let r = x.to_dfa();
        proof {
            assert(self@.to_nfa().trims(x@) && determinizes(x@, r@));
        }
        r
    }

    /// The automaton with only the states that lie on a path from the initial
    /// state to a final state, determinised again.
    /// `None` where the trimmed automaton cannot be determinised.
    pub fn try_trim(self) -> (r: Option<DFA<V>>)
        ensures
            match r {
                Some(d) => (exists|x: NfaModel<V>| #[trigger]
                    self@.to_nfa().trims(x) && determinizes(x, d@)) && d@.alphabet
                    == self@.alphabet && forall|w: Seq<V>| #[trigger]
                    d@.accepts(w) == self@.accepts(w),
                None => exists|x: NfaModel<V>| #[trigger]
                    self@.to_nfa().trims(x) && !x.determinizable(),
            },
    {
        let x = self.to_nfa().trim();
        match x.try_to_dfa() {
            Some(d) => {
                proof {
                    assert(self@.to_nfa().trims(x@) && determinizes(x@, d@));
                }
                Some(d)
            },
            None => {
                proof {
                    assert(self@.to_nfa().trims(x@) && !x@.determinizable());
                }
                None
            },
        }
    }

    /// Whether every state is reached from the initial state.
    pub fn is_reachable(&self) -> (r: bool)
        ensures
            r == self@.to_nfa().is_reachable(),
    {
        self.to_nfa().is_reachable()
    }

    /// Whether a final state is reached from every state.
    pub fn is_coreachable(&self) -> (r: bool)
        ensures
            r == self@.to_nfa().reverse().is_reachable(),
    {
        self.to_nfa().is_coreachable()
    }

    /// Whether every state lies on a path from the initial state to a final
    /// state.
    pub fn is_trimmed(&self) -> (r: bool)
        ensures
            r == (self@.to_nfa().is_reachable() && self@.to_nfa().reverse().is_reachable()),
    {
        self.to_nfa().is_trimmed()
    }

    /// Whether the automaton accepts no word at all.
    pub fn is_empty(&self) -> (r: bool)
        ensures
            r == self@.to_nfa().is_empty(),
            r == (forall|w: Seq<V>| !self@.accepts(w)),
    {
        let r = self.to_nfa().is_empty();
        proof {
            assert forall|w: Seq<V>| self@.to_nfa().accepts(w) == #[trigger] self@.accepts(w) by {
                crate::laws::law_to_nfa_language(self@, w);
            }
            if forall|w: Seq<V>| !self@.accepts(w) {
                assert forall|w: Seq<V>| !self@.to_nfa().accepts(w) by {
                    assert(!self@.accepts(w));
                }
            }
        }
        r
    }

    /// Whether the initial state is final and every reachable state is final.
    pub fn is_full(&self) -> (r: bool)
        ensures
            r == self@.to_nfa().is_full(),
    {
        self.to_nfa().is_full()
    }

    /// An automaton for the words that both `self` and `b` accept: the
    /// complement of the union of the complements.
    pub fn intersect(self, b: DFA<V>) -> (r: DFA<V>)
        requires
            can_intersect(self@, b@),
        ensures
            intersects(self@, b@, r@),
            self@.alphabet == b@.alphabet ==> forall|w: Seq<V>| #[trigger]
                r@.accepts(w) == (self@.accepts(w) && b@.accepts(w)),
    {
        self.well_formed();
        b.well_formed();
        let ghost ma = self@;
        let ghost mb = b@;
        let u = self.negate().unite(b.negate());
        let r = u.negate();
        proof {
            assert(intersects(ma, mb, r@));
            if ma.alphabet == mb.alphabet {
                assert forall|w: Seq<V>| #[trigger]
                    r@.accepts(w) == (ma.accepts(w) && mb.accepts(w)) by {
                    law_intersect_language(ma, mb, r@, w);
                    if ma.accepts(w) {
                        assert(word_over(w, ma.alphabet));
                    }
                }
            }
        }
        r
    }

    /// The automaton minimised after Brzozowski: reversed and determinised,
    /// twice.
    pub fn minimize(self) -> (r: DFA<V>)
        requires
            can_minimize(self@),
        ensures
            minimizes(self@, r@),
            r@.is_minimal(),
            r@.alphabet == self@.alphabet,
            forall|w: Seq<V>| r@.accepts(w) == self@.accepts(w),
    {
        self.well_formed();
        let ghost m = self@;
        let d = self.reverse();
        let r = d.reverse();
        proof {
            assert(minimizes(m, r@));
            law_minimize_minimal(m, r@);
            assert forall|w: Seq<V>| r@.accepts(w) == m.accepts(w) by {
                law_minimize_language(m, r@, w);
            }
        }
        r
    }

    /// The automaton minimised, where every automaton on the way can be
    /// determinised; `None` where one cannot.
    pub fn try_minimize(self) -> (r: Option<DFA<V>>)
        ensures
            match r {
                Some(d) => minimizes(self@, d@) && d@.is_minimal() && d@.alphabet == self@.alphabet
                    && forall|w: Seq<V>| #[trigger] d@.accepts(w) == self@.accepts(w),
                None => !can_minimize(self@),
            },
    {
        self.well_formed();
        let first = self.to_nfa().reverse();
        if !(first.is_empty() || first.size() < 128) {
            return None;
        }
        let d = first.to_dfa();
        let second = d.to_nfa().reverse();
        if !(second.is_empty() || second.size() < 128) {
            return None;
        }
        let r = second.to_dfa();
        proof {
            assert(minimizes(self@, r@));
            law_minimize_minimal(self@, r@);
            assert forall|w: Seq<V>| #[trigger] r@.accepts(w) == self@.accepts(w) by {
                law_minimize_language(self@, r@, w);
            }
        }
        Some(r)
    }

    /// The sum of two automata is their union.
    pub fn add(self, other: DFA<V>) -> (r: DFA<V>)
        requires
            self@.to_nfa().unite(other@.to_nfa()).determinizable(),
        ensures
            determinizes(self@.to_nfa().unite(other@.to_nfa()), r@),
            forall|w: Seq<V>| r@.accepts(w) == (self@.accepts(w) || other@.accepts(w)),
    {
        self.unite(other)
    }

    /// The product of two automata is their concatenation.
    pub fn mul(self, other: DFA<V>) -> (r: DFA<V>)
        requires
            self@.to_nfa().concatenate(other@.to_nfa()).determinizable(),
        ensures
            determinizes(self@.to_nfa().concatenate(other@.to_nfa()), r@),
            forall|w: Seq<V>| r@.accepts(w) == in_concat(self@.language(), other@.language(), w),
    {
        self.concatenate(other)
    }

    /// The negative of an automaton is its complement.
    pub fn neg(self) -> (r: DFA<V>)
        ensures
            r@ == self@.negate(),
            forall|w: Seq<V>| r@.accepts(w) == (word_over(w, self@.alphabet) && !self@.accepts(w)),
    {
        self.negate()
    }

    /// The opposite of an automaton is its reversal.
    pub fn not(self) -> (r: DFA<V>)
        requires
            self@.to_nfa().reverse().determinizable(),
        ensures
            determinizes(self@.to_nfa().reverse(), r@),
            forall|w: Seq<V>| r@.accepts(w) == self@.accepts(w.reverse()),
    {
        self.reverse()
    }

    /// The difference of two automata accepts the words that the first
    /// accepts and the second does not.
    pub fn sub(self, other: DFA<V>) -> (r: DFA<V>)
        requires
            can_intersect(self@, other@.negate()),
        ensures
            intersects(self@, other@.negate(), r@),
            self@.alphabet == other@.alphabet ==> forall|w: Seq<V>| #[trigger]
                r@.accepts(w) == (self@.accepts(w) && !other@.accepts(w)),
    {
        self.well_formed();
        other.well_formed();
        let ghost mo = other@;
        proof {
            crate::laws::lemma_negate_wf(mo);
        }
        let r = self.intersect(other.negate());
        r
    }

    /// Whether `self` accepts every word that `b` accepts.
    pub fn contains(&self, b: &DFA<V>) -> (r: bool)
        requires
            can_contain(self@.to_nfa(), b@.to_nfa()),
        ensures
            contains_result(self@.to_nfa(), b@.to_nfa(), r),
            self@.alphabet == b@.alphabet ==> r == language_contains(self@.to_nfa(), b@.to_nfa()),
            self@.alphabet == b@.alphabet ==> r == accepts_all_of(self@, b@),
    {
        self.well_formed();
        b.well_formed();
        let r = self.to_nfa().contains(&b.to_nfa());
        proof {
            assert(self@.to_nfa().alphabet == self@.alphabet);
            assert(b@.to_nfa().alphabet == b@.alphabet);
            if self@.alphabet == b@.alphabet {
                lemma_dfa_languages(self@, b@);
            }
        }
        r
    }
}

impl<V: Eq + Hash + Copy> DFA<V> {
    /// An automaton for the words that both `self` and `b` accept, where
    /// the union on the way can be determinised; `None` where it cannot.
    pub fn try_intersect(self, b: DFA<V>) -> (r: Option<DFA<V>>)
        ensures
            match r {
                Some(d) => intersects(self@, b@, d@) && (self@.alphabet == b@.alphabet ==> forall|
                    w: Seq<V>,
                | #[trigger] d@.accepts(w) == (self@.accepts(w) && b@.accepts(w))),
                None => !can_intersect(self@, b@),
            },
    {
        self.well_formed();
        b.well_formed();
        let ghost ma = self@;
        let ghost mb = b@;
        let joined = self.negate().to_nfa().unite(b.negate().to_nfa());
        match joined.try_to_dfa() {
            None => None,
            Some(u) => {
                let d = u.negate();
                proof {
                    assert(intersects(ma, mb, d@));
                    if ma.alphabet == mb.alphabet {
                        assert forall|w: Seq<V>| #[trigger]
                            d@.accepts(w) == (ma.accepts(w) && mb.accepts(w)) by {
                            law_intersect_language(ma, mb, d@, w);
                            if ma.accepts(w) {
                                assert(word_over(w, ma.alphabet));
                            }
                        }
                    }
                }
                Some(d)
            },
        }
    }
}

impl<V: Eq + Hash + Copy> NFA<V> {
    /// A deterministic automaton for the words over the alphabet that `self`
    /// accepts, where `self` can be determinised; `None` where it cannot.
    pub fn try_to_dfa(&self) -> (r: Option<DFA<V>>)
        ensures
            match r {
                Some(d) => determinizes(self@, d@) && accepts_like(d@, self@) && d@.alphabet
                    == self@.alphabet && (self@.proper() ==> forall|w: Seq<V>| #[trigger]
                    d@.accepts(w) == self@.accepts(w)),
                None => !self@.determinizable(),
            },
    {
        if self.is_empty() || self.size() < 128 {
            Some(self.to_dfa())
        } else {
            None
        }
    }

    /// Whether `self` accepts every word that `b` accepts, where every
    /// automaton on the way can be determinised; `None` where one cannot.
    pub fn try_contains(&self, b: &NFA<V>) -> (r: Option<bool>)
        ensures
            match r {
                Some(yes) => contains_result(self@, b@, yes) && (self@.alphabet == b@.alphabet
                    ==> yes == language_contains(self@, b@)),
                None => !can_contain(self@, b@),
            },
    {
        self.well_formed();
        b.well_formed();
        let first = match self.try_to_dfa() {
            Some(d) => d,
            None => {
                return None;
            },
        };
        let second = match b.try_to_dfa() {
            Some(d) => d,
            None => {
                return None;
            },
        };
        let ghost da = first@;
        let ghost db = second@;
        match first.negate().try_intersect(second) {
            None => {
                proof {
                    assert(determinizes(self@, da) && determinizes(b@, db) && !can_intersect(
                        da.negate(),
                        db,
                    ));
                }
                None
            },
            Some(x) => {
                let yes = x.is_empty();
                proof {
                    assert(determinizes(self@, da) && determinizes(b@, db) && intersects(
                        da.negate(),
                        db,
                        x@,
                    ));
                    assert(difference_automaton(self@, b@, x@));
                    assert(contains_result(self@, b@, yes));
                    if self@.alphabet == b@.alphabet {
                        law_contains_result(self@, b@, yes);
                    }
                }
                Some(yes)
            },
        }
    }

    /// Whether `self` and `b` accept the same words, where every automaton
    /// on the way can be determinised; `None` where one cannot.
    pub fn try_eq(&self, b: &NFA<V>) -> (r: Option<bool>)
        ensures
            match r {
                Some(yes) => equal_result(self@, b@, yes) && (self@.alphabet == b@.alphabet ==> yes
                    == language_equal(self@, b@)),
                None => !can_compare(self@, b@),
            },
    {
        self.well_formed();
        b.well_formed();
        let forth = match self.try_contains(b) {
            Some(yes) => yes,
            None => {
                return None;
            },
        };
        let yes = if forth {
            match b.try_contains(self) {
                Some(back) => back,
                None => {
                    return None;
                },
            }
        } else {
            false
        };
        proof {
            if self@.alphabet == b@.alphabet {
                law_equal_result(self@, b@, yes);
            }
        }
        Some(yes)
    }

    /// A deterministic automaton for the words over the alphabet that `self`
    /// does not accept.
    pub fn negate(&mut self) -> (r: DFA<V>)
        requires
            old(self)@.determinizable(),
        ensures
            final(self)@ == old(self)@,
            exists|d: DfaModel<V>| #[trigger] determinizes(old(self)@, d) && r@ == d.negate(),
            forall|w: Seq<V>|
                r@.accepts(w) == (word_over(w, old(self)@.alphabet) && !old(self)@.accepts(w)),
    {
        let d = self.to_dfa();
        let ghost m = d@;
        let r = d.negate();
        proof {
            assert(determinizes(self@, m) && r@ == m.negate());
            crate::laws::lemma_determinizes_wf(self@, m);
            crate::laws::lemma_negate_wf(m);
            assert forall|w: Seq<V>|
                r@.accepts(w) == (word_over(w, self@.alphabet) && !self@.accepts(w)) by {
                if word_over(w, self@.alphabet) {
                    crate::laws::law_negate_language(m, w);
                    crate::laws::law_determinize_language(self@, m, w);
                } else {
                    crate::laws::lemma_proper_run(r@, r@.initial, w);
                }
            }
        }
        r
    }

    /// A deterministic automaton for the words that both `self` and `b`
    /// accept.
    pub fn intersect(self, b: NFA<V>) -> (r: DFA<V>)
        requires
            nfa_can_intersect(self@, b@),
        ensures
            nfa_intersects(self@, b@, r@),
            self@.alphabet == b@.alphabet ==> forall|w: Seq<V>| #[trigger]
                r@.accepts(w) == (word_over(w, self@.alphabet) && self@.accepts(w) && b@.accepts(w)),
    {
        let da = self.to_dfa();
        let db = b.to_dfa();
        let ghost ma = da@;
        let ghost mb = db@;
        let r = da.intersect(db);
        proof {
            assert(determinizes(self@, ma) && determinizes(b@, mb) && intersects(ma, mb, r@));
        }
        r
    }

    /// Whether `self` accepts every word that `b` accepts: whether the
    /// automaton for the words of `b` that `self` does not accept accepts
    /// nothing.
    pub fn contains(&self, b: &NFA<V>) -> (r: bool)
        requires
            can_contain(self@, b@),
        ensures
            contains_result(self@, b@, r),
            self@.alphabet == b@.alphabet ==> r == language_contains(self@, b@),
    {
        let da = self.to_dfa();
        let ghost first = da@;
        let aut1 = da.negate();
        let db = b.to_dfa();
        let ghost second = db@;
        let x = aut1.intersect(db);
        proof {
            assert(determinizes(self@, first) && determinizes(b@, second) && intersects(
                first.negate(),
                second,
                x@,
            ));
            assert(difference_automaton(self@, b@, x@));
        }
        let r = x.is_empty();
        self.well_formed();
        b.well_formed();
        proof {
            assert(contains_result(self@, b@, r));
            if self@.alphabet == b@.alphabet {
                law_contains_result(self@, b@, r);
            }
        }
        r
    }
}

} // verus!
