//! Equality of automata: two automata are equal where each accepts every
//! word that the other accepts, whatever their states are.

use std::hash::Hash;
use vstd::prelude::*;

use crate::automaton::Automaton;
use crate::dfa::DFA;
use crate::laws::{
    accepts_same, can_compare, equal_result, language_equal, law_equal_result,
    lemma_dfa_languages, lemma_to_nfa_wf,
};
use crate::nfa::{ToNfa, NFA};
use crate::regex::Regex;

verus! {

impl<V: Eq + Hash + Copy> NFA<V> {
    /// Whether `self` and `b` accept the same words.
    pub fn eq(&self, b: &NFA<V>) -> (r: bool)
        requires
            can_compare(self@, b@),
        ensures
            equal_result(self@, b@, r),
            self@.alphabet == b@.alphabet ==> r == language_equal(self@, b@),
    {
        let r = self.contains(b) && b.contains(self);
        self.well_formed();
        b.well_formed();
        proof {
            if self@.alphabet == b@.alphabet {
                law_equal_result(self@, b@, r);
            }
        }
        r
    }

    /// Whether `self` and the deterministic automaton `b` accept the same
    /// words.
    pub fn eq_dfa(&self, b: &DFA<V>) -> (r: bool)
        requires
            can_compare(self@, b@.to_nfa()),
        ensures
            equal_result(self@, b@.to_nfa(), r),
            self@.alphabet == b@.alphabet ==> r == language_equal(self@, b@.to_nfa()),
    {
        self.eq(&b.to_nfa())
    }

    /// Whether `self` accepts the words that the expression `b` denotes, and
    /// no others.
    pub fn eq_regex(&self, b: &Regex<V>) -> (r: bool)
        requires
            can_compare(self@, b@),
        ensures
            equal_result(self@, b@, r),
            self@.alphabet == b@.alphabet ==> r == language_equal(self@, b@),
    {
        self.eq(&b.to_nfa())
    }

    /// Whether `self` and `b` accept the same words, whatever `b` holds.
    pub fn eq_automaton(&self, b: &Automaton<V>) -> (r: bool)
        requires
            can_compare(self@, b@),
        ensures
            equal_result(self@, b@, r),
            self@.alphabet == b@.alphabet ==> r == language_equal(self@, b@),
    {
        match b {
            Automaton::DFA(v) => self.eq_dfa(v),
            Automaton::NFA(v) => self.eq(v),
            Automaton::REG(v) => self.eq_regex(v),
        }
    }
}

impl<V: Eq + Hash + Copy> DFA<V> {
    /// Whether `self` and `b` accept the same words.
    pub fn eq(&self, b: &DFA<V>) -> (r: bool)
        requires
            can_compare(self@.to_nfa(), b@.to_nfa()),
        ensures
            equal_result(self@.to_nfa(), b@.to_nfa(), r),
            self@.alphabet == b@.alphabet ==> r == language_equal(self@.to_nfa(), b@.to_nfa()),
            self@.alphabet == b@.alphabet ==> r == accepts_same(self@, b@),
    {
        let r = b.contains(self) && self.contains(b);
        self.well_formed();
        b.well_formed();
        proof {
            lemma_to_nfa_wf(self@);
            lemma_to_nfa_wf(b@);
            if self@.alphabet == b@.alphabet {
                law_equal_result(self@.to_nfa(), b@.to_nfa(), r);
                lemma_dfa_languages(self@, b@);
            }
        }
        r
    }

    /// Whether `self` and the non-deterministic automaton `b` accept the same
    /// words.
    pub fn eq_nfa(&self, b: &NFA<V>) -> (r: bool)
        requires
            can_compare(self@.to_nfa(), b@),
        ensures
            equal_result(self@.to_nfa(), b@, r),
            self@.alphabet == b@.alphabet ==> r == language_equal(self@.to_nfa(), b@),
    {
        self.to_nfa().eq(b)
    }

    /// Whether `self` accepts the words that the expression `b` denotes, and
    /// no others.
    pub fn eq_regex(&self, b: &Regex<V>) -> (r: bool)
        requires
            can_compare(self@.to_nfa(), b@),
        ensures
            equal_result(self@.to_nfa(), b@, r),
            self@.alphabet == b@.alphabet ==> r == language_equal(self@.to_nfa(), b@),
    {
        self.to_nfa().eq(&b.to_nfa())
    }

    /// Whether `self` and `b` accept the same words, whatever `b` holds.
    pub fn eq_automaton(&self, b: &Automaton<V>) -> (r: bool)
        requires
            can_compare(self@.to_nfa(), b@),
        ensures
            equal_result(self@.to_nfa(), b@, r),
            self@.alphabet == b@.alphabet ==> r == language_equal(self@.to_nfa(), b@),
    {
        match b {
            Automaton::DFA(v) => self.eq(v),
            Automaton::NFA(v) => self.eq_nfa(v),
            Automaton::REG(v) => self.eq_regex(v),
        }
    }
}

impl<V: Eq + Hash + Copy> Automaton<V> {
    /// Whether `self` and `b` accept the same words, whatever the two hold.
    pub fn eq(&self, b: &Automaton<V>) -> (r: bool)
        requires
            can_compare(self@, b@),
        ensures
            equal_result(self@, b@, r),
            self@.alphabet == b@.alphabet ==> r == language_equal(self@, b@),
    {
        match self {
            Automaton::DFA(a) => a.eq_automaton(b),
            Automaton::NFA(a) => a.eq_automaton(b),
            Automaton::REG(a) => a.to_nfa().eq_automaton(b),
        }
    }
}

} // verus!
