//! One type for the three forms in which an automaton comes.

use std::hash::Hash;
use vstd::prelude::*;

use crate::dfa::DFA;
use crate::model::NfaModel;
use crate::nfa::{ToNfa, NFA};
use crate::regex::Regex;

verus! {

/// An automaton in one of its three forms: deterministic, non-deterministic,
/// or as a regular expression.
pub enum Automaton<V: Eq + Hash + Copy> {
    DFA(Box<DFA<V>>),
    NFA(Box<NFA<V>>),
    REG(Box<Regex<V>>),
}

impl<V: Eq + Hash + Copy> Automaton<V> {
    /// The non-deterministic automaton that the value stands for.
    pub open spec fn view(&self) -> NfaModel<V> {
        match self {
            Automaton::DFA(d) => d@.to_nfa(),
            Automaton::NFA(n) => n@,
            Automaton::REG(r) => r@,
        }
    }
}

impl<V: Eq + Hash + Copy> ToNfa<V> for Automaton<V> {
    open spec fn as_nfa(&self) -> NfaModel<V> {
        self@
    }

    /// The automaton in its non-deterministic form.
    fn to_nfa(&self) -> (r: NFA<V>) {
        match self {
            Automaton::DFA(d) => d.to_nfa(),
            Automaton::NFA(n) => n.to_nfa(),
            Automaton::REG(r) => r.to_nfa(),
        }
    }
}

} // verus!
