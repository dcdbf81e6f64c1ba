//! The order of deterministic automata by containment of their languages.

use std::cmp::Ordering;
use std::hash::Hash;
use vstd::prelude::*;

use crate::dfa::DFA;
use crate::laws::{accepts_all_of, can_compare, contains_result};
use crate::model::can_contain;

verus! {

/// How two automata compare, given whether the first contains the second
/// and whether the second contains the first.
pub open spec fn order_of(ge: bool, le: bool) -> Option<Ordering> {
    if ge && le {
        Some(Ordering::Equal)
    } else if ge {
        Some(Ordering::Greater)
    } else if le {
        Some(Ordering::Less)
    } else {
        None
    }
}

impl<V: Eq + Hash + Copy> DFA<V> {
    /// Whether `self` accepts every word that `other` accepts.
    pub fn ge(&self, other: &DFA<V>) -> (r: bool)
        requires
            can_contain(self@.to_nfa(), other@.to_nfa()),
        ensures
            contains_result(self@.to_nfa(), other@.to_nfa(), r),
            self@.alphabet == other@.alphabet ==> r == accepts_all_of(self@, other@),
    {
        self.contains(other)
    }

    /// Whether `other` accepts every word that `self` accepts.
    pub fn le(&self, other: &DFA<V>) -> (r: bool)
        requires
            can_contain(other@.to_nfa(), self@.to_nfa()),
        ensures
            contains_result(other@.to_nfa(), self@.to_nfa(), r),
            self@.alphabet == other@.alphabet ==> r == accepts_all_of(other@, self@),
    {
        other.contains(self)
    }

    /// Whether `self` accepts every word that `other` accepts, and some word
    /// besides.
    pub fn gt(&self, other: &DFA<V>) -> (r: bool)
        requires
            can_compare(self@.to_nfa(), other@.to_nfa()),
        ensures
            self@.alphabet == other@.alphabet ==> r == (accepts_all_of(self@, other@) && !accepts_all_of(other@, self@)),
            r ==> contains_result(self@.to_nfa(), other@.to_nfa(), true) && contains_result(
                other@.to_nfa(),
                self@.to_nfa(),
                false,
            ),
            !r ==> contains_result(self@.to_nfa(), other@.to_nfa(), false) || contains_result(
                other@.to_nfa(),
                self@.to_nfa(),
                true,
            ),
    {
        self.contains(other) && !other.contains(self)
    }

    /// Whether `other` accepts every word that `self` accepts, and some word
    /// besides.
    pub fn lt(&self, other: &DFA<V>) -> (r: bool)
        requires
            can_compare(self@.to_nfa(), other@.to_nfa()),
        ensures
            self@.alphabet == other@.alphabet ==> r == (accepts_all_of(other@, self@) && !accepts_all_of(self@, other@)),
            r ==> contains_result(other@.to_nfa(), self@.to_nfa(), true) && contains_result(
                self@.to_nfa(),
                other@.to_nfa(),
                false,
            ),
            !r ==> contains_result(other@.to_nfa(), self@.to_nfa(), false) || contains_result(
                self@.to_nfa(),
                other@.to_nfa(),
                true,
            ),
    {
        other.contains(self) && !self.contains(other)
    }

    /// How `self` and `other` compare by containment: equal where each
    /// contains the other, greater where only `self` contains `other`, less
    /// where only `other` contains `self`, and not at all where neither
    /// contains the other.
    pub fn partial_cmp(&self, other: &DFA<V>) -> (r: Option<Ordering>)
        requires
            can_compare(self@.to_nfa(), other@.to_nfa()),
        ensures
            exists|ge: bool, le: bool|
                #![trigger order_of(ge, le)]
                contains_result(self@.to_nfa(), other@.to_nfa(), ge) && contains_result(
                    other@.to_nfa(),
                    self@.to_nfa(),
                    le,
                ) && r == order_of(ge, le),
            self@.alphabet == other@.alphabet ==> r == order_of(
                accepts_all_of(self@, other@),
                accepts_all_of(other@, self@),
            ),
    {
        let ge = self.ge(other);
        let le = self.le(other);
        let r = if ge && le {
            Some(Ordering::Equal)
        } else if ge {
            Some(Ordering::Greater)
        } else if le {
            Some(Ordering::Less)
        } else {
            None
        };
        assert(r == order_of(ge, le));
        r
    }
}

} // verus!
