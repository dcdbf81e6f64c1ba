//! Repetition with the bounds given as the two ends of a range.

use std::hash::Hash;
use vstd::prelude::*;

use crate::dfa::{ToDfa, DFA};
use crate::algebra::lemma_as_nfa;
use crate::laws::lemma_to_nfa_wf;
use crate::model::{determinizes, NfaModel};
use crate::nfa::{ToNfa, NFA};
use crate::products::{in_repeat, law_repeat_language, lemma_repeat_proper};

verus! {

/// One end of a range of numbers: a number that belongs to the range, a
/// number just outside it, or no end at all.
#[derive(Debug, Clone, Copy, PartialEq, Eq, Structural)]
pub enum Limit {
    Included(usize),
    Excluded(usize),
    Unbounded,
}

/// The least number of a range that starts at `start`.
pub open spec fn lower_of(start: Limit) -> nat {
    match start {
        Limit::Included(a) => a as nat,
        Limit::Excluded(a) => (a + 1) as nat,
        Limit::Unbounded => 0,
    }
}

/// The greatest number of a range that ends at `end`, if the range ends; it
/// is below zero where zero itself is excluded.
pub open spec fn upper_of(end: Limit) -> Option<int> {
    match end {
        Limit::Included(a) => Some(a as int),
        Limit::Excluded(a) => Some(a - 1),
        Limit::Unbounded => None,
    }
}

impl<V> NfaModel<V> {
    /// As many repetitions as a range from `lo` to `hi` holds numbers;
    /// without `hi`, `lo` or more. A range that holds no number gives the
    /// automaton without states.
    pub open spec fn repeat_range(self, lo: nat, hi: Option<int>) -> Self {
        match hi {
            Some(h) => if h < lo {
                Self::empty(self.alphabet)
            } else {
                self.repeat(lo, Some(h as nat))
            },
            None => self.repeat(lo, None),
        }
    }
}

/// `w` is as many words of `a` in a row as a range from `lo` to `hi` holds
/// numbers.
pub open spec fn in_repeat_range<V>(
    a: spec_fn(Seq<V>) -> bool,
    lo: nat,
    hi: Option<int>,
    w: Seq<V>,
) -> bool {
    match hi {
        Some(h) => h >= lo && in_repeat(a, lo, Some(h as nat), w),
        None => in_repeat(a, lo, None, w),
    }
}

impl<V: Eq + Hash + Copy> NFA<V> {
    /// The automaton that accepts as many words of `self` in a row as the
    /// range from `start` to `end` holds numbers. Where the range holds no
    /// number the automaton accepts nothing. An excluded start must leave
    /// room for the number after it.
    pub fn repeat_range(self, start: Limit, end: Limit) -> (r: NFA<V>)
        requires
            start matches Limit::Excluded(a) ==> a < usize::MAX,
        ensures
            r@ == self@.repeat_range(lower_of(start), upper_of(end)),
            forall|w: Seq<V>|
                r@.accepts(w) == in_repeat_range(
                    self@.language(),
                    lower_of(start),
                    upper_of(end),
                    w,
                ),
    {
        let lo = match start {
            Limit::Included(a) => a,
            Limit::Excluded(a) => a + 1,
            Limit::Unbounded => 0,
        };
        match end {
            Limit::Included(a) => self.repeat(lo, Some(a)),
            Limit::Excluded(a) => {
                if a == 0 {
                    self.well_formed();
                    NFA::new_empty(self.alphabet())
                } else {
                    self.repeat(lo, Some(a - 1))
                }
            },
            Limit::Unbounded => self.repeat(lo, None),
        }
    }
}

impl<V: Eq + Hash + Copy> DFA<V> {
    /// An automaton for as many words of `self` in a row as the range from
    /// `start` to `end` holds numbers.
    pub fn repeat_range(self, start: Limit, end: Limit) -> (r: DFA<V>)
        requires
            start matches Limit::Excluded(a) ==> a < usize::MAX,
            self@.to_nfa().repeat_range(lower_of(start), upper_of(end)).determinizable(),
        ensures
            determinizes(self@.to_nfa().repeat_range(lower_of(start), upper_of(end)), r@),
            forall|w: Seq<V>|
                r@.accepts(w) == in_repeat_range(
                    self@.language(),
                    lower_of(start),
                    upper_of(end),
                    w,
                ),
    {
        self.well_formed();
        let n = self.to_nfa();
        let ghost na = n@;
        let x = n.repeat_range(start, end);
        let r = x.to_dfa();
        proof {
            lemma_to_nfa_wf(self@);
            lemma_as_nfa(self@);
            match upper_of(end) {
                Some(h) => {
                    if h >= lower_of(start) {
                        lemma_repeat_proper(na, lower_of(start), Some(h as nat));
                    }
                },
                None => {
                    lemma_repeat_proper(na, lower_of(start), None);
                },
            }
            assert(x@.proper());
            assert forall|w: Seq<V>|
                r@.accepts(w) == in_repeat_range(
                    self@.language(),
                    lower_of(start),
                    upper_of(end),
                    w,
                ) by {
                match upper_of(end) {
                    Some(h) => {
                        if h >= lower_of(start) {
                            law_repeat_language(
                                na,
                                self@.language(),
                                lower_of(start),
                                Some(h as nat),
                                w,
                            );
                        }
                    },
                    None => {
                        law_repeat_language(na, self@.language(), lower_of(start), None, w);
                    },
                }
            }
        }
        r
    }
}

} // verus!
