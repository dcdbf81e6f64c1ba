//! Regular expressions as trees, and their automata.

use std::collections::HashSet;
use std::hash::Hash;
use vstd::prelude::*;
use vstd::std_specs::hash::obeys_key_model;

use crate::model::NfaModel;
use crate::nfa::{ToNfa, NFA};
use crate::parser::{lex, parse, spec_parse};
use crate::utils::copy_set;

verus! {

/// A regular expression over the symbols `V`, as a mathematical tree.
pub enum Expr<V> {
    Epsilon,
    Dot,
    Letter(V),
    Concat(Seq<Expr<V>>),
    Union(Seq<Expr<V>>),
    Repeat(Box<Expr<V>>, nat, Option<nat>),
}

/// A regular expression over the symbols `V`.
#[derive(Debug, PartialEq, Eq)]
pub enum Operations<V> {
    /// The empty word.
    Epsilon,
    /// Any one symbol of the alphabet.
    Dot,
    /// The given symbol.
    Letter(V),
    /// The parts one after the other.
    Concat(Vec<Operations<V>>),
    /// One of the alternatives.
    Union(Vec<Operations<V>>),
    /// The part repeated: at least the first number of times, at most the
    /// second where there is one.
    Repeat(Box<Operations<V>>, usize, Option<usize>),
}

impl<V> Operations<V> {
    /// The tree that this value holds.
    pub open spec fn view(&self) -> Expr<V>
        decreases self,
    {
        match self {
            Operations::Epsilon => Expr::Epsilon,
            Operations::Dot => Expr::Dot,
            Operations::Letter(v) => Expr::Letter(*v),
            Operations::Concat(list) => Expr::Concat(views(list@)),
            Operations::Union(list) => Expr::Union(views(list@)),
            Operations::Repeat(sub, lo, hi) => Expr::Repeat(
                Box::new(sub.view()),
                *lo as nat,
                match hi {
                    Some(h) => Some(*h as nat),
                    None => None,
                },
            ),
        }
    }
}

impl<V> Expr<V> {
    /// The automaton of the expression over `alphabet`.
    pub open spec fn nfa(self, alphabet: Set<V>) -> NfaModel<V>
        decreases self,
    {
        match self {
            Expr::Epsilon => NfaModel::empty_word(alphabet),
            Expr::Dot => NfaModel::length(alphabet, 1),
            Expr::Letter(v) => NfaModel::matching(alphabet, seq![v]),
            Expr::Concat(list) => concat_nfa(list, alphabet, list.len()),
            Expr::Union(list) => union_nfa(list, alphabet, list.len()),
            Expr::Repeat(sub, lo, hi) => sub.nfa(alphabet).repeat(lo, hi),
        }
    }
}

/// The automaton of the first `k` parts of `list`, one after the other.
pub open spec fn concat_nfa<V>(list: Seq<Expr<V>>, alphabet: Set<V>, k: nat) -> NfaModel<V>
    decreases list, k,
{
    if k == 0 || k > list.len() {
        NfaModel::empty_word(alphabet)
    } else {
        concat_nfa(list, alphabet, (k - 1) as nat).concatenate(list[k - 1].nfa(alphabet))
    }
}

/// The automaton of the first `k` alternatives of `list`.
pub open spec fn union_nfa<V>(list: Seq<Expr<V>>, alphabet: Set<V>, k: nat) -> NfaModel<V>
    decreases list, k,
{
    if k == 0 || k > list.len() {
        NfaModel::empty(alphabet)
    } else {
        union_nfa(list, alphabet, (k - 1) as nat).unite(list[k - 1].nfa(alphabet))
    }
}

/// The trees that a list of expressions holds.
pub open spec fn views<V>(list: Seq<Operations<V>>) -> Seq<Expr<V>>
    decreases list,
{
    Seq::new(
        list.len(),
        |i: int|
            if 0 <= i < list.len() {
                list[i].view()
            } else {
                Expr::Epsilon
            },
    )
}

impl<V: Eq + Hash + Copy> Operations<V> {
    /// The automaton for the words over `alphabet` that the expression
    /// denotes.
    pub fn to_nfa(&self, alphabet: &HashSet<V>) -> (r: NFA<V>)
        requires
            obeys_key_model::<V>(),
        ensures
            r@ == self@.nfa(alphabet@),
            forall|w: Seq<V>| r@.accepts(w) == (#[trigger] (self@.language(alphabet@))(w)),
        decreases self,
    {
        proof {
            assert forall|w: Seq<V>|
                self@.nfa(alphabet@).accepts(w) == (#[trigger] (self@.language(alphabet@))(w)) by {
                crate::semantics::law_regex_language(self@, alphabet@, w);
            }
        }
        match self {
            Operations::Epsilon => NFA::new_empty_word(copy_set(alphabet)),
            Operations::Dot => NFA::new_length(copy_set(alphabet), 1),
            Operations::Letter(v) => {
                let mut word: Vec<V> = Vec::new();
                word.push(*v);
                assert(word@ =~= seq![*v]);
                NFA::new_matching(copy_set(alphabet), &word)
            },
            Operations::Concat(list) => {
                let ghost parts = views(list@);
                let mut acc = NFA::new_empty_word(copy_set(alphabet));
                let mut k: usize = 0;
                while k < list.len()
                    invariant
                        obeys_key_model::<V>(),
                        *self is Concat,
                        self->Concat_0 == *list,
                        parts == views(list@),
                        k <= list@.len(),
                        acc@ == concat_nfa(parts, alphabet@, k as nat),
                    decreases list@.len() - k,
                {
                    proof {
                        vstd::std_specs::vec::axiom_vec_index_decreases(*list, k as int);
                        assert(decreases_to!(self => *list));
                        assert(decreases_to!(*list => list[k as int]));
                        assert(decreases_to!(self => list[k as int]));
                    }
                    let part = list[k].to_nfa(alphabet);
                    acc = acc.concatenate(part);
                    k += 1;
                }
                acc
            },
            Operations::Union(list) => {
                let ghost parts = views(list@);
                let mut acc = NFA::new_empty(copy_set(alphabet));
                let mut k: usize = 0;
                while k < list.len()
                    invariant
                        obeys_key_model::<V>(),
                        *self is Union,
                        self->Union_0 == *list,
                        parts == views(list@),
                        k <= list@.len(),
                        acc@ == union_nfa(parts, alphabet@, k as nat),
                    decreases list@.len() - k,
                {
                    proof {
                        vstd::std_specs::vec::axiom_vec_index_decreases(*list, k as int);
                        assert(decreases_to!(self => *list));
                        assert(decreases_to!(*list => list[k as int]));
                        assert(decreases_to!(self => list[k as int]));
                    }
                    let part = list[k].to_nfa(alphabet);
                    acc = acc.unite(part);
                    k += 1;
                }
                acc
            },
            Operations::Repeat(sub, lo, hi) => {
                let inner = sub.to_nfa(alphabet);
                inner.repeat(*lo, *hi)
            },
        }
    }
}

/// A regular expression together with the alphabet over which it is read.
pub struct Regex<V: Eq + Hash + Copy> {
    pub(crate) alphabet: HashSet<V>,
    pub(crate) regex: Operations<V>,
}

impl<V: Eq + Hash + Copy> Regex<V> {
    /// The alphabet over which the expression is read.
    pub closed spec fn symbols(&self) -> Set<V> {
        self.alphabet@
    }

    /// The tree of the expression.
    pub closed spec fn expr(&self) -> Expr<V> {
        self.regex@
    }

    /// The automaton of the expression.
    pub open spec fn view(&self) -> NfaModel<V> {
        self.expr().nfa(self.symbols())
    }

    /// What holds of every value: the symbols hash consistently.
    #[verifier::type_invariant]
    pub closed spec fn inv(&self) -> bool {
        obeys_key_model::<V>()
    }

    /// The expression `regex` read over `alphabet`.
    pub fn new(alphabet: HashSet<V>, regex: Operations<V>) -> (r: Regex<V>)
        requires
            obeys_key_model::<V>(),
        ensures
            r.symbols() == alphabet@,
            r.expr() == regex@,
    {
        Regex { alphabet, regex }
    }
}

impl Regex<char> {
    /// The expression that the text `s` spells out, read over `alphabet`; the
    /// message of the parser where the text is no expression.
    pub fn parse(alphabet: HashSet<char>, s: &str) -> (r: Result<Regex<char>, String>)
        requires
            obeys_key_model::<char>(),
        ensures
            match r {
                Ok(x) => spec_parse(lex(s@)) == Ok::<Expr<char>, Seq<char>>(x.expr()) && x.symbols()
                    == alphabet@,
                Err(e) => spec_parse(lex(s@)) == Err::<Expr<char>, Seq<char>>(e@),
            },
    {
        match parse(s) {
            Ok(tree) => Ok(Regex::new(alphabet, tree)),
            Err(e) => Err(e),
        }
    }
}

impl<V: Eq + Hash + Copy> ToNfa<V> for Regex<V> {
    open spec fn as_nfa(&self) -> NfaModel<V> {
        self@
    }

    /// The automaton for the words that the expression denotes.
    fn to_nfa(&self) -> (r: NFA<V>)
        ensures
            forall|w: Seq<V>| r@.accepts(w) == (#[trigger] (self.expr().language(self.symbols()))(w)),
    {
        proof {
            use_type_invariant(self);
        }
        self.regex.to_nfa(&self.alphabet)
    }
}

} // verus!
