//! Finite automata over an arbitrary alphabet.
//!
//! The crate holds non-deterministic automata ([`nfa::NFA`]) and
//! deterministic automata ([`dfa::DFA`]), the operations of the algebra of
//! regular languages on them ([`nfa`], [`algebra`], [`range`]), the decision
//! of emptiness, containment and equality of their languages, minimisation,
//! and a parser for regular expressions ([`parser`], [`regex`]).
//!
//! Every executable function has a contract over the mathematical automata
//! of [`model`]. What the operations mean for the accepted words is proved
//! in [`laws`], [`mirror`], [`products`], [`pruning`] and [`semantics`].
//!
//! The symbols of an alphabet are held in hash sets and hash maps, so their
//! hashing has to be consistent with their equality; the constructors ask
//! for that.

pub mod algebra;
pub mod automaton;
pub mod bits;
pub mod compare;
pub mod determinize;
pub mod dfa;
pub mod laws;
pub mod lemmas;
pub mod mirror;
pub mod model;
pub mod nfa;
pub mod order;
pub mod parser;
pub mod products;
pub mod pruning;
pub mod range;
pub mod reach;
pub mod regex;
pub mod semantics;
pub mod table;
pub mod utils;
