use std::collections::HashSet;

use automata::dfa::{ToDfa, DFA};
use automata::nfa::{ToNfa, NFA};
use automata::parser::parse;
use automata::regex::Regex;

fn ab() -> HashSet<char> {
    let mut s = HashSet::new();
    s.insert('a');
    s.insert('b');
    s
}

fn word(s: &str) -> Vec<char> {
    s.chars().collect()
}

fn compile(s: &str) -> DFA<char> {
    let tree = parse(s).unwrap();
    Regex::new(ab(), tree).to_nfa().to_dfa()
}

fn words_up_to(len: usize) -> Vec<Vec<char>> {
    let mut all: Vec<Vec<char>> = vec![Vec::new()];
    let mut last: Vec<Vec<char>> = vec![Vec::new()];
    for _ in 0..len {
        let mut next = Vec::new();
        for w in &last {
            for c in ['a', 'b'] {
                let mut x = w.clone();
                x.push(c);
                next.push(x);
            }
        }
        all.extend(next.iter().cloned());
        last = next;
    }
    all
}

#[test]
fn union_of_two_letters() {
    let d = compile("a|b");
    assert!(d.run(&word("a")));
    assert!(d.run(&word("b")));
    assert!(!d.run(&word("c")));
    assert!(!d.run(&word("ab")));
    assert!(!d.run(&word("")));
}

#[test]
fn letter_then_star() {
    let d = compile("ab*");
    assert!(d.run(&word("a")));
    assert!(d.run(&word("ab")));
    assert!(d.run(&word("abb")));
    assert!(!d.run(&word("")));
    assert!(!d.run(&word("b")));
}

#[test]
fn plus_of_a_union() {
    let d = compile("(a|b)+");
    for w in words_up_to(4) {
        assert_eq!(d.run(&w), !w.is_empty());
    }
}

#[test]
fn optional_letter() {
    let d = compile("a?b");
    assert!(d.run(&word("b")));
    assert!(d.run(&word("ab")));
    assert!(!d.run(&word("aab")));
    assert!(!d.run(&word("a")));
}

#[test]
fn words_of_length_two() {
    let d = NFA::new_length(ab(), 2).to_dfa();
    for w in words_up_to(4) {
        assert_eq!(d.run(&w), w.len() == 2);
    }
    assert!(!d.run(&word("ac")));
}

#[test]
fn minimize_drops_redundant_states() {
    let twice = NFA::new_matching(ab(), &word("ab")).unite(NFA::new_matching(ab(), &word("ab")));
    let chained = NFA::new_matching(ab(), &word("a")).concatenate(NFA::new_matching(ab(), &word("b")));
    assert!(!chained.is_reachable());
    for nfa in [twice, chained] {
        let m = nfa.to_dfa().minimize();
        assert_eq!(m.size(), 3);
        for w in words_up_to(3) {
            assert_eq!(m.run(&w), w == word("ab"));
        }
    }
}

#[test]
fn minimize_twice_is_minimize_once() {
    let d = compile("(a|b)*abb|a?");
    let once = d.clone().minimize();
    let twice = once.clone().minimize();
    assert_eq!(once.size(), twice.size());
    assert!(once.eq(&twice));
    assert!(once.eq(&d));
    for w in words_up_to(5) {
        assert_eq!(once.run(&w), d.run(&w));
        assert_eq!(twice.run(&w), d.run(&w));
    }
}

#[test]
fn try_minimize_gives_the_minimal_automaton() {
    let d = compile("(a|b)*a");
    let m = d.clone().try_minimize().unwrap();
    assert_eq!(m.size(), 2);
    assert!(m.eq(&d));
}

#[test]
fn dot_matches_any_symbol_of_the_alphabet() {
    let d = compile("a.b");
    assert!(d.run(&word("aab")));
    assert!(d.run(&word("abb")));
    assert!(!d.run(&word("acb")));
    assert!(!d.run(&word("ab")));
}

#[test]
fn epsilon_matches_the_empty_word() {
    let d = compile("\u{1d700}|ab");
    assert!(d.run(&word("")));
    assert!(d.run(&word("ab")));
    assert!(!d.run(&word("a")));
}

#[test]
fn the_empty_expression_matches_the_empty_word() {
    let d = compile("");
    assert!(d.run(&word("")));
    assert!(!d.run(&word("a")));
}

#[test]
fn dfa_to_nfa_and_back_keeps_the_language() {
    let d = compile("(ab|b)*a?");
    let back = d.to_nfa().to_dfa();
    assert!(back.eq(&d));
    for w in words_up_to(5) {
        assert_eq!(back.run(&w), d.run(&w));
    }
}

#[test]
fn a_regex_is_parsed_over_its_alphabet() {
    let r = Regex::parse(ab(), "(a|b)*abb").unwrap();
    let d = r.to_nfa().to_dfa();
    assert!(d.run(&word("ababb")));
    assert!(!d.run(&word("abab")));
    assert!(Regex::parse(ab(), "(a|b").is_err());
    assert_eq!(Regex::parse(ab(), "a)").err(), Some("Unexpected )".to_string()));
}
