use std::cmp::Ordering;
use std::collections::HashSet;

use automata::automaton::Automaton;
use automata::dfa::{ToDfa, DFA};
use automata::nfa::{ToNfa, NFA};
use automata::parser::parse;
use automata::range::Limit;
use automata::regex::{Operations, Regex};

fn sigma() -> HashSet<char> {
    let mut s = HashSet::new();
    s.insert('a');
    s.insert('b');
    s
}

fn w(s: &str) -> Vec<char> {
    s.chars().collect()
}

fn nfa(s: &str) -> NFA<char> {
    Regex::new(sigma(), parse(s).unwrap()).to_nfa()
}

fn dfa(s: &str) -> DFA<char> {
    nfa(s).to_dfa()
}

fn all_words(len: usize) -> Vec<Vec<char>> {
    let mut all: Vec<Vec<char>> = vec![Vec::new()];
    let mut last: Vec<Vec<char>> = vec![Vec::new()];
    for _ in 0..len {
        let mut next = Vec::new();
        for x in &last {
            for c in ['a', 'b'] {
                let mut y = x.clone();
                y.push(c);
                next.push(y);
            }
        }
        all.extend(next.iter().cloned());
        last = next;
    }
    all
}

#[test]
fn the_empty_automaton_accepts_nothing() {
    let n = NFA::new_empty(sigma());
    assert_eq!(n.size(), 0);
    assert!(n.is_empty());
    assert!(!n.is_full());
    assert!(!n.is_complete());
    for x in all_words(3) {
        assert!(!n.run(&x));
    }
    assert!(!n.to_dfa().run(&w("")));
    assert_eq!(n.to_dfa().size(), 1);
}

#[test]
fn the_full_automaton_accepts_everything() {
    let n = NFA::new_full(sigma());
    assert_eq!(n.size(), 1);
    assert!(n.is_full());
    assert!(n.is_complete());
    assert!(!n.is_empty());
    for x in all_words(3) {
        assert!(n.run(&x));
    }
    assert!(!n.run(&w("ac")));
}

#[test]
fn the_empty_word_automaton() {
    let n = NFA::new_empty_word(sigma());
    assert!(n.run(&w("")));
    assert!(!n.run(&w("a")));
    assert!(n.is_full());
    assert!(!n.is_complete());
}

#[test]
fn the_length_automaton_has_a_chain_of_states() {
    let n = NFA::new_length(sigma(), 3);
    assert_eq!(n.size(), 4);
    assert_eq!(n.initial_states(), vec![0]);
    assert_eq!(n.final_states(), vec![3]);
    assert_eq!(n.edges().len(), 6);
    for x in all_words(5) {
        assert_eq!(n.run(&x), x.len() == 3);
    }
}

#[test]
fn the_matching_automaton_accepts_one_word() {
    let n = NFA::new_matching(sigma(), &w("abba"));
    assert_eq!(n.size(), 5);
    let mut edges = n.edges();
    edges.sort();
    assert_eq!(edges, vec![(0, 'a', 1), (1, 'b', 2), (2, 'b', 3), (3, 'a', 4)]);
    for x in all_words(5) {
        assert_eq!(n.run(&x), x == w("abba"));
    }
}

#[test]
fn a_letter_outside_the_alphabet_is_lost_by_determinising() {
    let n = NFA::new_matching(sigma(), &w("ac"));
    assert!(n.run(&w("ac")));
    assert!(!n.to_dfa().run(&w("ac")));
}

#[test]
fn unite_accepts_both_languages() {
    let u = nfa("ab").unite(nfa("b*"));
    assert_eq!(u.size(), nfa("ab").size() + nfa("b*").size());
    for x in all_words(4) {
        assert_eq!(u.run(&x), nfa("ab").run(&x) || nfa("b*").run(&x));
    }
}

#[test]
fn unite_is_commutative_and_associative_for_the_language() {
    let (a, b, c) = ("ab*", "(a|b)a", "b?");
    let ab = nfa(a).unite(nfa(b));
    let ba = nfa(b).unite(nfa(a));
    let ab_c = nfa(a).unite(nfa(b)).unite(nfa(c));
    let a_bc = nfa(a).unite(nfa(b).unite(nfa(c)));
    for x in all_words(4) {
        assert_eq!(ab.run(&x), ba.run(&x));
        assert_eq!(ab_c.run(&x), a_bc.run(&x));
    }
    assert!(ab.eq(&ba));
    assert!(ab_c.eq(&a_bc));
}

#[test]
fn concatenate_accepts_a_word_of_each_in_turn() {
    let c = NFA::new_matching(sigma(), &w("ab")).concatenate(NFA::new_matching(sigma(), &w("ba")));
    assert_eq!(c.size(), 6);
    for x in all_words(5) {
        assert_eq!(c.run(&x), x == w("abba"));
    }
    let d = nfa("a*").concatenate(nfa("b?"));
    for x in all_words(4) {
        let n = x.len();
        let expected = x.iter().take(n.saturating_sub(1)).all(|c| *c == 'a')
            && (n == 0 || x[..n - 1].iter().all(|c| *c == 'a'));
        assert_eq!(d.run(&x), expected);
    }
}

#[test]
fn concatenate_with_the_empty_word() {
    let left = NFA::new_empty_word(sigma()).concatenate(NFA::new_matching(sigma(), &w("ab")));
    let right = NFA::new_matching(sigma(), &w("ab")).concatenate(NFA::new_empty_word(sigma()));
    for x in all_words(3) {
        assert_eq!(left.run(&x), x == w("ab"));
        assert_eq!(right.run(&x), x == w("ab"));
    }
}

#[test]
fn kleene_accepts_repetitions() {
    let k = NFA::new_matching(sigma(), &w("ab")).kleene();
    assert_eq!(k.size(), 4);
    assert_eq!(k.initial_states(), vec![3]);
    for x in all_words(6) {
        let expected = x.len() % 2 == 0 && x.chunks(2).all(|c| c == ['a', 'b']);
        assert_eq!(k.run(&x), expected);
    }
}

#[test]
fn at_most_bounds_the_repetitions_from_above() {
    let n = NFA::new_matching(sigma(), &w("a")).at_most(2);
    for x in all_words(4) {
        assert_eq!(n.run(&x), x.len() <= 2 && x.iter().all(|c| *c == 'a'));
    }
    let zero = NFA::new_matching(sigma(), &w("a")).at_most(0);
    assert!(zero.run(&w("")));
    assert!(!zero.run(&w("a")));
}

#[test]
fn at_least_bounds_the_repetitions_from_below() {
    let n = NFA::new_matching(sigma(), &w("a")).at_least(2);
    for x in all_words(5) {
        assert_eq!(n.run(&x), x.len() >= 2 && x.iter().all(|c| *c == 'a'));
    }
}

#[test]
fn repeat_takes_both_bounds() {
    let n = NFA::new_matching(sigma(), &w("ab")).repeat(1, Some(2));
    for x in all_words(6) {
        assert_eq!(n.run(&x), x == w("ab") || x == w("abab"));
    }
    let open = NFA::new_matching(sigma(), &w("b")).repeat(1, None);
    for x in all_words(4) {
        assert_eq!(open.run(&x), !x.is_empty() && x.iter().all(|c| *c == 'b'));
    }
    let exact = NFA::new_matching(sigma(), &w("b")).repeat(2, Some(2));
    for x in all_words(4) {
        assert_eq!(exact.run(&x), x == w("bb"));
    }
}

#[test]
fn repeat_with_bounds_out_of_order_accepts_nothing() {
    let n = NFA::new_matching(sigma(), &w("a")).repeat(3, Some(2));
    assert_eq!(n.size(), 0);
    assert!(n.is_empty());
    let tree = Operations::Repeat(Box::new(Operations::Letter('a')), 2, Some(1));
    let d = Regex::new(sigma(), tree).to_nfa().to_dfa();
    for x in all_words(4) {
        assert!(!d.run(&x));
    }
}

#[test]
fn reverse_mirrors_the_words() {
    let r = nfa("ab*").reverse();
    for x in all_words(4) {
        let mut m = x.clone();
        m.reverse();
        assert_eq!(r.run(&x), nfa("ab*").run(&m));
    }
}

#[test]
fn reverse_twice_gives_the_language_back() {
    let n = nfa("(ab|b)*a");
    let rr = nfa("(ab|b)*a").reverse().reverse();
    assert_eq!(rr.size(), n.size());
    let mut e1 = rr.edges();
    let mut e2 = n.edges();
    e1.sort();
    e1.dedup();
    e2.sort();
    e2.dedup();
    assert_eq!(e1, e2);
    for x in all_words(4) {
        assert_eq!(rr.run(&x), n.run(&x));
    }
    let d = dfa("(ab|b)*a");
    assert!(d.clone().reverse().reverse().eq(&d));
}

#[test]
fn complete_adds_one_sink() {
    let n = NFA::new_matching(sigma(), &w("ab"));
    assert!(!n.is_complete());
    let c = n.complete();
    assert_eq!(c.size(), 4);
    assert!(c.is_complete());
    for x in all_words(4) {
        assert_eq!(c.run(&x), x == w("ab"));
    }
    let again = c.clone().complete();
    assert_eq!(again.size(), 4);
}

#[test]
fn complete_gives_an_automaton_without_initial_state_one() {
    let c = NFA::new_empty(sigma()).complete();
    assert_eq!(c.size(), 1);
    assert_eq!(c.initial_states(), vec![0]);
    assert!(c.is_complete());
    assert!(c.is_empty());
}

#[test]
fn make_reachable_drops_what_no_word_reaches() {
    let n = NFA::new_matching(sigma(), &w("a")).concatenate(NFA::new_matching(sigma(), &w("b")));
    assert_eq!(n.size(), 4);
    assert!(!n.is_reachable());
    let r = n.make_reachable();
    assert_eq!(r.size(), 3);
    assert!(r.is_reachable());
    let mut edges = r.edges();
    edges.sort();
    assert_eq!(edges, vec![(0, 'a', 1), (1, 'b', 2)]);
    assert_eq!(r.initial_states(), vec![0]);
    assert_eq!(r.final_states(), vec![2]);
    for x in all_words(3) {
        assert_eq!(r.run(&x), x == w("ab"));
    }
}

#[test]
fn make_reachable_numbers_the_states_as_it_finds_them() {
    let n = NFA::new_matching(sigma(), &w("ab")).reverse();
    assert_eq!(n.initial_states(), vec![2]);
    let r = n.make_reachable();
    assert_eq!(r.size(), 3);
    assert_eq!(r.initial_states(), vec![0]);
    assert_eq!(r.final_states(), vec![2]);
    let mut edges = r.edges();
    edges.sort();
    assert_eq!(edges, vec![(0, 'b', 1), (1, 'a', 2)]);
    assert!(r.run(&w("ba")));
    assert!(!r.run(&w("ab")));
}

#[test]
fn containment_carries_over() {
    let (a, b, c) = ("(a|b)*", "a*b*", "a?b");
    assert!(nfa(a).contains(&nfa(b)));
    assert!(nfa(b).contains(&nfa(c)));
    assert!(nfa(a).contains(&nfa(c)));
    assert!(nfa("a*").contains(&nfa("aa*|\u{1d700}")) && nfa("aa*|\u{1d700}").contains(&nfa("a*")));
    assert!(nfa("a*").eq(&nfa("aa*|\u{1d700}")));
}

#[test]
fn operators_by_name() {
    let sum = dfa("a").add(dfa("b"));
    let product = dfa("a").mul(dfa("b"));
    let negative = dfa("a").neg();
    let opposite = dfa("ab").not();
    let difference = dfa("a|b").sub(dfa("b"));
    for x in all_words(3) {
        assert_eq!(sum.run(&x), x == w("a") || x == w("b"));
        assert_eq!(product.run(&x), x == w("ab"));
        assert_eq!(negative.run(&x), x != w("a"));
        assert_eq!(opposite.run(&x), x == w("ba"));
        assert_eq!(difference.run(&x), x == w("a"));
    }
}

#[test]
fn make_coreachable_drops_dead_ends() {
    let n = NFA::new_matching(sigma(), &w("ab")).complete();
    assert!(!n.is_coreachable());
    assert!(!n.is_trimmed());
    let c = n.make_coreachable();
    assert_eq!(c.size(), 3);
    assert!(c.is_coreachable());
    for x in all_words(3) {
        assert_eq!(c.run(&x), x == w("ab"));
    }
}

#[test]
fn trim_keeps_the_states_on_accepting_paths() {
    let n = NFA::new_matching(sigma(), &w("a"))
        .concatenate(NFA::new_matching(sigma(), &w("b")))
        .complete();
    let t = n.trim();
    assert_eq!(t.size(), 3);
    assert!(t.is_trimmed());
    for x in all_words(3) {
        assert_eq!(t.run(&x), x == w("ab"));
    }
}

#[test]
fn is_full_wants_every_reachable_state_final() {
    assert!(nfa("(a|b)*").to_dfa().is_full());
    assert!(!nfa("a*").complete().is_full());
    assert!(!nfa("a").is_full());
}

#[test]
fn a_deterministic_automaton_runs_like_its_source() {
    for s in ["a|b", "ab*", "(a|b)+", "a?b", "(ab|ba)*", "a.b|b"] {
        let n = nfa(s);
        let d = n.to_dfa();
        for x in all_words(5) {
            assert_eq!(d.run(&x), n.run(&x), "{} on {:?}", s, x);
        }
    }
}

#[test]
fn the_subset_automaton_is_reachable_and_numbered_breadth_first() {
    for s in ["(a|b)*abb", "(ab|ba)*(a|b)?", "a(a|b)(a|b)(a|b)", "(a|b)*a(a|b)(a|b)"] {
        let d = dfa(s);
        assert!(d.is_reachable());
        let edges = d.to_nfa().edges();
        for j in 1..d.size() {
            assert!(edges.iter().any(|e| e.0 < j && e.2 == j));
        }
        for (i, _, t) in &edges {
            for j in 1..*t {
                assert!(edges.iter().any(|e| e.0 <= *i && e.2 == j));
            }
        }
    }
    assert_eq!(dfa("(a|b)*abb").minimize().size(), 4);
    assert_eq!(dfa("(a|b)*a(a|b)(a|b)").minimize().size(), 8);
}

#[test]
fn new_empty_dfa() {
    let d = DFA::new_empty(&sigma());
    assert_eq!(d.size(), 1);
    assert!(d.is_empty());
    assert!(!d.is_complete());
    assert!(!d.run(&w("")));
}

#[test]
fn complete_dfa_adds_a_sink() {
    let d = dfa("ab");
    assert!(!d.is_complete());
    let n = d.size();
    let c = d.complete();
    assert!(c.is_complete());
    assert_eq!(c.size(), n + 1);
    let again = c.clone().complete();
    assert_eq!(again.size(), n + 1);
    for x in all_words(3) {
        assert_eq!(c.run(&x), x == w("ab"));
    }
}

#[test]
fn negate_accepts_the_other_words() {
    let d = dfa("ab*");
    let g = d.clone().negate();
    for x in all_words(4) {
        assert_eq!(g.run(&x), !d.run(&x));
    }
    assert!(!g.run(&w("c")));
}

#[test]
fn negate_twice_gives_the_language_back() {
    let d = dfa("(a|b)*a").complete();
    let gg = d.clone().negate().negate();
    for x in all_words(4) {
        assert_eq!(gg.run(&x), d.run(&x));
    }
    assert!(gg.eq(&d));
}

#[test]
fn negate_of_an_nfa() {
    let mut n = nfa("a*");
    let g = n.negate();
    for x in all_words(3) {
        assert_eq!(g.run(&x), !x.iter().all(|c| *c == 'a'));
    }
}

#[test]
fn intersect_accepts_the_common_words() {
    let i = dfa("a(a|b)*").intersect(dfa("(a|b)*b"));
    for x in all_words(4) {
        assert_eq!(i.run(&x), x.first() == Some(&'a') && x.last() == Some(&'b'));
    }
    let j = nfa("a(a|b)*").intersect(nfa("(a|b)*b"));
    assert!(i.eq(&j));
}

#[test]
fn intersect_is_commutative_and_associative_for_the_language() {
    let (a, b, c) = ("a(a|b)*", "(a|b)*b", "(a|b)(a|b)(a|b)?");
    let ab = dfa(a).intersect(dfa(b));
    let ba = dfa(b).intersect(dfa(a));
    assert!(ab.eq(&ba));
    let ab_c = dfa(a).intersect(dfa(b)).intersect(dfa(c));
    let a_bc = dfa(a).intersect(dfa(b).intersect(dfa(c)));
    assert!(ab_c.eq(&a_bc));
    for x in all_words(4) {
        assert_eq!(ab_c.run(&x), x.len() >= 2 && x.len() <= 3 && x[0] == 'a' && x[x.len() - 1] == 'b');
    }
}

#[test]
fn an_automaton_and_its_complement() {
    let d = dfa("(ab)*");
    let nothing = d.clone().intersect(d.clone().negate());
    assert!(nothing.is_empty());
    let everything = d.clone().unite(d.clone().negate());
    for x in all_words(4) {
        assert!(everything.run(&x));
        assert!(!nothing.run(&x));
    }
    assert!(everything.eq(&NFA::new_full(sigma()).to_dfa()));
}

#[test]
fn operations_on_deterministic_automata() {
    let c = dfa("a").concatenate(dfa("b*"));
    let k = dfa("ab").kleene();
    let m = dfa("a").at_most(2);
    let l = dfa("a").at_least(1);
    let r = dfa("ab").repeat(1, Some(2));
    for x in all_words(4) {
        assert_eq!(c.run(&x), nfa("ab*").run(&x));
        assert_eq!(k.run(&x), nfa("(ab)*").run(&x));
        assert_eq!(m.run(&x), nfa("a?a?").run(&x));
        assert_eq!(l.run(&x), nfa("a+").run(&x));
        assert_eq!(r.run(&x), nfa("ab(ab)?").run(&x));
    }
    assert!(dfa("ab*").make_reachable().eq(&dfa("ab*")));
    assert!(dfa("ab*").complete().make_coreachable().eq(&dfa("ab*")));
    assert!(dfa("ab*").complete().trim().eq(&dfa("ab*")));
    assert!(dfa("ab*").is_reachable());
    assert!(dfa("ab*").is_coreachable());
    assert!(dfa("ab*").is_trimmed());
    assert!(!dfa("ab*").complete().is_trimmed());
    assert!(!dfa("ab*").is_full());
    assert!(!dfa("ab*").is_empty());
}

#[test]
fn contains_is_reflexive() {
    for s in ["a|b", "ab*", "(a|b)+", ""] {
        assert!(nfa(s).contains(&nfa(s)));
        assert!(dfa(s).contains(&dfa(s)));
    }
}

#[test]
fn contains_follows_the_languages() {
    assert!(nfa("(a|b)*").contains(&nfa("ab*")));
    assert!(!nfa("ab*").contains(&nfa("(a|b)*")));
    assert!(nfa("a*").contains(&nfa("a?")));
    assert!(nfa("a?").contains(&nfa("\u{1d700}")));
    assert!(nfa("a*").contains(&nfa("\u{1d700}")));
    assert!(!nfa("a").contains(&nfa("b")));
    assert!(dfa("(a|b)*").contains(&dfa("ab*")));
}

#[test]
fn contains_between_different_alphabets() {
    let mut only_a = HashSet::new();
    only_a.insert('a');
    let big = NFA::new_matching(sigma(), &w("a"));
    let small = NFA::new_matching(only_a, &w("a"));
    assert!(!big.contains(&small));
    assert!(small.contains(&big));
}

#[test]
fn equality_is_equality_of_languages() {
    assert!(nfa("(a|b)*").eq(&nfa("(a*b*)*")));
    assert!(!nfa("a*").eq(&nfa("a+")));
    assert!(dfa("a+").eq(&dfa("aa*")));
    assert!(nfa("a+").eq_dfa(&dfa("aa*")));
    assert!(dfa("a+").eq_nfa(&nfa("aa*")));
    let reg = Regex::new(sigma(), parse("a*a").unwrap());
    assert!(nfa("a+").eq_regex(&reg));
    assert!(dfa("a+").eq_regex(&reg));
    assert!(!dfa("a*").eq_regex(&reg));
}

#[test]
fn the_order_is_containment() {
    assert_eq!(dfa("a*").partial_cmp(&dfa("a+")), Some(Ordering::Greater));
    assert_eq!(dfa("a+").partial_cmp(&dfa("a*")), Some(Ordering::Less));
    assert_eq!(dfa("a+").partial_cmp(&dfa("aa*")), Some(Ordering::Equal));
    assert_eq!(dfa("a").partial_cmp(&dfa("b")), None);
    assert!(dfa("a*").gt(&dfa("a+")));
    assert!(dfa("a*").ge(&dfa("a+")));
    assert!(dfa("a*").ge(&dfa("a*")));
    assert!(!dfa("a*").gt(&dfa("a*")));
    assert!(dfa("a+").lt(&dfa("a*")));
    assert!(dfa("a+").le(&dfa("a*")));
    assert!(!dfa("a").le(&dfa("b")));
    assert!(!dfa("a").lt(&dfa("a")));
}

#[test]
fn automata_of_any_form_compare() {
    let forms = || {
        vec![
            Automaton::DFA(Box::new(dfa("a+"))),
            Automaton::NFA(Box::new(nfa("aa*"))),
            Automaton::REG(Box::new(Regex::new(sigma(), parse("a*a").unwrap()))),
        ]
    };
    for x in forms() {
        for y in forms() {
            assert!(x.eq(&y));
        }
        assert!(!x.eq(&Automaton::NFA(Box::new(nfa("a*")))));
        assert!(nfa("a+").eq_automaton(&x));
        assert!(dfa("a+").eq_automaton(&x));
        assert!(x.to_nfa().run(&w("aa")));
        assert!(!x.to_nfa().run(&w("")));
    }
}

#[test]
fn copies_are_equal() {
    let n = nfa("(ab|b)*");
    let c = n.clone();
    assert_eq!(c.size(), n.size());
    assert!(c.eq(&n));
    let d = n.to_dfa();
    assert!(d.to_dfa().eq(&d));
    assert_eq!(d.clone().size(), d.size());
    let mut alphabet: Vec<char> = d.alphabet().into_iter().collect();
    alphabet.sort();
    assert_eq!(alphabet, vec!['a', 'b']);
}

#[test]
fn large_automata_are_determinised_only_when_empty() {
    let long = NFA::new_length(sigma(), 200);
    assert_eq!(long.size(), 201);
    assert!(long.try_to_dfa().is_none());
    assert!(long.try_contains(&nfa("a")).is_none());
    assert!(nfa("a").try_contains(&long).is_none());
    assert!(long.try_eq(&long).is_none());
    let dead = NFA::new_length(sigma(), 200).concatenate(NFA::new_empty(sigma()));
    assert_eq!(dead.size(), 201);
    assert!(dead.is_empty());
    let d = dead.try_to_dfa().unwrap();
    assert_eq!(d.size(), 1);
    assert!(d.is_empty());
    assert_eq!(nfa("a*").try_contains(&dead), Some(true));
}

#[test]
fn the_safe_forms_agree_with_the_plain_ones() {
    let (a, b) = ("(a|b)*a", "a+");
    assert_eq!(nfa(a).try_contains(&nfa(b)), Some(true));
    assert_eq!(nfa(b).try_contains(&nfa(a)), Some(false));
    assert_eq!(nfa(a).try_eq(&nfa(b)), Some(false));
    assert_eq!(nfa(a).try_eq(&nfa("b*a(b*a)*|(a|b)*a")), Some(true));
    let d = nfa(a).try_to_dfa().unwrap();
    assert!(d.eq(&dfa(a)));
    let i = dfa(a).try_intersect(dfa(b)).unwrap();
    assert!(i.eq(&dfa(b)));
}

#[test]
fn labels_group_the_symbols_by_source_and_target() {
    let n = nfa("(a|b)a");
    let labels = n.labels();
    assert_eq!(labels.len(), n.size());
    let mut count = 0;
    for (source, targets) in labels.iter().enumerate() {
        for (target, symbols) in targets {
            assert!(!symbols.is_empty());
            for symbol in symbols {
                assert!(n.edges().contains(&(source, *symbol, *target)));
                count += 1;
            }
        }
    }
    let mut edges = n.edges();
    edges.sort();
    edges.dedup();
    assert_eq!(count, edges.len());
    let full = NFA::new_full(sigma()).labels();
    assert_eq!(full.len(), 1);
    assert_eq!(full[0].len(), 1);
    assert_eq!(full[0][&0], sigma());
}

#[test]
fn repeat_takes_the_ends_of_a_range() {
    let a = || NFA::new_matching(sigma(), &w("a"));
    let count = |n: &NFA<char>, k: usize| n.run(&vec!['a'; k]);
    let closed = a().repeat_range(Limit::Included(1), Limit::Included(2));
    let half_open = a().repeat_range(Limit::Included(1), Limit::Excluded(3));
    let after = a().repeat_range(Limit::Excluded(0), Limit::Included(2));
    let open = a().repeat_range(Limit::Included(2), Limit::Unbounded);
    let all = a().repeat_range(Limit::Unbounded, Limit::Unbounded);
    for k in 0..5 {
        assert_eq!(count(&closed, k), k == 1 || k == 2);
        assert_eq!(count(&half_open, k), k == 1 || k == 2);
        assert_eq!(count(&after, k), k == 1 || k == 2);
        assert_eq!(count(&open, k), k >= 2);
        assert!(count(&all, k));
    }
}

#[test]
fn a_range_without_numbers_accepts_nothing() {
    let a = || NFA::new_matching(sigma(), &w("a"));
    let none = a().repeat_range(Limit::Included(0), Limit::Excluded(0));
    assert_eq!(none.size(), 0);
    assert!(none.is_empty());
    let unbounded_start = a().repeat_range(Limit::Unbounded, Limit::Excluded(0));
    assert!(unbounded_start.is_empty());
    let backwards = a().repeat_range(Limit::Included(3), Limit::Excluded(3));
    assert!(backwards.is_empty());
    let one = a().repeat_range(Limit::Included(0), Limit::Excluded(1));
    assert!(one.run(&w("")));
    assert!(!one.run(&w("a")));
    let d = dfa("a").repeat_range(Limit::Included(1), Limit::Excluded(1));
    assert!(d.is_empty());
    let e = dfa("ab").repeat_range(Limit::Included(1), Limit::Excluded(3));
    for x in all_words(5) {
        assert_eq!(e.run(&x), x == w("ab") || x == w("abab"));
    }
}

#[test]
fn trimming_gives_a_trimmed_automaton_that_is_no_larger() {
    let n = NFA::new_matching(sigma(), &w("a"))
        .concatenate(NFA::new_matching(sigma(), &w("b")))
        .complete();
    let size = n.size();
    let t = n.clone().trim();
    assert!(t.is_reachable());
    assert!(t.is_coreachable());
    assert!(t.is_trimmed());
    assert!(t.size() <= size);
    let c = n.clone().make_coreachable();
    assert!(c.is_coreachable());
    assert!(c.size() <= size);
    let r = n.make_reachable();
    assert!(r.is_reachable());
    assert!(r.size() <= size);
}

#[test]
fn pruning_a_deterministic_automaton_keeps_its_language() {
    let d = dfa("ab*|b").complete();
    let pruned = [
        d.clone().try_make_reachable().unwrap(),
        d.clone().try_make_coreachable().unwrap(),
        d.clone().try_trim().unwrap(),
        d.clone().make_reachable(),
        d.clone().make_coreachable(),
        d.clone().trim(),
    ];
    for p in &pruned {
        for x in all_words(4) {
            assert_eq!(p.run(&x), d.run(&x));
        }
    }
}

#[test]
fn a_deterministic_automaton_accepts_words_over_its_alphabet_only() {
    let d = NFA::new_matching(sigma(), &w("ac")).to_dfa();
    assert!(!d.run(&w("ac")));
    let m = dfa("(a|b)*a").minimize();
    for x in all_words(4) {
        assert_eq!(m.run(&x), dfa("(a|b)*a").run(&x));
    }
    assert!(!m.run(&w("ca")));
    let back = dfa("a|b").to_nfa().to_dfa();
    for x in all_words(3) {
        assert_eq!(back.run(&x), x.len() == 1);
    }
}
