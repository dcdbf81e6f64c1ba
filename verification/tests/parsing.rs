use std::collections::VecDeque;

use automata::parser::{
    parse, peak, read_concat, read_letter, read_paren, read_quantif, read_union, tokens, Token,
};
use automata::regex::Operations;

fn letter(c: char) -> Operations<char> {
    Operations::Letter(c)
}

fn star(o: Operations<char>) -> Operations<char> {
    Operations::Repeat(Box::new(o), 0, None)
}

fn plus(o: Operations<char>) -> Operations<char> {
    Operations::Repeat(Box::new(o), 1, None)
}

fn opt(o: Operations<char>) -> Operations<char> {
    Operations::Repeat(Box::new(o), 0, Some(1))
}

#[test]
fn tokens_classify_every_character() {
    let ts = tokens("|().*?+\u{1d700}a ");
    let kinds: Vec<Token> = ts.iter().map(|t| t.0).collect();
    assert_eq!(
        kinds,
        vec![
            Token::Union,
            Token::Lpar,
            Token::Rpar,
            Token::Dot,
            Token::Kleene,
            Token::Question,
            Token::Plus,
            Token::Epsilon,
            Token::Letter,
            Token::Letter,
        ]
    );
    let texts: Vec<&str> = ts.iter().map(|t| t.1).collect();
    assert_eq!(texts, vec!["|", "(", ")", ".", "*", "?", "+", "\u{1d700}", "a", " "]);
}

#[test]
fn tokens_of_the_empty_text() {
    assert!(tokens("").is_empty());
}

#[test]
fn tokens_keep_characters_of_several_bytes_whole() {
    let ts = tokens("é\u{1d700}z");
    assert_eq!(ts.len(), 3);
    assert_eq!(ts[0], (Token::Letter, "é"));
    assert_eq!(ts[1], (Token::Epsilon, "\u{1d700}"));
    assert_eq!(ts[2], (Token::Letter, "z"));
}

#[test]
fn peak_leaves_the_queue_alone() {
    let mut ts = tokens("(a");
    assert_eq!(peak(&mut ts), Some(Token::Lpar));
    assert_eq!(ts.len(), 2);
    let mut none: VecDeque<(Token, &str)> = VecDeque::new();
    assert_eq!(peak(&mut none), None);
}

#[test]
fn a_single_letter_collapses() {
    assert_eq!(parse("a"), Ok(letter('a')));
}

#[test]
fn concatenation_binds_tighter_than_union() {
    assert_eq!(
        parse("ab|c"),
        Ok(Operations::Union(vec![Operations::Concat(vec![letter('a'), letter('b')]), letter('c')]))
    );
}

#[test]
fn quantifiers_bind_tighter_than_concatenation() {
    assert_eq!(parse("ab*"), Ok(Operations::Concat(vec![letter('a'), star(letter('b'))])));
}

#[test]
fn quantifiers_apply_from_left_to_right() {
    assert_eq!(parse("a*?"), Ok(opt(star(letter('a')))));
    assert_eq!(parse("a+*"), Ok(star(plus(letter('a')))));
}

#[test]
fn parentheses_group_a_union() {
    assert_eq!(
        parse("(a|b)+"),
        Ok(plus(Operations::Union(vec![letter('a'), letter('b')])))
    );
}

#[test]
fn dot_and_epsilon_are_leaves() {
    assert_eq!(
        parse(".\u{1d700}"),
        Ok(Operations::Concat(vec![Operations::Dot, Operations::Epsilon]))
    );
}

#[test]
fn the_empty_text_is_an_empty_concatenation() {
    assert_eq!(parse(""), Ok(Operations::Concat(vec![])));
    assert_eq!(
        parse("a|"),
        Ok(Operations::Union(vec![letter('a'), Operations::Concat(vec![])]))
    );
}

#[test]
fn a_quantifier_needs_an_operand() {
    assert_eq!(parse("*a"), Err("Unexpected *".to_string()));
    assert_eq!(parse("a|+"), Err("Unexpected +".to_string()));
    assert_eq!(parse("(?)"), Err("Unexpected ?".to_string()));
}

#[test]
fn a_parenthesis_must_be_closed() {
    assert_eq!(parse("(a"), Err("Expected right parenthesis, found end of input".to_string()));
    assert_eq!(parse("(a|b"), Err("Expected right parenthesis, found end of input".to_string()));
}

#[test]
fn a_dangling_token_is_refused() {
    assert_eq!(parse("a)"), Err("Unexpected )".to_string()));
    assert_eq!(parse("ab)c"), Err("Unexpected )".to_string()));
}

#[test]
fn read_paren_wants_a_left_parenthesis() {
    let mut ts = tokens("a)");
    assert_eq!(read_paren(&mut ts), Err("Expected left parenthesis, found a".to_string()));
    assert_eq!(ts.len(), 2);
    let mut ts = tokens("(ab)*c");
    assert_eq!(
        read_paren(&mut ts),
        Ok(star(Operations::Concat(vec![letter('a'), letter('b')])))
    );
    assert_eq!(ts.len(), 1);
}

#[test]
fn read_letter_wants_a_letter() {
    let mut ts = tokens(")");
    assert_eq!(read_letter(&mut ts), Err("Expected letter, found )".to_string()));
    assert_eq!(ts.len(), 1);
    let mut ts = tokens("");
    assert_eq!(read_letter(&mut ts), Err("Expected letter, found end of input".to_string()));
    let mut ts = tokens("a+b");
    assert_eq!(read_letter(&mut ts), Ok(plus(letter('a'))));
    assert_eq!(ts.len(), 1);
}

#[test]
fn read_quantif_wraps_what_it_is_given() {
    let mut ts = tokens("?*a");
    assert_eq!(read_quantif(&mut ts, letter('x')), star(opt(letter('x'))));
    assert_eq!(ts.len(), 1);
    let mut ts = tokens("a");
    assert_eq!(read_quantif(&mut ts, letter('x')), letter('x'));
    assert_eq!(ts.len(), 1);
}

#[test]
fn read_concat_stops_at_a_bar() {
    let mut ts = tokens("ab|c");
    assert_eq!(read_concat(&mut ts), Ok(Operations::Concat(vec![letter('a'), letter('b')])));
    assert_eq!(ts.len(), 2);
}

#[test]
fn read_concat_refuses_an_error_token() {
    let mut ts: VecDeque<(Token, &str)> = VecDeque::new();
    ts.push_back((Token::Letter, "a"));
    ts.push_back((Token::Error, "#"));
    assert_eq!(read_concat(&mut ts), Err("Unexpected #".to_string()));
}

#[test]
fn read_concat_stops_at_an_end_token() {
    let mut ts: VecDeque<(Token, &str)> = VecDeque::new();
    ts.push_back((Token::Letter, "a"));
    ts.push_back((Token::End, "$"));
    assert_eq!(read_concat(&mut ts), Ok(letter('a')));
    assert_eq!(ts.len(), 1);
}

#[test]
fn read_union_stops_at_a_right_parenthesis() {
    let mut ts = tokens("a|b)c");
    assert_eq!(read_union(&mut ts), Ok(Operations::Union(vec![letter('a'), letter('b')])));
    assert_eq!(ts.len(), 2);
}

#[test]
fn a_message_names_the_token_that_was_found() {
    let mut ts = tokens("b)");
    assert_eq!(read_paren(&mut ts), Err("Expected left parenthesis, found b".to_string()));
    assert_eq!(ts.len(), 2);
    let mut ts = tokens("");
    assert_eq!(read_paren(&mut ts), Err("Expected left parenthesis, found end of input".to_string()));
    let mut ts: VecDeque<(Token, &str)> = VecDeque::new();
    ts.push_back((Token::Lpar, "("));
    ts.push_back((Token::Letter, "a"));
    ts.push_back((Token::End, "$"));
    assert_eq!(read_paren(&mut ts), Err("Expected right parenthesis, found $".to_string()));
    assert_eq!(ts.len(), 1);
    let mut ts = tokens("|");
    assert_eq!(read_letter(&mut ts), Err("Expected letter, found |".to_string()));
}
