//! The surface syntax of regular expressions: a tokenizer, and a parser by
//! recursive descent that builds the expression tree.
//!
//! ```text
//! Union   := Concat ('|' Concat)*
//! Concat  := (Letter | Paren)*
//! Paren   := '(' Union ')' Quantif
//! Letter  := ('.' | '𝜀' | any other character) Quantif
//! Quantif := ('*' | '+' | '?')*
//! ```

use std::collections::VecDeque;
use vstd::prelude::*;
use vstd::string::{StrSliceExecFns, StringExecFns};

use crate::regex::{views, Expr, Operations};

verus! {

/// The kinds of token.
#[derive(Debug, Clone, Copy, PartialEq, Eq, Structural)]
pub enum Token {
    End,
    Error,
    Union,
    Lpar,
    Rpar,
    Dot,
    Kleene,
    Question,
    Plus,
    Epsilon,
    Letter,
}

/// A token with the text it was read from.
pub type Lexeme = (Token, Seq<char>);

/// What a parsing function returns, as mathematical values: the tree or the
/// error message, and the tokens that are left.
pub type Parsed = (Result<Expr<char>, Seq<char>>, Seq<Lexeme>);

/// The kind of token that the character `c` makes.
pub open spec fn classify(c: char) -> Token {
    if c == '|' {
        Token::Union
    } else if c == '(' {
        Token::Lpar
    } else if c == ')' {
        Token::Rpar
    } else if c == '.' {
        Token::Dot
    } else if c == '*' {
        Token::Kleene
    } else if c == '?' {
        Token::Question
    } else if c == '+' {
        Token::Plus
    } else if c == '\u{1d700}' {
        Token::Epsilon
    } else {
        Token::Letter
    }
}

/// The tokens of a text: one for every character.
pub open spec fn lex(s: Seq<char>) -> Seq<Lexeme> {
    Seq::new(s.len(), |i: int| (classify(s[i]), seq![s[i]]))
}

/// The tokens of a queue as mathematical values.
pub open spec fn lexemes<'a>(ts: Seq<(Token, &'a str)>) -> Seq<Lexeme> {
    Seq::new(ts.len(), |i: int| (ts[i].0, ts[i].1@))
}

/// Every token carries at least one character.
pub open spec fn tokens_valid(ts: Seq<Lexeme>) -> bool {
    forall|i: int| 0 <= i < ts.len() ==> (#[trigger] ts[i]).1.len() > 0
}

/// The kind of the first token, if there is one.
pub open spec fn spec_peak(ts: Seq<Lexeme>) -> Option<Token> {
    if ts.len() > 0 {
        Some(ts[0].0)
    } else {
        None
    }
}

/// The token is one of `*`, `+`, `?`.
pub open spec fn is_quantifier(t: Token) -> bool {
    t == Token::Plus || t == Token::Kleene || t == Token::Question
}

/// The token starts a letter: `.`, `𝜀` or a plain character.
pub open spec fn starts_letter(t: Token) -> bool {
    t == Token::Dot || t == Token::Epsilon || t == Token::Letter
}

/// The expression `e` under the quantifier `t`.
pub open spec fn quantified(t: Token, e: Expr<char>) -> Expr<char> {
    if t == Token::Plus {
        Expr::Repeat(Box::new(e), 1, None)
    } else if t == Token::Kleene {
        Expr::Repeat(Box::new(e), 0, None)
    } else {
        Expr::Repeat(Box::new(e), 0, Some(1nat))
    }
}

/// A list of one expression stands for that expression.
pub open spec fn collapse_concat(list: Seq<Expr<char>>) -> Expr<char> {
    if list.len() == 1 {
        list[0]
    } else {
        Expr::Concat(list)
    }
}

/// A list of one alternative stands for that alternative.
pub open spec fn collapse_union(list: Seq<Expr<char>>) -> Expr<char> {
    if list.len() == 1 {
        list[0]
    } else {
        Expr::Union(list)
    }
}

/// What stands at the front of the tokens, for a message: the text of the
/// first token, or that the input has ended.
pub open spec fn found_text(ts: Seq<Lexeme>) -> Seq<char> {
    if ts.len() > 0 {
        ts[0].1
    } else {
        "end of input"@
    }
}

/// The message where a letter is missing and `found` stands instead.
pub open spec fn msg_letter(found: Seq<char>) -> Seq<char> {
    "Expected letter, found "@ + found
}

/// The message where a left parenthesis is missing and `found` stands
/// instead.
pub open spec fn msg_left(found: Seq<char>) -> Seq<char> {
    "Expected left parenthesis, found "@ + found
}

/// The message where a right parenthesis is missing and `found` stands
/// instead.
pub open spec fn msg_right(found: Seq<char>) -> Seq<char> {
    "Expected right parenthesis, found "@ + found
}

/// The message for a token that cannot stand where it stands.
pub open spec fn msg_unexpected(text: Seq<char>) -> Seq<char> {
    "Unexpected "@ + text.take(1)
}

/// `Quantif`: every quantifier at the front wraps the expression read so far.
pub open spec fn spec_quantif(ts: Seq<Lexeme>, e: Expr<char>) -> (Expr<char>, Seq<Lexeme>)
    decreases ts.len(),
{
    if ts.len() > 0 && is_quantifier(ts[0].0) {
        spec_quantif(ts.drop_first(), quantified(ts[0].0, e))
    } else {
        (e, ts)
    }
}

/// `Letter`.
pub open spec fn spec_letter(ts: Seq<Lexeme>) -> Parsed {
    if ts.len() == 0 || !starts_letter(ts[0].0) {
        (Err(msg_letter(found_text(ts))), ts)
    } else {
        let leaf = if ts[0].0 == Token::Dot {
            Expr::Dot
        } else if ts[0].0 == Token::Epsilon {
            Expr::Epsilon
        } else {
            Expr::Letter(ts[0].1[0])
        };
        let (e, rest) = spec_quantif(ts.drop_first(), leaf);
        (Ok(e), rest)
    }
}

/// `Paren`.
pub open spec fn spec_paren(ts: Seq<Lexeme>) -> Parsed
    decreases ts.len(), 1nat,
{
    if ts.len() == 0 || ts[0].0 != Token::Lpar {
        (Err(msg_left(found_text(ts))), ts)
    } else {
        let (inner, rest) = spec_union_items(ts.drop_first(), Seq::empty());
        match inner {
            Err(e) => (Err(e), rest),
            Ok(o) => if rest.len() == 0 || rest[0].0 != Token::Rpar {
                (Err(msg_right(found_text(rest))), rest)
            } else {
                let (e, rest2) = spec_quantif(rest.drop_first(), o);
                (Ok(e), rest2)
            },
        }
    }
}

/// `Concat`, with the parts read so far in `acc`. The tests on the number of
/// tokens that are left make the definition well founded; they always hold
/// (`lemma_letter_rest`, `lemma_paren_rest`).
pub open spec fn spec_concat_items(ts: Seq<Lexeme>, acc: Seq<Expr<char>>) -> Parsed
    decreases ts.len(), 2nat,
{
    if ts.len() == 0 {
        (Ok(collapse_concat(acc)), ts)
    } else if starts_letter(ts[0].0) {
        let (r, rest) = spec_letter(ts);
        match r {
            Err(e) => (Err(e), rest),
            Ok(o) => if rest.len() < ts.len() {
                spec_concat_items(rest, acc.push(o))
            } else {
                (Err(Seq::empty()), rest)
            },
        }
    } else if ts[0].0 == Token::Lpar {
        let (r, rest) = spec_paren(ts);
        match r {
            Err(e) => (Err(e), rest),
            Ok(o) => if rest.len() < ts.len() {
                spec_concat_items(rest, acc.push(o))
            } else {
                (Err(Seq::empty()), rest)
            },
        }
    } else if is_quantifier(ts[0].0) || ts[0].0 == Token::Error {
        (Err(msg_unexpected(ts[0].1)), ts)
    } else {
        (Ok(collapse_concat(acc)), ts)
    }
}

/// `Concat`.
pub open spec fn spec_concat(ts: Seq<Lexeme>) -> Parsed
    decreases ts.len(), 3nat,
{
    spec_concat_items(ts, Seq::empty())
}

/// `Union`, with the alternatives read so far in `acc`. The test on the
/// number of tokens that are left makes the definition well founded; it
/// always holds (`lemma_concat_rest`).
pub open spec fn spec_union_items(ts: Seq<Lexeme>, acc: Seq<Expr<char>>) -> Parsed
    decreases ts.len(), 4nat,
{
    let (r, rest) = spec_concat(ts);
    match r {
        Err(e) => (Err(e), rest),
        Ok(o) => if rest.len() > 0 && rest[0].0 == Token::Union {
            if rest.len() <= ts.len() {
                spec_union_items(rest.drop_first(), acc.push(o))
            } else {
                (Err(Seq::empty()), rest)
            }
        } else {
            (Ok(collapse_union(acc.push(o))), rest)
        },
    }
}

/// `Union`.
pub open spec fn spec_union(ts: Seq<Lexeme>) -> Parsed {
    spec_union_items(ts, Seq::empty())
}

/// A whole expression: a `Union` that leaves no token.
pub open spec fn spec_parse(ts: Seq<Lexeme>) -> Result<Expr<char>, Seq<char>> {
    let (r, rest) = spec_union(ts);
    match r {
        Err(e) => Err(e),
        Ok(o) => if rest.len() == 0 {
            Ok(o)
        } else {
            Err(msg_unexpected(rest[0].1))
        },
    }
}

/// What an executable parsing function returned, as mathematical values.
pub open spec fn outcome(r: Result<Operations<char>, String>) -> Result<Expr<char>, Seq<char>> {
    match r {
        Ok(o) => Ok(o@),
        Err(e) => Err(e@),
    }
}

/// The tokens that are left after the first.
proof fn lemma_lexemes_rest<'a>(ts: Seq<(Token, &'a str)>)
    requires
        ts.len() > 0,
    ensures
        lexemes(ts.subrange(1, ts.len() as int)) == lexemes(ts).drop_first(),
        tokens_valid(lexemes(ts)) ==> tokens_valid(lexemes(ts).drop_first()),
{
    assert(lexemes(ts.subrange(1, ts.len() as int)) =~= lexemes(ts).drop_first());
    if tokens_valid(lexemes(ts)) {
        assert forall|i: int| 0 <= i < lexemes(ts).drop_first().len() implies (
        #[trigger] lexemes(ts).drop_first()[i]).1.len() > 0 by {
            assert(lexemes(ts).drop_first()[i] == lexemes(ts)[i + 1]);
        }
    }
}

/// `Quantif` leaves valid tokens, and no more than it was given.
proof fn lemma_quantif_rest(ts: Seq<Lexeme>, e: Expr<char>)
    ensures
        spec_quantif(ts, e).1.len() <= ts.len(),
        tokens_valid(ts) ==> tokens_valid(spec_quantif(ts, e).1),
    decreases ts.len(),
{
    if ts.len() > 0 && is_quantifier(ts[0].0) {
        lemma_quantif_rest(ts.drop_first(), quantified(ts[0].0, e));
        if tokens_valid(ts) {
            assert forall|i: int| 0 <= i < ts.drop_first().len() implies (
            #[trigger] ts.drop_first()[i]).1.len() > 0 by {
                assert(ts.drop_first()[i] == ts[i + 1]);
            }
        }
    }
}

/// `Letter` leaves no more tokens than it was given, and fewer where it
/// succeeds.
pub proof fn lemma_letter_rest(ts: Seq<Lexeme>)
    ensures
        spec_letter(ts).1.len() <= ts.len(),
        spec_letter(ts).0 is Ok ==> spec_letter(ts).1.len() < ts.len(),
{
    if ts.len() > 0 && starts_letter(ts[0].0) {
        let leaf = if ts[0].0 == Token::Dot {
            Expr::Dot
        } else if ts[0].0 == Token::Epsilon {
            Expr::Epsilon
        } else {
            Expr::Letter(ts[0].1[0])
        };
        lemma_quantif_rest(ts.drop_first(), leaf);
    }
}

/// `Paren` leaves no more tokens than it was given, and fewer where it
/// succeeds.
pub proof fn lemma_paren_rest(ts: Seq<Lexeme>)
    ensures
        spec_paren(ts).1.len() <= ts.len(),
        spec_paren(ts).0 is Ok ==> spec_paren(ts).1.len() < ts.len(),
    decreases ts.len(), 1nat,
{
    if ts.len() > 0 && ts[0].0 == Token::Lpar {
        lemma_union_rest(ts.drop_first(), Seq::empty());
        let (inner, rest) = spec_union_items(ts.drop_first(), Seq::empty());
        match inner {
            Err(e) => {},
            Ok(o) => {
                if rest.len() > 0 && rest[0].0 == Token::Rpar {
                    lemma_quantif_rest(rest.drop_first(), o);
                }
            },
        }
    }
}

/// `Concat` leaves no more tokens than it was given.
pub proof fn lemma_concat_rest(ts: Seq<Lexeme>, acc: Seq<Expr<char>>)
    ensures
        spec_concat_items(ts, acc).1.len() <= ts.len(),
    decreases ts.len(), 2nat,
{
    if ts.len() == 0 {
    } else if starts_letter(ts[0].0) {
        lemma_letter_rest(ts);
        let (r, rest) = spec_letter(ts);
        match r {
            Err(e) => {},
            Ok(o) => {
                lemma_concat_rest(rest, acc.push(o));
            },
        }
    } else if ts[0].0 == Token::Lpar {
        lemma_paren_rest(ts);
        let (r, rest) = spec_paren(ts);
        match r {
            Err(e) => {},
            Ok(o) => {
                lemma_concat_rest(rest, acc.push(o));
            },
        }
    }
}

/// `Union` leaves no more tokens than it was given.
pub proof fn lemma_union_rest(ts: Seq<Lexeme>, acc: Seq<Expr<char>>)
    ensures
        spec_union_items(ts, acc).1.len() <= ts.len(),
    decreases ts.len(), 4nat,
{
    lemma_concat_rest(ts, Seq::empty());
    let (r, rest) = spec_concat(ts);
    match r {
        Err(e) => {},
        Ok(o) => {
            if rest.len() > 0 && rest[0].0 == Token::Union {
                lemma_union_rest(rest.drop_first(), acc.push(o));
            }
        },
    }
}

/// The kind of token that the character `c` makes.
fn classify_char(c: char) -> (t: Token)
    ensures
        t == classify(c),
{
    if c == '|' {
        Token::Union
    } else if c == '(' {
        Token::Lpar
    } else if c == ')' {
        Token::Rpar
    } else if c == '.' {
        Token::Dot
    } else if c == '*' {
        Token::Kleene
    } else if c == '?' {
        Token::Question
    } else if c == '+' {
        Token::Plus
    } else if c == '\u{1d700}' {
        Token::Epsilon
    } else {
        Token::Letter
    }
}

/// The tokens of `s`: one for every character, each with the slice that
/// holds the character.
pub fn tokens<'a>(s: &'a str) -> (r: VecDeque<(Token, &'a str)>)
    ensures
        lexemes(r@) == lex(s@),
        tokens_valid(lexemes(r@)),
{
    let n = s.unicode_len();
    let mut r: VecDeque<(Token, &'a str)> = VecDeque::new();
    let mut i: usize = 0;
    while i < n
        invariant
            n == s@.len(),
            i <= n,
            r@.len() == i,
            forall|j: int|
                0 <= j < i ==> (#[trigger] r@[j]).0 == classify(s@[j]) && r@[j].1@ == seq![s@[j]],
        decreases n - i,
    {
        let c = s.get_char(i);
        let slice = s.substring_char(i, i + 1);
        assert(slice@ =~= seq![s@[i as int]]);
        r.push_back((classify_char(c), slice));
        i += 1;
    }
    proof {
        assert(lexemes(r@) =~= lex(s@));
    }
    r
}

/// The kind of the first token, if there is one. The queue stays as it is.
pub fn peak<'a>(tokens: &mut VecDeque<(Token, &'a str)>) -> (r: Option<Token>)
    ensures
        final(tokens)@ == old(tokens)@,
        r == spec_peak(lexemes(old(tokens)@)),
{
    if tokens.len() > 0 {
        Some(tokens[0].0)
    } else {
        None
    }
}

/// The message for the token `slice` standing where it cannot stand.
fn unexpected(slice: &str) -> (r: String)
    requires
        slice@.len() > 0,
    ensures
        r@ == msg_unexpected(slice@),
{
    let first = slice.substring_char(0, 1);
    String::from_str("Unexpected ").concat(first)
}

/// The text of the first token of the queue, or that the input has ended.
fn found<'a>(tokens: &VecDeque<(Token, &'a str)>) -> (r: &'a str)
    ensures
        r@ == found_text(lexemes(tokens@)),
{
    if tokens.len() > 0 {
        tokens[0].1
    } else {
        "end of input"
    }
}

/// Reads `Quantif`: wraps `o` in the quantifiers at the front of the queue
/// and takes them from the queue.
pub fn read_quantif<'a>(tokens: &mut VecDeque<(Token, &'a str)>, o: Operations<char>) -> (r:
    Operations<char>)
    ensures
        (r@, lexemes(final(tokens)@)) == spec_quantif(lexemes(old(tokens)@), o@),
        tokens_valid(lexemes(old(tokens)@)) ==> tokens_valid(lexemes(final(tokens)@)),
        final(tokens)@.len() <= old(tokens)@.len(),
{
    let ghost start = o@;
    let mut o = o;
    let mut more = true;
    while more
        invariant
            tokens_valid(lexemes(old(tokens)@)) ==> tokens_valid(lexemes(tokens@)),
            tokens@.len() <= old(tokens)@.len(),
            spec_quantif(lexemes(tokens@), o@) == spec_quantif(lexemes(old(tokens)@), start),
            !more ==> spec_quantif(lexemes(tokens@), o@) == (o@, lexemes(tokens@)),
        decreases tokens@.len(), more as int,
    {
        let ghost before = tokens@;
        let next = peak(tokens);
        match next {
            Some(x) => {
                if x == Token::Plus {
                    o = Operations::Repeat(Box::new(o), 1, None);
                    tokens.pop_front();
                    proof {
                        lemma_lexemes_rest(before);
                    }
                } else if x == Token::Kleene {
                    o = Operations::Repeat(Box::new(o), 0, None);
                    tokens.pop_front();
                    proof {
                        lemma_lexemes_rest(before);
                    }
                } else if x == Token::Question {
                    o = Operations::Repeat(Box::new(o), 0, Some(1));
                    tokens.pop_front();
                    proof {
                        lemma_lexemes_rest(before);
                    }
                } else {
                    more = false;
                }
            },
            None => {
                more = false;
            },
        }
    }
    o
}

/// Reads `Letter`: `.`, `𝜀` or a plain character, and the quantifiers after
/// it.
pub fn read_letter<'a>(tokens: &mut VecDeque<(Token, &'a str)>) -> (r: Result<
    Operations<char>,
    String,
>)
    requires
        tokens_valid(lexemes(old(tokens)@)),
    ensures
        (outcome(r), lexemes(final(tokens)@)) == spec_letter(lexemes(old(tokens)@)),
        tokens_valid(lexemes(final(tokens)@)),
        final(tokens)@.len() <= old(tokens)@.len(),
        r is Ok ==> final(tokens)@.len() < old(tokens)@.len(),
{
    let ghost before = tokens@;
    let next = peak(tokens);
    match next {
        Some(x) => {
            let o = if x == Token::Dot {
                Operations::Dot
            } else if x == Token::Epsilon {
                Operations::Epsilon
            } else if x == Token::Letter {
                proof {
                    assert(lexemes(before)[0].1.len() > 0);
                }
                Operations::Letter(tokens[0].1.get_char(0))
            } else {
                return Err(String::from_str("Expected letter, found ").concat(found(tokens)));
            };
            tokens.pop_front();
            proof {
                lemma_lexemes_rest(before);
            }
            Ok(read_quantif(tokens, o))
        },
        None => {
            Err(String::from_str("Expected letter, found ").concat(found(tokens)))
        },
    }
}

/// Reads `Paren`: a union between parentheses, and the quantifiers after it.
pub fn read_paren<'a>(tokens: &mut VecDeque<(Token, &'a str)>) -> (r: Result<
    Operations<char>,
    String,
>)
    requires
        tokens_valid(lexemes(old(tokens)@)),
    ensures
        (outcome(r), lexemes(final(tokens)@)) == spec_paren(lexemes(old(tokens)@)),
        tokens_valid(lexemes(final(tokens)@)),
        final(tokens)@.len() <= old(tokens)@.len(),
        r is Ok ==> final(tokens)@.len() < old(tokens)@.len(),
    decreases old(tokens)@.len(), 1nat,
{
    let ghost before = tokens@;
    let next = peak(tokens);
    if next != Some(Token::Lpar) {
        return Err(String::from_str("Expected left parenthesis, found ").concat(found(tokens)));
    }
    tokens.pop_front();
    proof {
        lemma_lexemes_rest(before);
    }
    let inner = read_union(tokens);
    match inner {
        Err(e) => Err(e),
        Ok(o) => {
            let ghost middle = tokens@;
            let next = peak(tokens);
            if next != Some(Token::Rpar) {
                return Err(
                    String::from_str("Expected right parenthesis, found ").concat(found(tokens)),
                );
            }
            tokens.pop_front();
            proof {
                lemma_lexemes_rest(middle);
            }
            Ok(read_quantif(tokens, o))
        },
    }
}

/// Reads `Concat`: letters and parenthesised unions up to `)`, `|` or the
/// end. One part alone stands for itself.
pub fn read_concat<'a>(tokens: &mut VecDeque<(Token, &'a str)>) -> (r: Result<
    Operations<char>,
    String,
>)
    requires
        tokens_valid(lexemes(old(tokens)@)),
    ensures
        (outcome(r), lexemes(final(tokens)@)) == spec_concat(lexemes(old(tokens)@)),
        tokens_valid(lexemes(final(tokens)@)),
        final(tokens)@.len() <= old(tokens)@.len(),
    decreases old(tokens)@.len(), 3nat,
{
    let mut c: Vec<Operations<char>> = Vec::new();
    let mut more = true;
    proof {
        assert(views(c@) =~= Seq::<Expr<char>>::empty());
    }
    while more
        invariant
            tokens_valid(lexemes(tokens@)),
            tokens@.len() <= old(tokens)@.len(),
            spec_concat_items(lexemes(tokens@), views(c@)) == spec_concat(lexemes(old(tokens)@)),
            !more ==> spec_concat_items(lexemes(tokens@), views(c@)) == (
                Ok::<Expr<char>, Seq<char>>(collapse_concat(views(c@))),
                lexemes(tokens@),
            ),
        decreases tokens@.len(), more as int,
    {
        let ghost before = tokens@;
        let ghost parts = views(c@);
        let next = peak(tokens);
        match next {
            None => {
                more = false;
            },
            Some(x) => {
                if x == Token::Dot || x == Token::Epsilon || x == Token::Letter {
                    match read_letter(tokens) {
                        Ok(o) => {
                            c.push(o);
                            proof {
                                assert(views(c@) =~= parts.push(o@));
                            }
                        },
                        Err(e) => {
                            return Err(e);
                        },
                    }
                } else if x == Token::Lpar {
                    match read_paren(tokens) {
                        Ok(o) => {
                            c.push(o);
                            proof {
                                assert(views(c@) =~= parts.push(o@));
                            }
                        },
                        Err(e) => {
                            return Err(e);
                        },
                    }
                } else if x == Token::Kleene || x == Token::Plus || x == Token::Question || x
                    == Token::Error {
                    proof {
                        assert(lexemes(before)[0].1.len() > 0);
                    }
                    return Err(unexpected(tokens[0].1));
                } else {
                    more = false;
                }
            },
        }
    }
    if c.len() == 1 {
        let ghost parts = views(c@);
        let o = c.pop().unwrap();
        proof {
            assert(o@ == parts[0]);
        }
        Ok(o)
    } else {
        Ok(Operations::Concat(c))
    }
}

/// Reads `Union`: concatenations separated by `|`. One alternative alone
/// stands for itself.
pub fn read_union<'a>(tokens: &mut VecDeque<(Token, &'a str)>) -> (r: Result<
    Operations<char>,
    String,
>)
    requires
        tokens_valid(lexemes(old(tokens)@)),
    ensures
        (outcome(r), lexemes(final(tokens)@)) == spec_union(lexemes(old(tokens)@)),
        tokens_valid(lexemes(final(tokens)@)),
        final(tokens)@.len() <= old(tokens)@.len(),
    decreases old(tokens)@.len(), 4nat,
{
    let mut u: Vec<Operations<char>> = Vec::new();
    let mut more = true;
    proof {
        assert(views(u@) =~= Seq::<Expr<char>>::empty());
    }
    while more
        invariant
            tokens_valid(lexemes(tokens@)),
            tokens@.len() <= old(tokens)@.len(),
            more ==> spec_union_items(lexemes(tokens@), views(u@)) == spec_union(
                lexemes(old(tokens)@),
            ),
            !more ==> spec_union(lexemes(old(tokens)@)) == (
                Ok::<Expr<char>, Seq<char>>(collapse_union(views(u@))),
                lexemes(tokens@),
            ),
        decreases tokens@.len(), more as int,
    {
        let ghost parts = views(u@);
        match read_concat(tokens) {
            Err(e) => {
                return Err(e);
            },
            Ok(o) => {
                u.push(o);
                proof {
                    assert(views(u@) =~= parts.push(o@));
                }
                let ghost middle = tokens@;
                let next = peak(tokens);
                if next == Some(Token::Union) {
                    tokens.pop_front();
                    proof {
                        lemma_lexemes_rest(middle);
                    }
                } else {
                    more = false;
                }
            },
        }
    }
    if u.len() == 1 {
        let ghost parts = views(u@);
        let o = u.pop().unwrap();
        proof {
            assert(o@ == parts[0]);
        }
        Ok(o)
    } else {
        Ok(Operations::Union(u))
    }
}

/// Parses a whole regular expression: a union that uses up the text.
pub fn parse(s: &str) -> (r: Result<Operations<char>, String>)
    ensures
        outcome(r) == spec_parse(lex(s@)),
{
    let mut queue = tokens(s);
    match read_union(&mut queue) {
        Err(e) => Err(e),
        Ok(o) => {
            if queue.len() == 0 {
                Ok(o)
            } else {
                proof {
                    assert(lexemes(queue@)[0].1.len() > 0);
                }
                Err(unexpected(queue[0].1))
            }
        },
    }
}

} // verus!
