use chumsky::prelude::{end, just, Simple};
use chumsky::Parser;
use chumsky_branch::prelude::branch;
use chumsky_branch::{Dispatch, PatternError, Route};

#[derive(Debug, Eq, PartialEq)]
enum Token {
    Foo,
    Bar,
    Comment,
    Verbatim(String),
}

type Sub = Box<dyn Fn(&[char], usize) -> Option<(Token, usize)>>;

/// Runs a parser, which has to take at least one character to succeed, on the
/// input from `at` on, and says where it stopped.
fn sub<P>(parser: P) -> Sub
where
    P: Parser<char, Token, Error = Simple<char>> + 'static,
{
    Box::new(move |input: &[char], at: usize| {
        let rest: String = input[at..].iter().collect();
        (&parser)
            .map_with_span(|token, span| (token, at + span.end))
            .parse(rest.as_str())
            .ok()
    })
}

fn lexer() -> Dispatch<'static, Sub, fn(String) -> Token> {
    branch(
        "{{",
        sub(just("foo").then_ignore(just("}}")).map(|_| Token::Foo)),
    )
    .or_branch(
        "{%",
        sub(just("bar").then_ignore(just("%}")).map(|_| Token::Bar)),
    )
    .or_branch(
        "/*",
        sub(just("TODO").then_ignore(just("*/")).map(|_| Token::Comment)),
    )
    .or_else(Token::Verbatim as fn(String) -> Token)
    .unwrap()
}

fn test_lexer(input: &str) -> Option<Token> {
    let chars: Vec<char> = input.chars().collect();
    match lexer().parse_at(&chars, 0) {
        Some((token, at)) if at == chars.len() => Some(token),
        _ => None,
    }
}

#[test]
fn parse_foo() {
    let token = test_lexer("{{foo}}");
    assert_eq!(token, Some(Token::Foo));
}

#[test]
fn parse_bar() {
    let token = test_lexer("{%bar%}");
    assert_eq!(token, Some(Token::Bar));
}

#[test]
fn parse_comment() {
    let token = test_lexer("/*TODO*/");
    assert_eq!(token, Some(Token::Comment));
}

#[test]
fn parse_verbatim() {
    let token = test_lexer("just some random text");
    assert_eq!(
        token,
        Some(Token::Verbatim("just some random text".to_owned()))
    );
}

#[test]
fn parse_foo_unclosed() {
    let token = test_lexer("{{foo}");
    assert!(matches!(token, None));
}

#[test]
fn parse_bar_unclosed() {
    let token = test_lexer("{%foo%");
    assert!(matches!(token, None));
}

#[test]
fn parse_comment_unclosed() {
    let token = test_lexer("/*TODO//");
    assert!(matches!(token, None));
}

#[test]
fn parse_invalid() {
    let token = test_lexer("foo{{bar");
    assert!(matches!(token, None));
}

#[test]
fn parse_sequence_of_tokens() {
    let chars: Vec<char> = "text{{foo}}/*TODO*/more{%bar%}".chars().collect();
    let lexer = lexer();
    let mut tokens = Vec::new();
    let mut at = 0;
    while let Some((token, next)) = lexer.parse_at(&chars, at) {
        tokens.push(token);
        at = next;
    }
    assert_eq!(at, chars.len());
    assert_eq!(
        tokens,
        vec![
            Token::Verbatim("text".to_owned()),
            Token::Foo,
            Token::Comment,
            Token::Verbatim("more".to_owned()),
            Token::Bar,
        ]
    );
}

#[test]
fn sub_parser_agrees_with_end_of_input() {
    let parser = just::<char, _, Simple<char>>("foo")
        .then_ignore(just("}}"))
        .then_ignore(end());
    assert!(parser.parse("foo}}").is_ok());
    let chars: Vec<char> = "{{foo}}".chars().collect();
    assert_eq!(lexer().parse_at(&chars, 0), Some((Token::Foo, 7)));
}

fn take(label: &'static str) -> Box<dyn Fn(&[char], usize) -> Option<(&'static str, usize)>> {
    Box::new(move |_input: &[char], at: usize| Some((label, at)))
}

fn refuse() -> Box<dyn Fn(&[char], usize) -> Option<(&'static str, usize)>> {
    Box::new(|_input: &[char], _at: usize| None)
}

fn verbatim(_text: String) -> &'static str {
    "else"
}

#[test]
fn select_routes_to_the_else_branch() {
    let dispatch = branch("{{", take("a"))
        .or_branch("{%", take("b"))
        .or_else(verbatim)
        .unwrap();
    let chars: Vec<char> = "foo{%bar".chars().collect();
    match dispatch.select(&chars, 0) {
        Route::Fallback { text, end } => {
            assert_eq!(text, "foo".to_owned());
            assert_eq!(end, 3);
        }
        _ => panic!("the else branch takes text that begins with no pattern"),
    }
    assert_eq!(dispatch.parse_at(&chars, 0), Some(("else", 3)));
}

#[test]
fn select_routes_to_the_branch_of_the_pattern() {
    let dispatch = branch("{{", take("a"))
        .or_branch("{%", take("b"))
        .or_else(verbatim)
        .unwrap();
    let chars: Vec<char> = "foo{%bar".chars().collect();
    assert!(matches!(
        dispatch.select(&chars, 3),
        Route::Branch { index: 1, resume: 5 }
    ));
    assert_eq!(dispatch.parse_at(&chars, 3), Some(("b", 5)));
    let chars: Vec<char> = "{{".chars().collect();
    assert!(matches!(
        dispatch.select(&chars, 0),
        Route::Branch { index: 0, resume: 2 }
    ));
    assert_eq!((dispatch.parser(0).unwrap())(&chars, 2), Some(("a", 2)));
    assert!(dispatch.parser(1).is_some());
    assert!(dispatch.parser(2).is_none());
    assert_eq!((dispatch.else_branch())(String::new()), "else");
}

#[test]
fn select_rejects_the_end_of_input() {
    let dispatch = branch("{{", take("a")).or_else(verbatim).unwrap();
    let chars: Vec<char> = "foo".chars().collect();
    assert!(matches!(dispatch.select(&chars, 3), Route::Reject));
    assert!(matches!(dispatch.select(&chars, 4), Route::Reject));
    assert_eq!(dispatch.parse_at(&chars, 3), None);
    assert_eq!(dispatch.parse_at(&chars, 4), None);
    assert_eq!(dispatch.parse_at(&[], 0), None);
}

#[test]
fn branch_declared_last_is_tried_first() {
    let chars: Vec<char> = "{{x".chars().collect();
    let dispatch = branch("{", take("short"))
        .or_branch("{{", take("long"))
        .or_else(verbatim)
        .unwrap();
    assert_eq!(dispatch.parse_at(&chars, 0), Some(("long", 2)));
    let dispatch = branch("{{", take("long"))
        .or_branch("{", take("short"))
        .or_else(verbatim)
        .unwrap();
    assert_eq!(dispatch.parse_at(&chars, 0), Some(("short", 1)));
}

#[test]
fn same_pattern_twice_goes_to_the_later_branch() {
    let chars: Vec<char> = "{{x".chars().collect();
    let dispatch = branch("{{", take("first"))
        .or_branch("{{", take("second"))
        .or_else(verbatim)
        .unwrap();
    assert_eq!(dispatch.parse_at(&chars, 0), Some(("second", 2)));
}

#[test]
fn chosen_branch_that_fails_fails_the_dispatch() {
    let chars: Vec<char> = "{{x".chars().collect();
    let dispatch = branch("{", take("short"))
        .or_branch("{{", refuse())
        .or_else(verbatim)
        .unwrap();
    assert!(matches!(
        dispatch.select(&chars, 0),
        Route::Branch { index: 1, resume: 2 }
    ));
    assert_eq!(dispatch.parse_at(&chars, 0), None);
}

#[test]
fn else_branch_gets_the_run_unchanged() {
    let dispatch = branch("{{", sub(just("foo").map(|_| Token::Foo)))
        .or_else(Token::Verbatim as fn(String) -> Token)
        .unwrap();
    let chars: Vec<char> = "a{b «c» {{foo".chars().collect();
    assert_eq!(
        dispatch.parse_at(&chars, 0),
        Some((Token::Verbatim("a{b «c» ".to_owned()), 8))
    );
}

#[test]
fn branch_with_empty_pattern_is_refused() {
    let made = branch("{{", take("a"))
        .or_branch("", take("b"))
        .or_branch("", take("c"))
        .or_else(verbatim);
    assert!(matches!(made, Err(PatternError::Empty { index: 1 })));
    let made = branch("", take("a")).or_else(verbatim);
    assert!(matches!(made, Err(PatternError::Empty { index: 0 })));
}

#[test]
fn placeholder_and_text_in_turn() {
    fn name(input: &[char], start: usize) -> Option<(String, usize)> {
        let len = input[start..].iter().position(|ch| *ch == '}')?;
        Some((input[start..start + len].iter().collect(), start + len + 2))
    }
    let input: Vec<char> = "Hello {{name}}!".chars().collect();
    let lexer = branch("{{", name)
        .or_else(|text: String| text.to_uppercase())
        .unwrap();
    assert_eq!(lexer.parse_at(&input, 0), Some(("HELLO ".to_owned(), 6)));
    assert_eq!(lexer.parse_at(&input, 6), Some(("name".to_owned(), 14)));
    assert_eq!(lexer.parse_at(&input, 14), Some(("!".to_owned(), 15)));
    assert_eq!(lexer.parse_at(&input, 15), None);
}
