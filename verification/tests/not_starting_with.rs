use chumsky_branch::patterns::{chars_of, literal_at};
use chumsky_branch::{not_starting_with, PatternError};

fn test_lexer(input: &str) -> Option<String> {
    let parser = not_starting_with(&["{%", "{{"]).unwrap();
    let chars: Vec<char> = input.chars().collect();
    parser
        .parse_at(&chars, 0)
        .map(|(vec, _)| vec.into_iter().collect())
}

fn parse(patterns: &[&str], input: &str, start: usize) -> Option<(String, usize)> {
    let parser = not_starting_with(patterns).unwrap();
    let chars: Vec<char> = input.chars().collect();
    parser
        .parse_at(&chars, start)
        .map(|(vec, end)| (vec.into_iter().collect(), end))
}

#[test]
fn test_starting_with_other() {
    let parsed = test_lexer("foo{%");
    assert_eq!(parsed, Some("f".to_owned()));
}

#[test]
fn test_starting_with_first_char() {
    let parsed = test_lexer("{foo");
    assert_eq!(parsed, Some("{f".to_owned()));
}

#[test]
fn test_starting_with_first_pattern() {
    let parsed = test_lexer("{%foo");
    assert!(matches!(parsed, None));
}

#[test]
fn starting_with_second_pattern_fails() {
    assert_eq!(test_lexer("{{foo"), None);
}

#[test]
fn starting_with_empty_input_fails() {
    assert_eq!(test_lexer(""), None);
}

#[test]
fn starting_with_lone_first_char_at_end() {
    assert_eq!(parse(&["{%", "{{"], "{", 0), Some(("{".to_owned(), 1)));
    assert_eq!(parse(&["{%", "{{"], "ab{", 2), Some(("{".to_owned(), 3)));
}

#[test]
fn starting_with_reports_end_position() {
    assert_eq!(parse(&["{%", "{{"], "foo{%", 0), Some(("f".to_owned(), 1)));
    assert_eq!(parse(&["{%", "{{"], "xx{foo", 2), Some(("{f".to_owned(), 4)));
    assert_eq!(parse(&["{%", "{{"], "xx{%foo", 2), None);
}

#[test]
fn starting_with_start_behind_input_fails() {
    assert_eq!(parse(&["{%", "{{"], "foo", 4), None);
    assert_eq!(parse(&["{%", "{{"], "foo", 3), None);
    assert_eq!(parse(&[], "foo", 4), None);
}

#[test]
fn starting_with_no_patterns_takes_nothing() {
    assert_eq!(parse(&[], "foo", 0), Some((String::new(), 0)));
    assert_eq!(parse(&[], "foo", 3), Some((String::new(), 3)));
    assert_eq!(parse(&[], "", 0), Some((String::new(), 0)));
}

#[test]
fn starting_with_shared_prefix_recurses_jointly() {
    let patterns = ["abc", "abd", "x"];
    assert_eq!(parse(&patterns, "abe", 0), Some(("abe".to_owned(), 3)));
    assert_eq!(parse(&patterns, "ab", 0), Some(("ab".to_owned(), 2)));
    assert_eq!(parse(&patterns, "aq", 0), Some(("aq".to_owned(), 2)));
    assert_eq!(parse(&patterns, "abc", 0), None);
    assert_eq!(parse(&patterns, "abdz", 0), None);
    assert_eq!(parse(&patterns, "x", 0), None);
    assert_eq!(parse(&patterns, "q", 0), Some(("q".to_owned(), 1)));
}

#[test]
fn starting_with_shorter_pattern_wins() {
    assert_eq!(parse(&["ab", "a"], "ac", 0), None);
    assert_eq!(parse(&["a", "ab"], "ac", 0), None);
    assert_eq!(parse(&["ab", "a"], "a", 0), None);
    assert_eq!(parse(&["ab", "abc"], "abc", 0), None);
    assert_eq!(parse(&["ab", "abc"], "ax", 0), Some(("ax".to_owned(), 2)));
}

#[test]
fn starting_with_diverging_char_may_begin_a_pattern() {
    assert_eq!(parse(&["ab"], "aab", 0), Some(("aa".to_owned(), 2)));
    assert_eq!(parse(&["aab"], "aaab", 0), Some(("aaa".to_owned(), 3)));
}

#[test]
fn starting_with_repeated_patterns() {
    assert_eq!(parse(&["{%", "{%"], "{x", 0), Some(("{x".to_owned(), 2)));
    assert_eq!(parse(&["{%", "{%"], "{%", 0), None);
}

#[test]
fn starting_with_characters_beyond_ascii() {
    let patterns = ["«»", "«§"];
    assert_eq!(parse(&patterns, "«x", 0), Some(("«x".to_owned(), 2)));
    assert_eq!(parse(&patterns, "é«»", 0), Some(("é".to_owned(), 1)));
    assert_eq!(parse(&patterns, "é«»", 1), None);
}

#[test]
fn starting_with_empty_pattern_is_refused() {
    assert!(matches!(
        not_starting_with(&[""]),
        Err(PatternError::Empty { index: 0 })
    ));
    assert!(matches!(
        not_starting_with(&["{%", "", "{{", ""]),
        Err(PatternError::Empty { index: 1 })
    ));
    assert!(not_starting_with(&["{%"]).is_ok());
}

#[test]
fn starting_with_keeps_its_patterns() {
    let parser = not_starting_with(&["{%", "{{"]).unwrap();
    assert_eq!(parser.patterns(), &vec![vec!['{', '%'], vec!['{', '{']]);
}

#[test]
fn chars_of_gives_the_characters_in_order() {
    assert_eq!(chars_of("a«b"), vec!['a', '«', 'b']);
    assert_eq!(chars_of(""), Vec::<char>::new());
}

#[test]
fn literal_at_finds_a_literal_only_where_it_stands() {
    let input: Vec<char> = "foo{%bar".chars().collect();
    let literal: Vec<char> = "{%".chars().collect();
    assert!(literal_at(&input, 3, &literal));
    assert!(!literal_at(&input, 2, &literal));
    assert!(!literal_at(&input, 7, &literal));
    assert!(!literal_at(&input, 9, &literal));
    assert!(literal_at(&input, 8, &[]));
    assert!(!literal_at(&input, 9, &[]));
}
