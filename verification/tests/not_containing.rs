use chumsky_branch::not_containing::join;
use chumsky_branch::{not_containing, not_starting_with, PatternError};

fn until_end(patterns: &[&str], input: &str) -> Option<String> {
    let parser = not_containing(patterns).unwrap();
    let chars: Vec<char> = input.chars().collect();
    match parser.parse_at(&chars, 0) {
        Some((text, end)) if end == chars.len() => Some(text),
        _ => None,
    }
}

fn test_lexer(input: &str) -> Option<String> {
    until_end(&["{%", "{{"], input)
}

fn run(patterns: &[&str], input: &str, start: usize) -> Option<(String, usize)> {
    let parser = not_containing(patterns).unwrap();
    let chars: Vec<char> = input.chars().collect();
    parser.parse_at(&chars, start)
}

#[test]
fn test_not_containing_other_chars() {
    let parsed = test_lexer("foo");
    assert_eq!(parsed, Some("foo".to_owned()));
}

#[test]
fn test_not_containing_first_char() {
    let parsed = test_lexer("foo{bar");
    assert_eq!(parsed, Some("foo{bar".to_owned()));
}

#[test]
fn test_not_containing_first_char_first() {
    let parsed = test_lexer("{bar");
    assert_eq!(parsed, Some("{bar".to_owned()));
}

#[test]
fn test_not_containing_first_char_last() {
    let parsed = test_lexer("foo{");
    assert_eq!(parsed, Some("foo{".to_owned()));
}

#[test]
fn test_not_containing_second_char() {
    let parsed = test_lexer("foo%bar");
    assert_eq!(parsed, Some("foo%bar".to_owned()));
}

#[test]
fn test_not_containing_second_char_first() {
    let parsed = test_lexer("%bar");
    assert_eq!(parsed, Some("%bar".to_owned()));
}

#[test]
fn test_not_containing_second_char_last() {
    let parsed = test_lexer("foo%");
    assert_eq!(parsed, Some("foo%".to_owned()));
}

#[test]
fn test_containing_first_pattern() {
    let parsed = test_lexer("foo{%bar");
    assert!(matches!(parsed, None));
}

#[test]
fn test_containing_first_pattern_first() {
    let parsed = test_lexer("{%bar");
    assert!(matches!(parsed, None));
}

#[test]
fn test_containing_first_pattern_last() {
    let parsed = test_lexer("foo{%");
    assert!(matches!(parsed, None));
}

#[test]
fn test_containing_second_pattern() {
    let parsed = test_lexer("foo{{bar");
    assert!(matches!(parsed, None));
}

#[test]
fn test_containing_second_pattern_first() {
    let parsed = test_lexer("{{bar");
    assert!(matches!(parsed, None));
}

#[test]
fn test_containing_second_pattern_last() {
    let parsed = test_lexer("foo{{");
    assert!(matches!(parsed, None));
}

#[test]
fn run_stops_before_the_first_pattern() {
    assert_eq!(
        run(&["{%", "{{"], "foo{%bar", 0),
        Some(("foo".to_owned(), 3))
    );
    assert_eq!(run(&["{%", "{{"], "foo{{", 0), Some(("foo".to_owned(), 3)));
    assert_eq!(
        run(&["{%", "{{"], "a{b{{c", 0),
        Some(("a{b".to_owned(), 3))
    );
}

#[test]
fn run_takes_text_without_pattern_whole() {
    assert_eq!(
        run(&["{%", "{{"], "just some random text", 0),
        Some(("just some random text".to_owned(), 21))
    );
    assert_eq!(run(&["{%", "{{"], "{", 0), Some(("{".to_owned(), 1)));
    assert_eq!(run(&["abc"], "ababab", 0), Some(("ababab".to_owned(), 6)));
}

#[test]
fn run_fails_where_a_pattern_begins() {
    assert_eq!(run(&["{%", "{{"], "{%bar", 0), None);
    assert_eq!(run(&["{%", "{{"], "foo{%bar", 3), None);
}

#[test]
fn run_rejects_the_empty_run() {
    assert_eq!(run(&["{%", "{{"], "", 0), None);
    assert_eq!(run(&["{%", "{{"], "foo", 3), None);
    assert_eq!(run(&["{%", "{{"], "foo", 4), None);
}

#[test]
fn run_from_a_later_position() {
    assert_eq!(
        run(&["{%", "{{"], "{%bar{{", 2),
        Some(("bar".to_owned(), 5))
    );
}

#[test]
fn run_without_patterns_makes_no_progress() {
    assert_eq!(run(&[], "foo", 0), None);
    assert_eq!(run(&[], "", 0), None);
}

#[test]
fn run_piece_may_reach_across_a_pattern() {
    assert_eq!(run(&["ab"], "aab", 0), Some(("aab".to_owned(), 3)));
    assert_eq!(run(&["aab"], "aaab", 0), Some(("aaab".to_owned(), 4)));
    assert_eq!(
        run(&["{{", "{%", "/*"], "{/*x", 0),
        Some(("{/*x".to_owned(), 4))
    );
    assert_eq!(run(&["ab"], "xab", 0), Some(("x".to_owned(), 1)));
}

#[test]
fn run_is_its_pieces_joined_in_order() {
    let patterns = ["{%", "{{"];
    let step = not_starting_with(&patterns).unwrap();
    let input: Vec<char> = "a{b{c%{{rest".chars().collect();
    let mut pieces: Vec<Vec<char>> = Vec::new();
    let mut at = 0;
    while let Some((piece, end)) = step.parse_at(&input, at) {
        pieces.push(piece);
        at = end;
    }
    assert_eq!(
        pieces,
        vec![vec!['a'], vec!['{', 'b'], vec!['{', 'c'], vec!['%']]
    );
    let joined: String = pieces.iter().flatten().collect();
    assert_eq!(run(&patterns, "a{b{c%{{rest", 0), Some((joined, at)));
    assert_eq!(at, 6);
}

#[test]
fn join_puts_pieces_together() {
    assert_eq!(join(&vec![]), String::new());
    assert_eq!(
        join(&vec![vec!['a', 'b'], vec![], vec!['«'], vec!['c']]),
        "ab«c".to_owned()
    );
}

#[test]
fn containing_empty_pattern_is_refused() {
    assert!(matches!(
        not_containing(&["{%", ""]),
        Err(PatternError::Empty { index: 1 })
    ));
    assert!(matches!(
        not_containing(&["", ""]),
        Err(PatternError::Empty { index: 0 })
    ));
}

#[test]
fn containing_keeps_its_patterns() {
    let parser = not_containing(&["*/"]).unwrap();
    assert_eq!(parser.patterns(), &vec![vec!['*', '/']]);
}

#[test]
fn until_end_with_other_patterns() {
    assert_eq!(until_end(&["*/"], " Greet the user "), Some(" Greet the user ".to_owned()));
    assert_eq!(until_end(&["*/"], " Greet */"), None);
}
