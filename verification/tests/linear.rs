//! The sequential-scan matcher on concrete pattern sets.

use matcher_suites::linear::RegexMatcher;
use matcher_suites::linear::RegexMatcherFactory;
use matcher_suites::parsers::RegexParserFactory;
use matcher_suites::pattern::Pattern;
use matcher_suites::pattern::Token;
use matcher_suites::suites::MatcherFactory;

fn literal_pattern(id: &str, text: &str) -> Pattern {
    Pattern::new(id.to_string(), vec![Token::Literal(text.to_string())])
}

#[test]
fn literal_requires_full_consumption() {
    let mut m = RegexMatcherFactory::new_matcher();
    m.add_pattern(literal_pattern("p1", "abc"));
    assert_eq!(m.parse("abc").unwrap().pattern_id(), "p1");
    assert!(m.parse("abcd").is_none());
    assert!(m.parse("ab").is_none());
}

#[test]
fn literal_then_int_extracts_the_field() {
    let mut m = RegexMatcher::new();
    m.add_pattern(Pattern::new(
        "p1".to_string(),
        vec![
            Token::Literal("id=".to_string()),
            Token::Parser(RegexParserFactory::new_int(Some("id"), None)),
        ],
    ));
    let r = m.parse("id=42").unwrap();
    assert_eq!(r.pattern_id(), "p1");
    assert_eq!(r.get("id").unwrap(), "42");
    assert!(m.parse("id=x").is_none());
}

#[test]
fn accepts_as_soon_as_input_is_spent_even_with_tokens_left() {
    let mut m = RegexMatcher::new();
    m.add_pattern(Pattern::new(
        "p1".to_string(),
        vec![
            Token::Literal("ab".to_string()),
            Token::Literal("cd".to_string()),
        ],
    ));
    // The input is consumed after the first token; the second token is never
    // required.  This early acceptance is pinned deliberately.
    assert_eq!(m.parse("ab").unwrap().pattern_id(), "p1");
    assert_eq!(m.parse("abcd").unwrap().pattern_id(), "p1");
    assert!(m.parse("abx").is_none());
}

#[test]
fn repeated_parse_calls_return_identical_results() {
    let mut m = RegexMatcher::new();
    m.add_pattern(Pattern::new(
        "p1".to_string(),
        vec![Token::Parser(RegexParserFactory::new_greedy(Some("all"), None))],
    ));
    let r1 = m.parse("some line").unwrap();
    let r2 = m.parse("some line").unwrap();
    assert_eq!(r1.pattern_id(), r2.pattern_id());
    assert_eq!(r1.get("all").unwrap(), r2.get("all").unwrap());
    assert_eq!(r1.get("all").unwrap(), "some line");
}

#[test]
fn first_registered_pattern_wins_on_ambiguous_input() {
    let mut m = RegexMatcher::new();
    m.add_pattern(Pattern::new(
        "greedy-a".to_string(),
        vec![Token::Parser(RegexParserFactory::new_greedy(Some("a"), None))],
    ));
    m.add_pattern(Pattern::new(
        "greedy-b".to_string(),
        vec![Token::Parser(RegexParserFactory::new_greedy(Some("b"), None))],
    ));
    assert_eq!(m.parse("anything").unwrap().pattern_id(), "greedy-a");
}

#[test]
fn insertion_order_does_not_matter_for_disjoint_patterns() {
    let inputs = ["abc", "123", "zzz", ""];
    let mut forward = RegexMatcher::new();
    forward.add_pattern(literal_pattern("lit", "abc"));
    forward.add_pattern(Pattern::new(
        "num".to_string(),
        vec![Token::Parser(RegexParserFactory::new_int(Some("n"), None))],
    ));
    let mut backward = RegexMatcher::new();
    backward.add_pattern(Pattern::new(
        "num".to_string(),
        vec![Token::Parser(RegexParserFactory::new_int(Some("n"), None))],
    ));
    backward.add_pattern(literal_pattern("lit", "abc"));
    for input in inputs {
        let a = forward.parse(input);
        let b = backward.parse(input);
        match (a, b) {
            (Some(x), Some(y)) => {
                assert_eq!(x.pattern_id(), y.pattern_id());
                assert_eq!(x.get("n").is_some(), y.get("n").is_some());
            },
            (None, None) => {},
            _ => panic!("reordering changed the result on {:?}", input),
        }
    }
}

#[test]
fn empty_matcher_matches_nothing() {
    let m = RegexMatcher::new();
    assert!(m.parse("").is_none());
    assert!(m.parse("anything").is_none());
}

#[test]
fn greedy_pattern_accepts_empty_input() {
    let mut m = RegexMatcher::new();
    m.add_pattern(Pattern::new(
        "rest".to_string(),
        vec![Token::Parser(RegexParserFactory::new_greedy(Some("g"), None))],
    ));
    let r = m.parse("").unwrap();
    assert_eq!(r.pattern_id(), "rest");
    assert_eq!(r.get("g").unwrap(), "");
}

#[test]
fn duplicate_matcher_is_independent() {
    let mut m = RegexMatcher::new();
    m.add_pattern(literal_pattern("p1", "abc"));
    let copy = m.duplicate();
    m.add_pattern(literal_pattern("p2", "xyz"));
    assert_eq!(copy.parse("abc").unwrap().pattern_id(), "p1");
    assert!(copy.parse("xyz").is_none());
    assert_eq!(m.parse("xyz").unwrap().pattern_id(), "p2");
}

#[test]
fn later_capture_overrides_earlier_one_of_the_same_name() {
    let mut m = RegexMatcher::new();
    m.add_pattern(Pattern::new(
        "p1".to_string(),
        vec![
            Token::Parser(RegexParserFactory::new_int(Some("v"), None)),
            Token::Literal("-".to_string()),
            Token::Parser(RegexParserFactory::new_int(Some("v"), None)),
        ],
    ));
    let r = m.parse("1-2").unwrap();
    assert_eq!(r.get("v").unwrap(), "2");
}
