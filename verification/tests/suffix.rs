//! The prefix-indexed matcher on concrete pattern sets, including the
//! behaviours it pins deliberately: entry merging by identity tag, last
//! insert winning on a duplicate token path, and the neighbour-based
//! longest-common-prefix lookup.

use matcher_suites::linear::RegexMatcher;
use matcher_suites::parsers::OptionalParameter;
use matcher_suites::parsers::RegexParserFactory;
use matcher_suites::pattern::Pattern;
use matcher_suites::pattern::Token;
use matcher_suites::suffix::SuffixTable;
use matcher_suites::suites::MatcherFactory;
use matcher_suites::suites::SuffixArrayMatcherFactory;

fn literal_pattern(id: &str, text: &str) -> Pattern {
    Pattern::new(id.to_string(), vec![Token::Literal(text.to_string())])
}

fn int_pattern(id: &str, name: &str, params: Option<Vec<OptionalParameter>>) -> Pattern {
    Pattern::new(
        id.to_string(),
        vec![Token::Parser(RegexParserFactory::new_int(Some(name), params))],
    )
}

#[test]
fn single_literal_exact_hit() {
    let mut m = SuffixArrayMatcherFactory::new_matcher();
    m.add_pattern(literal_pattern("p1", "abc"));
    assert_eq!(m.parse("abc").unwrap().pattern_id(), "p1");
    assert!(m.parse("abcd").is_none());
    assert!(m.parse("xyz").is_none());
}

#[test]
fn input_that_cuts_a_literal_short_does_not_match() {
    let mut m = SuffixTable::new();
    m.add_pattern(literal_pattern("p1", "abc"));
    // The neighbour lookup finds "abc", whose shared prefix spans the whole
    // query, but a literal entry matches only on full consumption of the
    // literal as well, so a strict prefix of a stored literal is rejected.
    assert!(m.parse("ab").is_none());
    assert!(m.parse("a").is_none());
    assert!(m.parse("").is_none());
}

#[test]
fn literals_are_kept_sorted_whatever_the_insertion_order() {
    let mut m = SuffixTable::new();
    m.add_pattern(literal_pattern("b", "bb"));
    m.add_pattern(literal_pattern("a", "aa"));
    m.add_pattern(literal_pattern("c", "cc"));
    assert_eq!(m.parse("aa").unwrap().pattern_id(), "a");
    assert_eq!(m.parse("bb").unwrap().pattern_id(), "b");
    assert_eq!(m.parse("cc").unwrap().pattern_id(), "c");
    assert!(m.parse("dd").is_none());
}

#[test]
fn indexed_literal_then_int_extracts_the_field() {
    let mut m = SuffixTable::new();
    m.add_pattern(Pattern::new(
        "p1".to_string(),
        vec![
            Token::Literal("id=".to_string()),
            Token::Parser(RegexParserFactory::new_int(Some("id"), None)),
        ],
    ));
    let r = m.parse("id=42").unwrap();
    assert_eq!(r.pattern_id(), "p1");
    assert_eq!(r.get("id").unwrap(), "42");
    assert!(m.parse("id=x").is_none());
}

#[test]
fn same_kind_extractors_merge_into_one_entry() {
    let mut m = SuffixTable::new();
    let a_params = vec![
        OptionalParameter::Int("min_len", 1),
        OptionalParameter::Int("max_len", 2),
    ];
    m.add_pattern(int_pattern("A", "a", Some(a_params)));
    let b_params = vec![OptionalParameter::Int("min_len", 5)];
    m.add_pattern(int_pattern("B", "b", Some(b_params)));
    // Both patterns collapse onto one entry, merged by identity tag alone.
    // The first insert fixed the entry's extractor (window 1..=2, name "a");
    // the second overwrote its terminal pattern.  The merge must not crash,
    // and the collapsed behaviour is asserted as documented, not corrected.
    let r = m.parse("42").unwrap();
    assert_eq!(r.pattern_id(), "B");
    assert_eq!(r.get("a").unwrap(), "42");
    assert!(r.get("b").is_none());
    // The second pattern's own window (at least five digits) is gone.
    assert!(m.parse("12345").is_none());
}

#[test]
fn last_insert_wins_on_a_duplicate_token_path() {
    let mut m = SuffixTable::new();
    m.add_pattern(literal_pattern("first", "abc"));
    m.add_pattern(literal_pattern("second", "abc"));
    assert_eq!(m.parse("abc").unwrap().pattern_id(), "second");
}

#[test]
fn greedy_with_marker_descends_into_a_child_level() {
    let mut m = SuffixTable::new();
    m.add_pattern(Pattern::new(
        "p1".to_string(),
        vec![
            Token::Parser(RegexParserFactory::new_greedy(Some("g"), Some("!"))),
            Token::Literal("!world".to_string()),
        ],
    ));
    let r = m.parse("hello!world").unwrap();
    assert_eq!(r.pattern_id(), "p1");
    assert_eq!(r.get("g").unwrap(), "hello");
    assert!(m.parse("hello world").is_none());
}

#[test]
fn extractor_entries_are_tried_in_insertion_order() {
    let mut m = SuffixTable::new();
    m.add_pattern(Pattern::new(
        "greedy".to_string(),
        vec![Token::Parser(RegexParserFactory::new_greedy(Some("g"), None))],
    ));
    m.add_pattern(int_pattern("num", "n", None));
    // Both entries accept a digit line in full; the first-inserted entry
    // wins.
    assert_eq!(m.parse("123").unwrap().pattern_id(), "greedy");
}

#[test]
fn shared_literal_prefix_is_walked_level_by_level() {
    let mut m = SuffixTable::new();
    m.add_pattern(Pattern::new(
        "ab".to_string(),
        vec![
            Token::Literal("a".to_string()),
            Token::Literal("b".to_string()),
        ],
    ));
    m.add_pattern(Pattern::new(
        "ac".to_string(),
        vec![
            Token::Literal("a".to_string()),
            Token::Literal("c".to_string()),
        ],
    ));
    assert_eq!(m.parse("ab").unwrap().pattern_id(), "ab");
    assert_eq!(m.parse("ac").unwrap().pattern_id(), "ac");
    assert!(m.parse("ad").is_none());
}

#[test]
fn indexed_repeated_parse_calls_return_identical_results() {
    let mut m = SuffixTable::new();
    m.add_pattern(int_pattern("num", "n", None));
    let r1 = m.parse("77").unwrap();
    let r2 = m.parse("77").unwrap();
    assert_eq!(r1.pattern_id(), r2.pattern_id());
    assert_eq!(r1.get("n").unwrap(), r2.get("n").unwrap());
}

#[test]
fn both_strategies_agree_on_an_unambiguous_set() {
    let mut table = SuffixTable::new();
    let mut linear = RegexMatcher::new();
    table.add_pattern(literal_pattern("lit", "abc"));
    linear.add_pattern(literal_pattern("lit", "abc"));
    table.add_pattern(int_pattern("num", "n", None));
    linear.add_pattern(int_pattern("num", "n", None));
    for input in ["abc", "ab", "123", "zzz"] {
        let a = table.parse(input);
        let b = linear.parse(input);
        match (a, b) {
            (Some(x), Some(y)) => {
                assert_eq!(x.pattern_id(), y.pattern_id());
                match (x.get("n"), y.get("n")) {
                    (Some(u), Some(v)) => assert_eq!(u, v),
                    (None, None) => {},
                    _ => panic!("strategies disagree on captures for {:?}", input),
                }
            },
            (None, None) => {},
            _ => panic!("strategies disagree on {:?}", input),
        }
    }
}

#[test]
fn duplicate_index_is_independent() {
    let mut m = SuffixTable::new();
    m.add_pattern(literal_pattern("p1", "abc"));
    let copy = m.duplicate();
    m.add_pattern(literal_pattern("p2", "xyz"));
    assert_eq!(copy.parse("abc").unwrap().pattern_id(), "p1");
    assert!(copy.parse("xyz").is_none());
    assert_eq!(m.parse("xyz").unwrap().pattern_id(), "p2");
}

#[test]
fn empty_index_matches_nothing() {
    let m = SuffixArrayMatcherFactory::new_matcher();
    assert!(m.parse("").is_none());
    assert!(m.parse("anything").is_none());
}
