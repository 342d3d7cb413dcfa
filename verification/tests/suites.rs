//! The suite plumbing: standing up either strategy through its suite's
//! associated factory and getting the same behaviour as from the matcher
//! directly.

use matcher_suites::suites::MatcherFactory;
use matcher_suites::suites::MatcherSuite;
use matcher_suites::suites::RegexMatcherSuite;
use matcher_suites::suites::SuffixArrayMatcherSuite;
use matcher_suites::parsers::RegexParserFactory;
use matcher_suites::pattern::Pattern;
use matcher_suites::pattern::Token;

fn sample_pattern() -> Pattern {
    Pattern::new(
        "sample".to_string(),
        vec![
            Token::Literal("v=".to_string()),
            Token::Parser(RegexParserFactory::new_int(Some("v"), None)),
        ],
    )
}

#[test]
fn sequential_suite_builds_a_working_matcher() {
    let mut m: <RegexMatcherSuite as MatcherSuite>::Matcher =
        <RegexMatcherSuite as MatcherSuite>::MatcherFactory::new_matcher();
    m.add_pattern(sample_pattern());
    let r = m.parse("v=7").unwrap();
    assert_eq!(r.pattern_id(), "sample");
    assert_eq!(r.get("v").unwrap(), "7");
}

#[test]
fn prefix_indexed_suite_builds_a_working_matcher() {
    let mut m: <SuffixArrayMatcherSuite as MatcherSuite>::Matcher =
        <SuffixArrayMatcherSuite as MatcherSuite>::MatcherFactory::new_matcher();
    m.add_pattern(sample_pattern());
    let r = m.parse("v=7").unwrap();
    assert_eq!(r.pattern_id(), "sample");
    assert_eq!(r.get("v").unwrap(), "7");
}
