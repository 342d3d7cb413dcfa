//! The pattern and match-result data model.

use matcher_suites::parsers::RegexParserFactory;
use matcher_suites::pattern::MatchResult;
use matcher_suites::pattern::Pattern;
use matcher_suites::pattern::Token;

#[test]
fn tokens_pop_from_the_front_and_keep_the_identity() {
    let mut p = Pattern::new(
        "id-1".to_string(),
        vec![
            Token::Literal("a".to_string()),
            Token::Parser(RegexParserFactory::new_int(None, None)),
        ],
    );
    assert_eq!(p.uuid(), "id-1");
    assert_eq!(p.pattern().len(), 2);
    match p.pop_first_token() {
        Some(Token::Literal(s)) => assert_eq!(s, "a"),
        _ => panic!("expected the literal token first"),
    }
    assert_eq!(p.pattern().len(), 1);
    match p.pop_first_token() {
        Some(Token::Parser(_)) => {},
        _ => panic!("expected the extractor token second"),
    }
    assert!(p.pop_first_token().is_none());
    assert_eq!(p.uuid(), "id-1");
}

#[test]
fn duplicate_pattern_leaves_the_original_intact() {
    let p = Pattern::new(
        "id-2".to_string(),
        vec![Token::Literal("abc".to_string())],
    );
    let mut q = p.duplicate();
    assert_eq!(q.uuid(), "id-2");
    q.pop_first_token();
    assert_eq!(p.pattern().len(), 1);
    assert_eq!(q.pattern().len(), 0);
}

#[test]
fn match_result_records_and_overrides_fields() {
    let p = Pattern::new("id-3".to_string(), vec![]);
    let mut r = MatchResult::new(&p);
    assert_eq!(r.pattern_id(), "id-3");
    assert!(r.get("k").is_none());
    r.insert("k".to_string(), "v1".to_string());
    assert_eq!(r.get("k").unwrap(), "v1");
    r.insert("k".to_string(), "v2".to_string());
    assert_eq!(r.get("k").unwrap(), "v2");
    assert!(r.get("other").is_none());
}
