//! The extractor primitives on concrete inputs.

use matcher_suites::parsers::GreedyParser;
use matcher_suites::parsers::OptionalParameter;
use matcher_suites::parsers::Parser;
use matcher_suites::parsers::ParserKind;
use matcher_suites::parsers::RegexParserFactory;

#[test]
fn set_parser_takes_longest_class_prefix() {
    let p = RegexParserFactory::new_set("ab", Some("field"), None);
    assert_eq!(p.parse("abba code"), Some(4));
    assert_eq!(p.parse("b"), Some(1));
}

#[test]
fn set_parser_rejects_empty_prefix() {
    let p = RegexParserFactory::new_set("abc", None, None);
    assert_eq!(p.parse("xyz"), None);
    assert_eq!(p.parse(""), None);
}

#[test]
fn set_parser_honours_length_window() {
    let params = vec![
        OptionalParameter::Int("min_len", 2),
        OptionalParameter::Int("max_len", 3),
    ];
    let p = RegexParserFactory::new_set("a", None, Some(params));
    assert_eq!(p.parse("a"), None);
    assert_eq!(p.parse("aa"), Some(2));
    assert_eq!(p.parse("aaa"), Some(3));
    assert_eq!(p.parse("aaaa"), None);
}

#[test]
fn set_parser_ignores_unknown_parameter_keys() {
    let params = vec![OptionalParameter::Int("other", 9)];
    let p = RegexParserFactory::new_set("a", None, Some(params));
    assert_eq!(p.parse("aaaa"), Some(4));
}

#[test]
fn int_parser_takes_digits_only() {
    let p = RegexParserFactory::new_int(Some("id"), None);
    assert_eq!(p.parse("42x"), Some(2));
    assert_eq!(p.parse("0123456789 rest"), Some(10));
    assert_eq!(p.parse("x42"), None);
}

#[test]
fn greedy_without_marker_takes_everything() {
    let p = GreedyParser::new(Some("rest"), None);
    assert_eq!(p.parse("anything at all"), Some(15));
    assert_eq!(p.parse(""), Some(0));
}

#[test]
fn greedy_with_marker_stops_before_it() {
    let p = GreedyParser::new(None, Some("!"));
    assert_eq!(p.parse("hello!world"), Some(5));
}

#[test]
fn greedy_without_its_marker_fails() {
    let p = GreedyParser::new(None, Some("!"));
    assert_eq!(p.parse("hello"), None);
}

#[test]
fn greedy_marker_at_front_takes_nothing() {
    let p = GreedyParser::new(None, Some("!"));
    assert_eq!(p.parse("!rest"), Some(0));
}

#[test]
fn identity_tags_reflect_kind_not_configuration() {
    let a = RegexParserFactory::new_set("abc", None, None);
    let b = RegexParserFactory::new_set("xyz", Some("named"), None);
    let i = RegexParserFactory::new_int(None, None);
    let g = RegexParserFactory::new_greedy(None, Some("!"));
    assert_eq!(a.kind(), b.kind());
    assert_eq!(a.kind(), ParserKind::CharSet);
    assert_eq!(i.kind(), ParserKind::Integer);
    assert_eq!(g.kind(), ParserKind::Greedy);
    assert!(a.kind() != i.kind());
}

#[test]
fn renaming_an_extractor_changes_the_recorded_field() {
    let mut p = RegexParserFactory::new_int(Some("old_name"), None);
    assert_eq!(p.name().unwrap(), "old_name");
    p.set_name(Some("new_name".to_string()));
    assert_eq!(p.name().unwrap(), "new_name");
    p.set_name(None);
    assert!(p.name().is_none());
}

#[test]
fn duplicate_extractor_is_independent_and_equal() {
    let p = RegexParserFactory::new_set("ab", Some("f"), None);
    let q = p.duplicate();
    assert_eq!(q.parse("abba"), p.parse("abba"));
    match (&p, &q) {
        (Parser::CharSet(a), Parser::CharSet(b)) => {
            assert_eq!(a.name, b.name);
            assert_eq!(a.set, b.set);
        },
        _ => panic!("duplicate changed the extractor kind"),
    }
}
