//! Matcher suites: each strategy bundled with the factories a caller uses to
//! stand up a matcher and its extractors, so that whole strategies can be
//! compared and swapped behind one set of associated types.

use vstd::prelude::*;

use crate::linear::RegexMatcher;
use crate::linear::RegexMatcherFactory;
use crate::parsers::RegexParserFactory;
use crate::suffix::SuffixTable;

verus! {

/// Builds empty matchers of one strategy.
pub trait MatcherFactory {
    type Matcher;

    fn new_matcher() -> Self::Matcher;
}

impl MatcherFactory for RegexMatcherFactory {
    type Matcher = RegexMatcher;

    fn new_matcher() -> (r: RegexMatcher)
        ensures
            r@ == Seq::<crate::pattern::PatternModel>::empty(),
    {
        RegexMatcher::new()
    }
}

/// Builds empty prefix-indexed matchers.
pub struct SuffixArrayMatcherFactory;

impl MatcherFactory for SuffixArrayMatcherFactory {
    type Matcher = SuffixTable;

    fn new_matcher() -> (r: SuffixTable)
        ensures
            r@ == crate::suffix::TableModel::empty(),
            r@.wf(),
    {
        SuffixTable::new()
    }
}

/// One matching strategy: its matcher type, the factory for its extractors
/// and the factory for its matchers.
pub trait MatcherSuite {
    type Matcher;

    type ParserFactory;

    type MatcherFactory;
}

/// The sequential-scan strategy as a suite.
pub struct RegexMatcherSuite;

impl MatcherSuite for RegexMatcherSuite {
    type Matcher = RegexMatcher;

    type ParserFactory = RegexParserFactory;

    type MatcherFactory = RegexMatcherFactory;
}

/// The prefix-indexed strategy as a suite.
pub struct SuffixArrayMatcherSuite;

impl MatcherSuite for SuffixArrayMatcherSuite {
    type Matcher = SuffixTable;

    type ParserFactory = RegexParserFactory;

    type MatcherFactory = SuffixArrayMatcherFactory;
}

} // verus!
