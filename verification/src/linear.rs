//! The sequential-scan matching strategy.
//!
//! Patterns are kept in insertion order, never sorted or indexed.  A parse
//! walks each pattern's tokens left to right against a shrinking remainder of
//! the input; the first pattern to reach acceptance wins.  A pattern is
//! accepted as soon as the remainder becomes empty after a token — even if
//! tokens are left unconsumed, a quirk this strategy pins down deliberately.

use vstd::prelude::*;

use crate::parsers::spec_parser_name;
use crate::parsers::spec_parser_parse;
use crate::pattern::MatchModel;
use crate::pattern::MatchResult;
use crate::pattern::Pattern;
use crate::pattern::PatternModel;
use crate::pattern::Token;
use crate::pattern::TokenModel;
use crate::pattern::opt_match_view;
use crate::text::starts_with;
use crate::text::str_starts_with;

verus! {

/// How many characters one token takes from the front of `rem`, or nothing
/// when the token does not match there.
pub open spec fn spec_token_consume(t: TokenModel, rem: Seq<char>) -> Option<int> {
    match t {
        TokenModel::Literal(l) => if starts_with(rem, l) {
            Some(l.len() as int)
        } else {
            None
        },
        TokenModel::Parser(p) => spec_parser_parse(p, rem),
    }
}

/// The fields after one token consumed `n` characters of `rem`: an extractor
/// with a name records its capture, everything else leaves them unchanged.
pub open spec fn spec_token_fields(
    t: TokenModel,
    rem: Seq<char>,
    n: int,
    fields: Map<Seq<char>, Seq<char>>,
) -> Map<Seq<char>, Seq<char>> {
    match t {
        TokenModel::Literal(_) => fields,
        TokenModel::Parser(p) => match spec_parser_name(p) {
            Some(nm) => fields.insert(nm, rem.take(n)),
            None => fields,
        },
    }
}

/// The token walk of the sequential strategy: consume tokens left to right,
/// accepting as soon as the remainder is empty after a token, and failing on
/// the first token that does not match or when the tokens run out first.
pub open spec fn spec_walk(
    tokens: Seq<TokenModel>,
    rem: Seq<char>,
    fields: Map<Seq<char>, Seq<char>>,
) -> Option<Map<Seq<char>, Seq<char>>>
    decreases tokens.len(),
{
    if tokens.len() == 0 {
        None
    } else {
        match spec_token_consume(tokens[0], rem) {
            None => None,
            Some(n) => {
                let fields2 = spec_token_fields(tokens[0], rem, n, fields);
                let rem2 = rem.skip(n);
                if rem2.len() == 0 {
                    Some(fields2)
                } else {
                    spec_walk(tokens.drop_first(), rem2, fields2)
                }
            },
        }
    }
}

/// What one pattern yields on `text` under the sequential strategy.
pub open spec fn spec_pattern_match(p: PatternModel, text: Seq<char>) -> Option<MatchModel> {
    match spec_walk(p.tokens, text, Map::empty()) {
        Some(f) => Some(MatchModel { pattern: p.uuid, fields: f }),
        None => None,
    }
}

/// What the sequential strategy yields on `text`: the first pattern in
/// insertion order that reaches acceptance.
pub open spec fn spec_linear_parse(ps: Seq<PatternModel>, text: Seq<char>) -> Option<MatchModel>
    decreases ps.len(),
{
    if ps.len() == 0 {
        None
    } else {
        match spec_pattern_match(ps[0], text) {
            Some(m) => Some(m),
            None => spec_linear_parse(ps.drop_first(), text),
        }
    }
}

/// The sequential-scan matcher: patterns tried in insertion order.
#[derive(Debug)]
pub struct RegexMatcher {
    pub patterns: Vec<Pattern>,
}

impl View for RegexMatcher {
    type V = Seq<PatternModel>;

    open spec fn view(&self) -> Seq<PatternModel> {
        self.patterns@.map_values(|p: Pattern| p@)
    }
}

impl RegexMatcher {
    /// An empty matcher; it matches nothing until patterns are added.
    pub fn new() -> (r: RegexMatcher)
        ensures
            r@ == Seq::<PatternModel>::empty(),
    {
        let r = RegexMatcher { patterns: Vec::new() };
        proof {
            assert(r@ =~= Seq::<PatternModel>::empty());
        }
        r
    }

    /// Registers a pattern after all the patterns added before it.
    pub fn add_pattern(&mut self, pattern: Pattern)
        ensures
            final(self)@ == old(self)@.push(pattern@),
    {
        self.patterns.push(pattern);
        proof {
            assert(self@ =~= old(self)@.push(pattern@));
        }
    }

    /// The first registered pattern that accepts `text`, with its captures;
    /// nothing when no pattern accepts.
    pub fn parse(&self, text: &str) -> (r: Option<MatchResult>)
        ensures
            opt_match_view(r) == spec_linear_parse(self@, text@),
    {
        let n = self.patterns.len();
        let mut i: usize = 0;
        proof {
            assert(self@.skip(0) =~= self@);
        }
        while i < n
            invariant
                n == self.patterns@.len(),
                i <= n,
                spec_linear_parse(self@, text@) == spec_linear_parse(self@.skip(i as int), text@),
            decreases n - i,
        {
            let pattern = &self.patterns[i];
            let ghost tm = pattern@.tokens;
            proof {
                assert(self@[i as int] == pattern@);
                assert(self@.skip(i as int)[0] == self@[i as int]);
            }
            let tn = pattern.tokens.len();
            let mut result = MatchResult::new(pattern);
            let mut rem: &str = text;
            let mut j: usize = 0;
            proof {
                assert(tm.skip(0) =~= tm);
                assert(tm.len() == tn) by {
                    assert(tm == pattern.tokens@.map_values(|t: Token| t@));
                }
            }
            loop
                invariant_except_break
                    j <= tn,
                    tn == tm.len(),
                    tn == pattern.tokens@.len(),
                    tm == pattern@.tokens,
                    pattern@ == self@[i as int],
                    0 <= i < self@.len(),
                    spec_linear_parse(self@, text@) == spec_linear_parse(
                        self@.skip(i as int),
                        text@,
                    ),
                    result@.pattern == pattern@.uuid,
                    spec_walk(tm, text@, Map::empty()) == spec_walk(
                        tm.skip(j as int),
                        rem@,
                        result@.fields,
                    ),
                ensures
                    spec_walk(tm, text@, Map::empty()) is None,
                    pattern@ == self@[i as int],
                    0 <= i < self@.len(),
                decreases tn - j,
            {
                if j >= tn {
                    proof {
                        assert(tm.skip(j as int) =~= Seq::<TokenModel>::empty());
                    }
                    break;
                }
                let ghost rem_before = rem@;
                let ghost fields_before = result@.fields;
                proof {
                    assert(tm.skip(j as int)[0] == tm[j as int]);
                    assert(tm[j as int] == pattern.tokens@[j as int]@);
                }
                let token = &pattern.tokens[j];
                match token {
                    Token::Literal(lit) => {
                        if str_starts_with(rem, lit.as_str()) {
                            let ll = lit.unicode_len();
                            let rl = rem.unicode_len();
                            rem = rem.substring_char(ll, rl);
                            proof {
                                assert(rem@ =~= rem_before.skip(lit@.len() as int));
                            }
                        } else {
                            proof {
                                assert(spec_token_consume(tm[j as int], rem@) is None);
                            }
                            break;
                        }
                    },
                    Token::Parser(p) => {
                        match p.parse(rem) {
                            Some(cnt) => {
                                let rl = rem.unicode_len();
                                let captured = rem.substring_char(0, cnt);
                                match p.name() {
                                    Some(nm) => {
                                        let field_name = nm.clone();
                                        result.insert(field_name, captured.to_owned());
                                        proof {
                                            assert(rem_before.take(cnt as int) =~= rem_before
                                                .subrange(0, cnt as int));
                                        }
                                    },
                                    None => {},
                                }
                                rem = rem.substring_char(cnt, rl);
                                proof {
                                    assert(rem@ =~= rem_before.skip(cnt as int));
                                }
                            },
                            None => {
                                proof {
                                    assert(spec_token_consume(tm[j as int], rem@) is None);
                                }
                                break;
                            },
                        }
                    },
                }
                proof {
                    assert(tm.skip(j as int).drop_first() =~= tm.skip(j as int + 1));
                }
                if rem.unicode_len() == 0 {
                    proof {
                        assert(spec_walk(tm, text@, Map::empty()) == Some(result@.fields));
                        assert(spec_pattern_match(pattern@, text@) == Some(result@));
                        assert(spec_linear_parse(self@.skip(i as int), text@) == Some(result@));
                    }
                    return Some(result);
                }
                j = j + 1;
            }
            proof {
                assert(spec_pattern_match(pattern@, text@) is None);
                assert(self@.skip(i as int).drop_first() =~= self@.skip(i as int + 1));
            }
            i = i + 1;
        }
        proof {
            assert(self@.skip(n as int) =~= Seq::<PatternModel>::empty());
        }
        None
    }
}

impl RegexMatcher {
    /// An independent deep copy of this matcher: it holds the same patterns
    /// and shares no state with the original.
    pub fn duplicate(&self) -> (r: RegexMatcher)
        ensures
            r@ == self@,
    {
        let mut patterns: Vec<Pattern> = Vec::new();
        let n = self.patterns.len();
        let mut i: usize = 0;
        while i < n
            invariant
                n == self.patterns@.len(),
                i <= n,
                patterns@.len() == i,
                forall|j: int| 0 <= j < i ==> (#[trigger] patterns@[j])@ == self.patterns@[j]@,
            decreases n - i,
        {
            patterns.push(self.patterns[i].duplicate());
            i = i + 1;
        }
        let r = RegexMatcher { patterns };
        proof {
            assert(r@ =~= self@);
        }
        r
    }
}

/// Builds empty sequential-scan matchers.
pub struct RegexMatcherFactory;

} // verus!
