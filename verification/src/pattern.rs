//! Compiled patterns and match results.
//!
//! A pattern is an ordered sequence of tokens — literal text fragments and
//! field extractors — together with an opaque identity that a matcher reports
//! back when the pattern matches.  A match result carries that identity and
//! the mapping from field names to the captured substrings.

use vstd::prelude::*;

use crate::parsers::Parser;
use crate::parsers::ParserModel;

verus! {

/// One token of a compiled pattern.
#[derive(Debug)]
pub enum Token {
    Literal(String),
    Parser(Parser),
}

/// Mathematical content of a token.
pub enum TokenModel {
    Literal(Seq<char>),
    Parser(ParserModel),
}

impl View for Token {
    type V = TokenModel;

    open spec fn view(&self) -> TokenModel {
        match self {
            Token::Literal(s) => TokenModel::Literal(s@),
            Token::Parser(p) => TokenModel::Parser(p@),
        }
    }
}

/// A compiled pattern: an ordered token sequence plus an opaque identity.
/// A matcher takes ownership on insertion and drains the tokens from the
/// front while building its index.
#[derive(Debug)]
pub struct Pattern {
    pub uuid: String,
    pub tokens: Vec<Token>,
}

/// Mathematical content of a pattern.
pub struct PatternModel {
    pub uuid: Seq<char>,
    pub tokens: Seq<TokenModel>,
}

impl View for Pattern {
    type V = PatternModel;

    open spec fn view(&self) -> PatternModel {
        PatternModel { uuid: self.uuid@, tokens: self.tokens@.map_values(|t: Token| t@) }
    }
}

impl Pattern {
    pub fn new(uuid: String, tokens: Vec<Token>) -> (r: Pattern)
        ensures
            r@.uuid == uuid@,
            r@.tokens == tokens@.map_values(|t: Token| t@),
    {
        Pattern { uuid, tokens }
    }

    /// The identity under which a match of this pattern is reported.
    pub fn uuid(&self) -> (r: &String)
        ensures
            r@ == self@.uuid,
    {
        &self.uuid
    }

    /// The remaining token sequence.
    pub fn pattern(&self) -> (r: &Vec<Token>)
        ensures
            r@.map_values(|t: Token| t@) == self@.tokens,
    {
        &self.tokens
    }

    /// An independent deep copy of this pattern.
    pub fn duplicate(&self) -> (r: Pattern)
        ensures
            r@ == self@,
    {
        let mut tokens: Vec<Token> = Vec::new();
        let n = self.tokens.len();
        let mut i: usize = 0;
        while i < n
            invariant
                n == self.tokens@.len(),
                i <= n,
                tokens@.len() == i,
                forall|j: int| 0 <= j < i ==> tokens@[j] == self.tokens@[j],
            decreases n - i,
        {
            let t = match &self.tokens[i] {
                Token::Literal(s) => Token::Literal(s.clone()),
                Token::Parser(p) => Token::Parser(p.duplicate()),
            };
            tokens.push(t);
            i = i + 1;
        }
        proof {
            assert(tokens@ =~= self.tokens@);
        }
        Pattern { uuid: self.uuid.clone(), tokens }
    }

    /// Removes and returns the first token, if one is left.
    pub fn pop_first_token(&mut self) -> (r: Option<Token>)
        ensures
            final(self)@.uuid == old(self)@.uuid,
            match r {
                Some(t) => old(self)@.tokens.len() > 0 && t@ == old(self)@.tokens[0]
                    && final(self)@.tokens == old(self)@.tokens.drop_first(),
                None => old(self)@.tokens.len() == 0 && final(self)@ == old(self)@,
            },
    {
        if self.tokens.len() == 0 {
            None
        } else {
            let t = self.tokens.remove(0);
            proof {
                assert(self.tokens@.map_values(|t: Token| t@) =~= old(self)@.tokens.drop_first());
            }
            Some(t)
        }
    }
}

/// Mathematical content of a match result: the identity of the pattern that
/// matched and the captured fields, as a map from name to captured text.
pub struct MatchModel {
    pub pattern: Seq<char>,
    pub fields: Map<Seq<char>, Seq<char>>,
}

/// The field map denoted by a capture list: later entries override earlier
/// ones of the same name.
pub open spec fn fields_map(s: Seq<(String, String)>) -> Map<Seq<char>, Seq<char>>
    decreases s.len(),
{
    if s.len() == 0 {
        Map::empty()
    } else {
        fields_map(s.drop_last()).insert(s.last().0@, s.last().1@)
    }
}

/// Outcome of a successful parse: the matched pattern's identity and the
/// named captures, immutable once handed to the caller.
#[derive(Debug)]
pub struct MatchResult {
    pub pattern_id: String,
    pub values: Vec<(String, String)>,
}

impl View for MatchResult {
    type V = MatchModel;

    open spec fn view(&self) -> MatchModel {
        MatchModel { pattern: self.pattern_id@, fields: fields_map(self.values@) }
    }
}

/// Match results of both strategies compare through this: `None` for no
/// match, or the model of the one result.
pub open spec fn opt_match_view(r: Option<MatchResult>) -> Option<MatchModel> {
    match r {
        Some(m) => Some(m@),
        None => None,
    }
}

proof fn lemma_fields_map_found(s: Seq<(String, String)>, name: Seq<char>, i: int)
    requires
        0 <= i < s.len(),
        s[i].0@ == name,
        forall|j: int| i < j < s.len() ==> s[j].0@ != name,
    ensures
        fields_map(s).contains_key(name),
        fields_map(s)[name] == s[i].1@,
    decreases s.len(),
{
    if i == s.len() - 1 {
    } else {
        lemma_fields_map_found(s.drop_last(), name, i);
    }
}

proof fn lemma_fields_map_absent(s: Seq<(String, String)>, name: Seq<char>)
    requires
        forall|j: int| 0 <= j < s.len() ==> s[j].0@ != name,
    ensures
        !fields_map(s).contains_key(name),
    decreases s.len(),
{
    if s.len() > 0 {
        lemma_fields_map_absent(s.drop_last(), name);
    }
}

impl MatchResult {
    /// An empty result for the given pattern.
    pub fn new(pattern: &Pattern) -> (r: MatchResult)
        ensures
            r@.pattern == pattern@.uuid,
            r@.fields == Map::<Seq<char>, Seq<char>>::empty(),
    {
        MatchResult { pattern_id: pattern.uuid.clone(), values: Vec::new() }
    }

    /// Records a capture; a later capture under the same name overrides an
    /// earlier one.
    pub fn insert(&mut self, name: String, value: String)
        ensures
            final(self)@.pattern == old(self)@.pattern,
            final(self)@.fields == old(self)@.fields.insert(name@, value@),
    {
        let ghost before = self.values@;
        self.values.push((name, value));
        proof {
            assert(self.values@.drop_last() =~= before);
        }
    }

    /// The identity of the pattern that produced this result.
    pub fn pattern_id(&self) -> (r: &String)
        ensures
            r@ == self@.pattern,
    {
        &self.pattern_id
    }

    /// The capture recorded under `name`, if any.
    pub fn get(&self, name: &str) -> (r: Option<&String>)
        ensures
            match r {
                Some(v) => self@.fields.contains_key(name@) && self@.fields[name@] == v@,
                None => !self@.fields.contains_key(name@),
            },
    {
        let mut i: usize = self.values.len();
        while i > 0
            invariant
                i <= self.values@.len(),
                forall|j: int| i <= j < self.values@.len() ==> self.values@[j].0@ != name@,
            decreases i,
        {
            i = i - 1;
            if crate::text::str_compare(self.values[i].0.as_str(), name) == 0 {
                proof {
                    lemma_fields_map_found(self.values@, name@, i as int);
                }
                return Some(&self.values[i].1);
            }
        }
        proof {
            lemma_fields_map_absent(self.values@, name@);
        }
        None
    }
}

} // verus!
